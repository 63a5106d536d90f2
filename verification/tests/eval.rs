use chess_engine::bitmaps::{build_mask, reaches, Reach, Tables};
use chess_engine::bits::{clear_bit, count_bits, lowest, meets, set_bit};
use chess_engine::eval::{pawn_structure, scan_column};
use chess_engine::game::EVAL_LIMIT;
use chess_engine::mgen::{board2bm, board2bm_all, board2bm_kings, board2bm_pawns, count_moves, in_check};
use chess_engine::val::{abs_material, material, material_in, END_GAME_MATERIAL, MAX_VAL};
use chess_engine::{board2hash, Game, Piece};

const START: &str = "rnbqkbnr/pppppppp/8/8/8/8/PPPPPPPP/RNBQKBNR w KQkq - 0 1";

fn at(name: &str) -> usize {
    let b = name.as_bytes();
    (7 - (b[0] - b'a') as usize) * 8 + (b[1] - b'1') as usize
}

fn bits(names: &[&str]) -> u64 {
    names.iter().fold(0, |a, n| a | 1u64 << at(n))
}

#[test]
fn piece_values_by_square() {
    assert_eq!(Piece::Pawn(true).val(at("e2")), 50 + 4 + 7);
    assert_eq!(Piece::Pawn(true).val(at("d7")), 50 + 24 + 6);
    assert_eq!(Piece::Pawn(false).val(at("e7")), -(50 + 4 + 7));
    assert_eq!(Piece::Pawn(false).val(at("a2")), -(50 + 24));
    assert_eq!(Piece::Knight(true).val(at("a1")), 135);
    assert_eq!(Piece::Knight(true).val(at("e4")), 135 + 5 * 6);
    assert_eq!(Piece::Knight(false).val(at("d5")), -(135 + 5 * 6));
    assert_eq!(Piece::Bishop(true).val(at("c1")), 150 + 4 * 2);
    assert_eq!(Piece::Rook(true).val(at("a1")), 250);
    assert_eq!(Piece::Rook(true).val(at("d7")), 250 + 10 + 4);
    assert_eq!(Piece::Rook(false).val(at("e2")), -(250 + 10 + 4));
    assert_eq!(Piece::Queen(true).val(at("d1")), 450 + 2 * 3);
    assert_eq!(Piece::King(true).val(at("g1")), 20);
    assert_eq!(Piece::King(true).val(at("e1")), 0);
    assert_eq!(Piece::King(true).val(at("e4")), -30);
    assert_eq!(Piece::King(false).val(at("g8")), -20);
    assert_eq!(Piece::King(false).val(at("b7")), -(15 - 10));
    assert_eq!(Piece::Nil.val(at("e4")), 0);
}

#[test]
fn end_game_reads_the_king_from_the_other_side() {
    assert_eq!(Piece::King(true).val_in(at("g1"), true), 20 - 70);
    assert_eq!(Piece::King(true).val_in(at("g8"), true), 20);
    assert_eq!(Piece::King(false).val_in(at("g8"), true), -(20 - 70));
    assert_eq!(Piece::King(false).val_in(at("e1"), true), 0);
    assert_eq!(Piece::Queen(true).val_in(at("d1"), true), Piece::Queen(true).val(at("d1")));
    assert_eq!(Piece::Pawn(false).val_in(at("d5"), true), Piece::Pawn(false).val(at("d5")));
}

#[test]
fn values_are_small() {
    for p in [
        Piece::Rook(true),
        Piece::Knight(false),
        Piece::Bishop(true),
        Piece::Queen(false),
        Piece::King(true),
        Piece::Pawn(false),
        Piece::Nil,
    ] {
        for sq in 0..64 {
            assert!(p.val(sq).abs() <= MAX_VAL);
            assert!(p.val_in(sq, true).abs() <= MAX_VAL);
        }
    }
}

#[test]
fn letters_of_pieces() {
    for (p, c) in [
        (Piece::Rook(true), 'R'),
        (Piece::Knight(true), 'N'),
        (Piece::Bishop(true), 'B'),
        (Piece::Queen(true), 'Q'),
        (Piece::King(true), 'K'),
        (Piece::Pawn(true), 'P'),
        (Piece::Rook(false), 'r'),
        (Piece::Knight(false), 'n'),
        (Piece::Bishop(false), 'b'),
        (Piece::Queen(false), 'q'),
        (Piece::King(false), 'k'),
        (Piece::Pawn(false), 'p'),
    ] {
        assert_eq!(p.to_ascii(), c);
        assert_eq!(Piece::from_ascii(c), Some(p));
        assert_eq!(p.colour(), Some(c.is_uppercase()));
        assert_eq!(p.is_white(), c.is_uppercase());
        assert!(p.is_colour(c.is_uppercase()) && !p.is_colour(!c.is_uppercase()));
        assert!(!p.is_nil());
    }
    assert_eq!(Piece::King(true).to_unicode(), '♔');
    assert_eq!(Piece::Queen(true).to_unicode(), '♕');
    assert_eq!(Piece::Rook(true).to_unicode(), '♖');
    assert_eq!(Piece::Bishop(true).to_unicode(), '♗');
    assert_eq!(Piece::Knight(true).to_unicode(), '♘');
    assert_eq!(Piece::Pawn(true).to_unicode(), '♙');
    assert_eq!(Piece::King(false).to_unicode(), '♚');
    assert_eq!(Piece::Queen(false).to_unicode(), '♛');
    assert_eq!(Piece::Rook(false).to_unicode(), '♜');
    assert_eq!(Piece::Bishop(false).to_unicode(), '♝');
    assert_eq!(Piece::Knight(false).to_unicode(), '♞');
    assert_eq!(Piece::Pawn(false).to_unicode(), '♟');
    assert_eq!(Piece::Nil.to_unicode(), ' ');
    assert_eq!(Piece::Nil.to_ascii(), '.');
    assert_eq!(Piece::from_ascii('.'), None);
    assert_eq!(Piece::from_ascii('x'), None);
    assert_eq!(Piece::Nil.colour(), None);
    assert!(Piece::Nil.is_nil() && !Piece::Nil.is_white());
}

#[test]
fn material_of_the_start_position() {
    let g = Game::from_fen(START).unwrap();
    let b = g.board();
    assert_eq!(material(&b), 0);
    assert_eq!(g.material(), 0);
    assert_eq!(abs_material(&b), END_GAME_MATERIAL);
    assert_eq!(material_in(&b, true), 0);
    assert!(!g.is_end_game());
}

#[test]
fn material_is_the_sum_over_the_squares() {
    let g = Game::from_fen("4k3/8/8/3q4/4P3/8/8/R3K3 w - -").unwrap();
    let b = g.board();
    let sum: i16 = (0..64).map(|i| b[i].val_in(i, g.is_end_game())).sum();
    assert_eq!(g.material(), sum);
    assert_eq!(material_in(&b, g.is_end_game()), sum);
    let abs: i16 = (0..64).map(|i| b[i].val(i).abs()).sum();
    assert_eq!(abs_material(&b), abs);
    assert!(g.is_end_game());
}

#[test]
fn hash_is_that_of_board_and_side() {
    let mut g = Game::from_fen(START).unwrap();
    assert_eq!(g.hash(), board2hash(&g.board(), true));
    assert_ne!(board2hash(&g.board(), true), board2hash(&g.board(), false));
    assert_eq!(
        board2hash(&g.board(), true) ^ board2hash(&g.board(), false),
        chess_engine::hashkeys::WHITE_HASH
    );
    let v = g.legal_moves(None);
    for m in v.iter() {
        g.update(m);
        assert_eq!(g.hash(), board2hash(&g.board(), false));
        let w = g.legal_moves(Some(m));
        g.update(&w[0]);
        assert_eq!(g.hash(), board2hash(&g.board(), true));
        assert_eq!(g.material(), material_in(&g.board(), false));
        g.backdate(&w[0]);
        g.backdate(m);
    }
    assert_eq!(board2hash(&[Piece::Nil; 64], false), 0);
    assert_eq!(Piece::Nil.hashkey(5), 0);
    assert_ne!(Piece::Pawn(true).hashkey(5), Piece::Pawn(true).hashkey(6));
    assert_ne!(Piece::Pawn(true).hashkey(5), Piece::Pawn(false).hashkey(5));
}

#[test]
fn bitboards_of_the_start_position() {
    let g = Game::from_fen(START).unwrap();
    let b = g.board();
    let (w, k) = board2bm(&b);
    assert_eq!(w, 0x0303030303030303);
    assert_eq!(k, 0xC0C0C0C0C0C0C0C0);
    assert_eq!(w & k, 0);
    assert_eq!(board2bm_pawns(&b), 0x4242424242424242);
    assert_eq!(board2bm_kings(&b), bits(&["e1", "e8"]));
    assert_eq!(board2bm_all(&b), (w, k, 0x4242424242424242, bits(&["e1", "e8"])));
}

#[test]
fn bit_operations() {
    assert_eq!(set_bit(0b100, 0), 0b101);
    assert_eq!(clear_bit(0b101, 2), 0b001);
    assert_eq!(clear_bit(0b101, 1), 0b101);
    assert_eq!(lowest(0b101000), 3);
    assert_eq!(lowest(1 << 63), 63);
    assert_eq!(count_bits(0), 0);
    assert_eq!(count_bits(u64::MAX), 64);
    assert_eq!(count_bits(0b1011), 3);
    assert!(meets(0b110, 0b100) && !meets(0b110, 0b001));
}

#[test]
fn attack_tables() {
    let t = Tables::new();
    assert_eq!(t.mask(Reach::Knight, at("a1")), bits(&["b3", "c2"]));
    assert_eq!(t.mask(Reach::Knight, at("e4")), bits(&["d6", "f6", "c5", "g5", "c3", "g3", "d2", "f2"]));
    assert_eq!(t.mask(Reach::King, at("h1")), bits(&["g1", "g2", "h2"]));
    assert_eq!(t.mask(Reach::Rook, at("a1")).count_ones(), 14);
    assert_eq!(t.mask(Reach::Rook, at("a1")), bits(&["a2", "a3", "a4", "a5", "a6", "a7", "a8", "b1", "c1", "d1", "e1", "f1", "g1", "h1"]));
    assert_eq!(t.mask(Reach::Bishop, at("a1")), bits(&["b2", "c3", "d4", "e5", "f6", "g7", "h8"]));
    assert_eq!(t.mask(Reach::Bishop, at("e4")).count_ones(), 13);
    assert_eq!(t.mask(Reach::Queen, at("e4")), t.mask(Reach::Rook, at("e4")) | t.mask(Reach::Bishop, at("e4")));
    assert_eq!(t.mask(Reach::PawnCapture(true), at("e2")), bits(&["d3", "f3"]));
    assert_eq!(t.mask(Reach::PawnCapture(false), at("a7")), bits(&["b6"]));
    assert_eq!(t.mask(Reach::PawnStep1(true), at("e2")), bits(&["e3"]));
    assert_eq!(t.mask(Reach::PawnStep1(false), at("e2")), bits(&["e1"]));
    assert_eq!(t.mask(Reach::PawnStep1(true), at("e8")), 0);
    assert_eq!(t.mask(Reach::PawnStep2(true), at("e2")), bits(&["e4"]));
    assert_eq!(t.mask(Reach::PawnStep2(true), at("e3")), 0);
    assert_eq!(t.mask(Reach::PawnStep2(false), at("e7")), bits(&["e5"]));
    assert_eq!(t.mask(Reach::Beyond(at("a1")), at("a3")), bits(&["a4", "a5", "a6", "a7", "a8"]));
    assert_eq!(t.mask(Reach::Beyond(at("a1")), at("c3")), bits(&["d4", "e5", "f6", "g7", "h8"]));
    assert_eq!(t.mask(Reach::Beyond(at("e4")), at("d4")), bits(&["c4", "b4", "a4"]));
    assert_eq!(t.mask(Reach::Beyond(at("a1")), at("b3")), 0);
    assert_eq!(t.mask(Reach::Beyond(at("a1")), at("h8")), 0);
    assert_eq!(t.mask(Reach::Beyond(64), at("h8")), 0);
    for kind in [Reach::Knight, Reach::Queen, Reach::PawnStep2(false), Reach::Beyond(27)] {
        for a in 0..64 {
            assert_eq!(t.mask(kind, a), build_mask(kind, a));
            for sq in 0..64 {
                assert_eq!(reaches(kind, a, sq), t.mask(kind, a) >> sq & 1 == 1);
            }
        }
    }
}

#[test]
fn check_is_given_through_empty_squares_only() {
    let t = Tables::new();
    for (fen, white, black) in [
        ("4k3/8/8/8/8/8/4r3/4K3 w - -", true, false),
        ("4k3/8/8/8/8/4r3/4N3/4K3 w - -", false, false),
        ("4k3/8/8/8/8/8/3p4/4K3 w - -", true, false),
        ("4k3/3P4/8/8/8/8/8/4K3 w - -", false, true),
        ("4k3/8/5N2/8/8/8/8/4K3 w - -", false, true),
        ("4k3/8/8/8/1b6/8/8/4K3 w - -", true, false),
        ("4k3/8/8/8/1b6/2P5/8/4K3 w - -", false, false),
        ("8/8/8/8/8/8/8/4Kk2 w - -", true, true),
        ("4k3/4q3/8/8/8/8/4Q3/4K3 w - -", false, false),
        ("7k/5Q2/6K1/8/8/8/8/8 b - -", false, false),
    ] {
        let g = Game::from_fen(fen).unwrap();
        assert_eq!(g.in_check(true), white, "{}", fen);
        assert_eq!(g.in_check(false), black, "{}", fen);
        let b = g.board();
        let (w, k) = board2bm(&b);
        let kings = board2bm_kings(&b);
        assert_eq!(in_check(&t, &b, true, kings & w, w | k, k), white);
        assert_eq!(in_check(&t, &b, false, kings & k, w | k, w), black);
    }
}

#[test]
fn mobility_counts_moves_of_both_sides() {
    let g = Game::from_fen(START).unwrap();
    assert_eq!(g.mobility(), 0);
    let t = Tables::new();
    let b = g.board();
    let (w, k) = board2bm(&b);
    assert_eq!(count_moves(&t, &b, true, w, k), 20);
    assert_eq!(count_moves(&t, &b, false, w, k), 20);
    let g = Game::from_fen("4k3/8/8/8/8/8/8/R3K3 w - -").unwrap();
    // Rook: 7 up the file and 3 along the rank; king: 5; black king: 5.
    assert_eq!(g.mobility(), 15 - 5);
    let g = Game::from_fen("4k3/8/8/8/8/p7/P7/4K3 w - -").unwrap();
    assert_eq!(g.mobility(), 5 - (5 + 0));
}

#[test]
fn pawn_structure_scores() {
    let score = |fen: &str| Game::from_fen(fen).unwrap().score_pawn_structure();
    assert_eq!(score(START), 0);
    // One white pawn on e4: isolated (-4) and passed (2 * 3 * 3).
    assert_eq!(score("4k3/8/8/8/4P3/8/8/4K3 w - -"), 14);
    // One black pawn on e4: isolated (+4) and passed (-2 * 4 * 4).
    assert_eq!(score("4k3/8/8/8/4p3/8/8/4K3 w - -"), -28);
    // Doubled white pawns on e2 and e4: -20 - 4, the foremost passed on the fourth rank.
    assert_eq!(score("4k3/8/8/8/4P3/8/4P3/4K3 w - -"), -24 + 18);
    // Tripled pawns count twice.
    assert_eq!(score("4k3/8/8/4P3/4P3/8/4P3/4K3 w - -"), -44 + 32);
    // Neighbours on d and e: neither is isolated, both are passed.
    assert_eq!(score("4k3/8/8/8/3PP3/8/8/4K3 w - -"), 36);
    // Pawns that face each other on one file: White's is behind Black's, so neither has passed.
    assert_eq!(score("4k3/8/4p3/8/4P3/8/8/4K3 w - -"), 0);
    // Pawns that have passed each other on one file.
    assert_eq!(score("4k3/8/4P3/8/4p3/8/8/4K3 w - -"), 2 * 25 - 2 * 16);
    // The edge files look at one neighbour.
    assert_eq!(score("4k3/8/8/8/8/8/PP6/4K3 w - -"), 2 + 2);
    assert_eq!(score("4k3/8/8/8/8/8/P6P/4K3 w - -"), -8 + 4);
    let g = Game::from_fen("4k3/8/8/4P3/4P3/8/4P3/4K3 w - -").unwrap();
    assert_eq!(pawn_structure(&g.board()), -12);
    let col = scan_column(&g.board(), 3, true);
    assert_eq!((col.count, col.top, col.low), (3, 4, 1));
    let col = scan_column(&g.board(), 3, false);
    assert_eq!((col.count, col.top, col.low), (0, -1, 8));
}

#[test]
fn evaluation_is_the_sum_for_the_side_to_move() {
    let g = Game::from_fen("4k3/8/8/8/4P3/8/8/R3K3 w - -").unwrap();
    let sum = g.material() + g.score_pawn_structure() + g.mobility();
    assert_eq!(g.eval(true), sum);
    assert_eq!(g.eval(false), -sum);
    assert!(sum > 300);
    let g = Game::from_fen(START).unwrap();
    assert_eq!(g.eval(true), 0);
    let g = Game::from_fen("QQQQQQQQ/QQQQQQQQ/QQQQQQQQ/QQQQQQQQ/QQQQQQQQ/8/k7/7K w - -").unwrap();
    assert!(g.material() > 18000);
    assert_eq!(g.eval(true), EVAL_LIMIT);
    assert_eq!(g.eval(false), -EVAL_LIMIT);
}
