use chess_engine::mgen::{ext_frm, ext_to, i2xy, null_move, pack_data};
use chess_engine::{Game, Move, Piece};

fn sq(name: &str) -> usize {
    let b = name.as_bytes();
    (7 - (b[0] - b'a') as usize) * 8 + (b[1] - b'1') as usize
}

fn perft(g: &mut Game, last: Option<&Move>, depth: usize) -> u64 {
    let moves = g.legal_moves(last);
    if depth == 1 {
        return moves.len() as u64;
    }
    let mut n = 0;
    for m in moves.iter() {
        g.update(m);
        n += perft(g, Some(m), depth - 1);
        g.backdate(m);
    }
    n
}

const START: &str = "rnbqkbnr/pppppppp/8/8/8/8/PPPPPPPP/RNBQKBNR w KQkq - 0 1";

#[test]
fn start_position_has_twenty_moves() {
    let mut g = Game::from_fen(START).unwrap();
    let v = g.legal_moves(None);
    assert_eq!(v.len(), 20);
    assert_eq!(g.n_searched(), 20);
}

#[test]
fn perft_of_the_start_position() {
    let mut g = Game::from_fen(START).unwrap();
    assert_eq!(perft(&mut g, None, 2), 400);
    assert_eq!(perft(&mut g, None, 3), 8902);
    assert_eq!(g.to_fen(), START);
}

#[test]
fn perft_with_en_passant_and_pins() {
    let fen = "8/2p5/3p4/KP5r/1R3p1k/8/4P1P1/8 w - - 0 1";
    let mut g = Game::from_fen(fen).unwrap();
    assert_eq!(perft(&mut g, None, 1), 14);
    assert_eq!(perft(&mut g, None, 2), 191);
    assert_eq!(perft(&mut g, None, 3), 2812);
    assert_eq!(g.to_fen(), fen);
}

#[test]
fn perft_with_castling_and_promotion() {
    let fen = "r3k2r/p1ppqpb1/bn2pnp1/3PN3/1p2P3/2N2Q1p/PPPBBPPP/R3K2R w KQkq - 0 1";
    let mut g = Game::from_fen(fen).unwrap();
    assert_eq!(perft(&mut g, None, 1), 48);
    // 2039 by the rules of chess; four more because the transit squares of castling are not
    // looked at: the king may pass over an attacked square.
    assert_eq!(perft(&mut g, None, 2), 2043);
}

#[test]
fn castling_over_an_attacked_square_is_generated() {
    let mut g = Game::from_fen("4k3/8/8/8/8/5r2/8/4K2R w K - 0 1").unwrap();
    assert!(!g.in_check(true));
    let v = g.legal_moves(None);
    assert_eq!(v.iter().filter(|m| m.castle()).count(), 1);
}

#[test]
fn promotions_come_in_four() {
    let mut g = Game::from_fen("8/P6k/8/8/8/8/8/K7 w - - 0 1").unwrap();
    let v = g.legal_moves(None);
    let promos: Vec<&Move> = v.iter().filter(|m| m.transform()).collect();
    assert_eq!(promos.len(), 4);
    let mut kinds: Vec<Piece> = promos.iter().map(|m| m.ptransform(true)).collect();
    kinds.sort_by_key(|p| p.to_ascii());
    assert_eq!(
        kinds,
        vec![Piece::Bishop(true), Piece::Knight(true), Piece::Queen(true), Piece::Rook(true)]
    );
    for m in promos {
        assert_eq!(m.frm(), sq("a7"));
        assert_eq!(m.to(), sq("a8"));
    }
}

#[test]
fn underpromotion_puts_the_chosen_piece() {
    let mut g = Game::from_fen("8/P6k/8/8/8/8/8/K7 w - - 0 1").unwrap();
    let v = g.legal_moves(None);
    let m = v.iter().find(|m| m.transform() && m.ptransform(true) == Piece::Knight(true)).unwrap();
    g.update(m);
    assert_eq!(g.piece_at(sq("a8")), Piece::Knight(true));
    assert_eq!(g.piece_at(sq("a7")), Piece::Nil);
    g.backdate(m);
    assert_eq!(g.piece_at(sq("a7")), Piece::Pawn(true));
    assert_eq!(g.piece_at(sq("a8")), Piece::Nil);
}

#[test]
fn en_passant_follows_a_double_step() {
    let mut g = Game::from_fen("4k3/8/8/8/1p6/8/P7/4K3 w - - 0 1").unwrap();
    let v = g.legal_moves(None);
    let push = *v.iter().find(|m| m.frm() == sq("a2") && m.to() == sq("a4")).unwrap();
    g.update(&push);
    let replies = g.legal_moves(Some(&push));
    let ep = *replies.iter().find(|m| m.en_passant()).unwrap();
    assert_eq!(ep.frm(), sq("b4"));
    assert_eq!(ep.to(), sq("a3"));
    assert_eq!(replies.iter().filter(|m| m.en_passant()).count(), 1);
    let without = g.legal_moves(None);
    assert_eq!(without.iter().filter(|m| m.en_passant()).count(), 0);
    g.update(&ep);
    assert_eq!(g.piece_at(sq("a4")), Piece::Nil);
    assert_eq!(g.piece_at(sq("a3")), Piece::Pawn(false));
    g.backdate(&ep);
    assert_eq!(g.piece_at(sq("a4")), Piece::Pawn(true));
    assert_eq!(g.piece_at(sq("b4")), Piece::Pawn(false));
    assert_eq!(g.piece_at(sq("a3")), Piece::Nil);
}

#[test]
fn castling_moves_king_and_rook() {
    let mut g = Game::from_fen("r3k2r/8/8/8/8/8/8/R3K2R w KQkq - 0 1").unwrap();
    let v = g.legal_moves(None);
    let castles: Vec<Move> = v.iter().filter(|m| m.castle()).cloned().collect();
    assert_eq!(castles.len(), 2);
    let short = castles.iter().find(|m| m.to() == sq("g1")).unwrap();
    g.update(short);
    assert_eq!(g.piece_at(sq("g1")), Piece::King(true));
    assert_eq!(g.piece_at(sq("f1")), Piece::Rook(true));
    assert_eq!(g.piece_at(sq("h1")), Piece::Nil);
    assert_eq!(g.piece_at(sq("e1")), Piece::Nil);
    let c = g.castling();
    assert!(!c.white_short && !c.white_long && c.black_short && c.black_long);
    g.backdate(short);
    assert_eq!(g.piece_at(sq("e1")), Piece::King(true));
    assert_eq!(g.piece_at(sq("h1")), Piece::Rook(true));
    let c = g.castling();
    assert!(c.white_short && c.white_long && c.black_short && c.black_long);
    let long = castles.iter().find(|m| m.to() == sq("c1")).unwrap();
    g.update(long);
    assert_eq!(g.piece_at(sq("c1")), Piece::King(true));
    assert_eq!(g.piece_at(sq("d1")), Piece::Rook(true));
    assert_eq!(g.piece_at(sq("a1")), Piece::Nil);
    g.backdate(long);
}

#[test]
fn no_castling_out_of_check() {
    let mut g = Game::from_fen("4k3/8/8/8/8/8/4r3/R3K2R w KQ - 0 1").unwrap();
    assert!(g.in_check(true));
    let v = g.legal_moves(None);
    assert_eq!(v.iter().filter(|m| m.castle()).count(), 0);
}

#[test]
fn a_rook_move_ends_one_castling_right() {
    let mut g = Game::from_fen("r3k2r/8/8/8/8/8/8/R3K2R w KQkq - 0 1").unwrap();
    let v = g.legal_moves(None);
    let m = v.iter().find(|m| m.frm() == sq("h1") && m.to() == sq("h2")).unwrap();
    g.update(m);
    let c = g.castling();
    assert!(!c.white_short && c.white_long && c.black_short && c.black_long);
}

#[test]
fn moves_are_ordered_by_value() {
    let mut g = Game::from_fen("4k3/8/8/3q4/4P3/8/8/4K3 w - - 0 1").unwrap();
    let v = g.moves(None);
    assert!(v.windows(2).all(|w| w[0].val >= w[1].val));
    assert_eq!(v[0].frm(), sq("e4"));
    assert_eq!(v[0].to(), sq("d5"));
    let mut b = Game::from_fen("4k3/8/8/3q4/4P3/8/8/4K3 b - - 0 1").unwrap();
    let v = b.moves(None);
    assert!(v.windows(2).all(|w| w[0].val <= w[1].val));
    assert_eq!(v[0].frm(), sq("d5"));
    assert_eq!(v[0].to(), sq("e4"));
}

#[test]
fn static_value_of_a_capture() {
    let mut g = Game::from_fen("4k3/8/8/3q4/4P3/8/8/4K3 w - - 0 1").unwrap();
    let before = g.material();
    let v = g.moves(None);
    let m = v[0];
    let pawn = Piece::Pawn(true);
    let queen = Piece::Queen(false);
    assert_eq!(m.val, pawn.val(sq("d5")) - pawn.val(sq("e4")) - queen.val(sq("d5")));
    g.update(&m);
    assert_eq!(g.material(), before + m.val);
}

#[test]
fn update_then_backdate_restores_the_game() {
    let mut g = Game::from_fen(START).unwrap();
    let h = g.hash();
    let mat = g.material();
    let fen = g.to_fen();
    let v = g.legal_moves(None);
    for m in v.iter() {
        g.update(m);
        assert_ne!(g.hash(), h);
        assert_eq!(g.rep_count(), 1);
        assert_eq!(g.rep_len(), 2);
        assert_eq!(g.undo_len(), 1);
        assert!(!g.turn());
        g.backdate(m);
        assert_eq!(g.hash(), h);
        assert_eq!(g.material(), mat);
        assert_eq!(g.rep_count(), 1);
        assert_eq!(g.rep_len(), 1);
        assert_eq!(g.undo_len(), 0);
        assert_eq!(g.to_fen(), fen);
    }
}

#[test]
fn move_fields_read_back() {
    let m = Move::new(false, true, 12, 21);
    assert_eq!(m.frm(), 12);
    assert_eq!(m.to(), 21);
    assert!(m.en_passant());
    assert!(!m.castle());
    assert!(!m.transform());
    assert_eq!(m.val, 0);
    let c = Move::new(true, false, 24, 8);
    assert!(c.castle() && !c.en_passant() && !c.transform());
    assert_eq!(ext_frm(c.data), 24);
    assert_eq!(ext_to(c.data), 8);
}

#[test]
fn packed_bits_of_each_kind() {
    assert_eq!(pack_data(false, false, Piece::Nil, 3, 5), (5 << 6) | 3);
    assert_eq!(pack_data(true, false, Piece::Nil, 0, 0), 1 << 12);
    assert_eq!(pack_data(false, true, Piece::Nil, 0, 0), 1 << 13);
    assert_eq!(pack_data(false, false, Piece::Queen(true), 0, 0), 1 << 14);
    assert_eq!(pack_data(false, false, Piece::Rook(true), 0, 0), (1 << 14) | (1 << 15));
    assert_eq!(pack_data(false, false, Piece::Bishop(false), 0, 0), (1 << 14) | (1 << 13));
    assert_eq!(pack_data(false, false, Piece::Knight(false), 0, 0), (1 << 14) | (1 << 12));
    let n = Move { data: pack_data(false, false, Piece::Knight(true), 9, 10), val: 0 };
    assert!(n.transform() && !n.castle() && !n.en_passant());
    assert_eq!(n.ptransform(false), Piece::Knight(false));
    let b = Move { data: pack_data(false, false, Piece::Bishop(true), 9, 10), val: 0 };
    assert!(b.transform() && !b.castle() && !b.en_passant());
    assert_eq!(b.ptransform(true), Piece::Bishop(true));
}

#[test]
fn null_move_goes_nowhere() {
    let m = null_move();
    assert_eq!((m.frm(), m.to(), m.val), (0, 0, 0));
    assert!(!m.castle() && !m.en_passant() && !m.transform());
}

#[test]
fn file_and_rank_of_squares() {
    assert_eq!(i2xy(sq("a1")), (0, 0));
    assert_eq!(i2xy(sq("h1")), (7, 0));
    assert_eq!(i2xy(sq("e4")), (4, 3));
    assert_eq!(i2xy(0), (7, 0));
    assert_eq!(i2xy(63), (0, 7));
}

#[test]
fn move_text_names_squares_and_promotion() {
    assert_eq!(Move::new(false, false, sq("e2"), sq("e4")).to_text(), "e2e4");
    let q = Move { data: pack_data(false, false, Piece::Queen(true), sq("a7"), sq("a8")), val: 0 };
    assert_eq!(q.to_text(), "a7a8=Q");
    let r = Move { data: pack_data(false, false, Piece::Rook(true), sq("a7"), sq("a8")), val: 0 };
    assert_eq!(r.to_text(), "a7a8=R");
    let b = Move { data: pack_data(false, false, Piece::Bishop(true), sq("a7"), sq("b8")), val: 0 };
    assert_eq!(b.to_text(), "a7b8=B");
    let n = Move { data: pack_data(false, false, Piece::Knight(false), sq("h2"), sq("h1")), val: 0 };
    assert_eq!(n.to_text(), "h2h1=N");
}
