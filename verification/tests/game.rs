use chess_engine::game::{sort_moves, MAX_COUNTER, MAX_HISTORY};
use chess_engine::{Castling, Game, GameError, Move, Piece};

const START: &str = "rnbqkbnr/pppppppp/8/8/8/8/PPPPPPPP/RNBQKBNR w KQkq - 0 1";

fn on(name: &str) -> usize {
    let b = name.as_bytes();
    (7 - (b[0] - b'a') as usize) * 8 + (b[1] - b'1') as usize
}

fn mv(from: &str, to: &str) -> Move {
    Move::new(false, false, on(from), on(to))
}

#[test]
fn new_game_starts_with_white_and_all_rights() {
    let board = Game::from_fen(START).unwrap().board();
    let g = Game::new(board);
    assert!(g.turn());
    assert_eq!(
        g.castling(),
        Castling { white_short: true, white_long: true, black_short: true, black_long: true }
    );
    assert_eq!(g.to_fen(), START);
    assert_eq!(g.rep_len(), 1);
    assert_eq!(g.rep_count(), 1);
    assert_eq!(g.ttable_len(), 0);
    assert_eq!(g.n_searched(), 0);
    assert_eq!(g.undo_len(), 0);
    assert!(!g.is_end_game());
    assert_eq!(g.last_move(), chess_engine::mgen::null_move());
}

#[test]
fn game_from_parts_keeps_what_it_is_given() {
    let board = Game::from_fen("4k3/8/8/8/8/8/8/4K2R b - -").unwrap().board();
    let rights = Castling { white_short: true, white_long: false, black_short: false, black_long: false };
    let g = Game::from_parts(board, false, rights, 7, MAX_COUNTER, mv("h2", "h1"));
    assert_eq!(g.to_fen(), "4k3/8/8/8/8/8/8/4K2R b K - 7 65535");
    assert_eq!(g.last_move(), mv("h2", "h1"));
    assert!(g.is_end_game());
}

#[test]
fn game_moves_count_and_write_themselves() {
    let mut g = Game::from_fen(START).unwrap();
    assert_eq!(g.make_move(mv("e2", "e4")), Ok(()));
    assert_eq!(g.to_fen(), "rnbqkbnr/pppppppp/8/8/4P3/8/PPPP1PPP/RNBQKBNR b KQkq e3 0 1");
    assert_eq!(g.make_move(mv("g8", "f6")), Ok(()));
    assert_eq!(g.to_fen(), "rnbqkb1r/pppppppp/5n2/8/4P3/8/PPPP1PPP/RNBQKBNR w KQkq - 1 2");
    assert_eq!(g.make_move(mv("f1", "c4")), Ok(()));
    assert_eq!(g.make_move(mv("f6", "e4")), Ok(()));
    assert_eq!(g.to_fen(), "rnbqkb1r/pppppppp/8/8/2B1n3/8/PPPP1PPP/RNBQK1NR w KQkq - 0 3");
    assert_eq!(g.make_move(mv("g1", "f3")), Ok(()));
    assert_eq!(g.make_move(mv("b8", "c6")), Ok(()));
    assert_eq!(g.make_move(Move::new(true, false, on("e1"), on("g1"))), Ok(()));
    assert_eq!(g.to_fen(), "r1bqkb1r/pppppppp/2n5/8/2B1n3/5N2/PPPP1PPP/RNBQ1RK1 b kq - 3 4");
    assert_eq!(g.half_moves(), 3);
    assert_eq!(g.full_moves(), 4);
    assert_eq!(g.undo_len(), 7);
    assert_eq!(g.last_move().to_text(), "e1g1");
}

#[test]
fn illegal_game_move_leaves_the_game() {
    let mut g = Game::from_fen(START).unwrap();
    let fen = g.to_fen();
    assert_eq!(g.make_move(mv("e2", "e5")), Err(GameError::IllegalMove));
    assert_eq!(g.make_move(mv("e7", "e5")), Err(GameError::IllegalMove));
    assert_eq!(g.make_move(mv("e1", "e2")), Err(GameError::IllegalMove));
    assert_eq!(g.make_move(Move::new(true, false, on("e1"), on("g1"))), Err(GameError::IllegalMove));
    assert_eq!(g.make_move(Move::new(false, true, on("e2"), on("d3"))), Err(GameError::IllegalMove));
    assert_eq!(g.to_fen(), fen);
    assert_eq!(g.undo_len(), 0);
    let mut pinned = Game::from_fen("4k3/8/8/8/8/4r3/4N3/4K3 w - -").unwrap();
    assert_eq!(pinned.make_move(mv("e2", "c3")), Err(GameError::IllegalMove));
    assert_eq!(pinned.make_move(mv("e2", "e3")), Err(GameError::IllegalMove));
    assert_eq!(pinned.make_move(mv("e1", "d1")), Ok(()));
}

#[test]
fn game_move_takes_its_value_from_the_generator() {
    let mut g = Game::from_fen("4k3/8/8/3q4/4P3/8/8/4K3 w - -").unwrap();
    let before = g.material();
    let m = mv("e4", "d5");
    assert_eq!(m.val, 0);
    assert_eq!(g.make_move(m), Ok(()));
    assert!(g.last_move().val > 400);
    assert!(g.material() > before + 400);
    assert_eq!(g.piece_at(on("d5")), Piece::Pawn(true));
}

#[test]
fn irreversible_move_restarts_the_repetition_counts() {
    let mut g = Game::from_fen("4k3/8/8/8/8/8/4P3/R3K3 w - -").unwrap();
    for (a, b) in [("a1", "a2"), ("e8", "e7"), ("a2", "a1"), ("e7", "e8")] {
        assert_eq!(g.make_move(mv(a, b)), Ok(()));
    }
    assert_eq!(g.rep_count(), 2);
    assert_eq!(g.rep_len(), 4);
    assert_eq!(g.half_moves(), 4);
    assert_eq!(g.make_move(mv("e2", "e3")), Ok(()));
    assert_eq!(g.rep_count(), 1);
    assert_eq!(g.rep_len(), 2);
    assert_eq!(g.half_moves(), 0);
    assert_eq!(g.make_move(mv("e8", "e7")), Ok(()));
    assert_eq!(g.rep_len(), 3);
    assert_eq!(g.half_moves(), 1);
}

#[test]
fn game_move_clears_the_table_but_for_the_position_left() {
    let mut g = Game::from_fen("4k3/8/8/8/8/8/4P3/R3K3 w - -").unwrap();
    let moves = g.legal_moves(None);
    g.score_moves(&moves, usize::MAX, 4, false);
    assert!(g.ttable_len() > 1);
    g.ttstore(9, 1, 0, 2, &moves[0]);
    let hash = g.hash();
    assert_eq!(g.make_move(mv("a1", "a2")), Ok(()));
    assert_eq!(g.ttable_len(), 1);
    assert!(g.ttable_get().is_none());
    g.backdate(&mv("a1", "a2"));
    assert_eq!(g.hash(), hash);
    assert_eq!(g.ttable_get().unwrap().depth, 9);
}

#[test]
fn end_game_begins_below_a_third_of_the_material() {
    let mut g = Game::from_fen("r3k3/8/8/8/8/8/4q3/R2QK3 w - -").unwrap();
    assert!(!g.is_end_game());
    let mut g2 = Game::from_fen("rnbqkbnr/pppppppp/8/8/8/8/PPPPPPPP/RNBQKBNR w - -").unwrap();
    assert!(!g2.is_end_game());
    assert_eq!(g2.make_move(mv("e2", "e4")), Ok(()));
    assert!(!g2.is_end_game());
    assert_eq!(g.make_move(mv("d1", "e2")), Ok(()));
    assert!(g.is_end_game());
    let b = g.board();
    assert_eq!(g.material(), chess_engine::val::material_in(&b, true));
}

#[test]
fn fifty_move_rule_counts_half_moves() {
    let g = Game::from_fen("4k3/8/8/8/8/8/8/R3K3 w - - 99 80").unwrap();
    assert!(!g.check_50_move_rule());
    let mut g = g;
    assert_eq!(g.make_move(mv("a1", "a2")), Ok(()));
    assert!(g.check_50_move_rule());
    assert_eq!(g.half_moves(), 100);
    assert_eq!(g.full_moves(), 80);
    assert_eq!(g.make_move(mv("e8", "e7")), Ok(()));
    assert_eq!(g.full_moves(), 81);
}

#[test]
fn repetition_counts_follow_the_moves() {
    let mut g = Game::from_fen("4k3/8/8/8/8/8/8/R3K3 w - -").unwrap();
    let line = [mv("a1", "a2"), mv("e8", "e7"), mv("a2", "a1"), mv("e7", "e8")];
    let mut counts = Vec::new();
    for _ in 0..2 {
        for m in line.iter() {
            g.update(m);
            counts.push(g.rep_count());
        }
    }
    assert_eq!(counts, vec![1, 1, 1, 2, 2, 2, 2, 3]);
    assert_eq!(g.rep_len(), 4);
    for _ in 0..2 {
        for m in line.iter().rev() {
            g.backdate(m);
        }
    }
    assert_eq!(g.rep_count(), 1);
    assert_eq!(g.rep_len(), 1);
    g.update(&line[0]);
    g.rep_clear();
    assert_eq!(g.rep_len(), 1);
    assert_eq!(g.rep_count(), 1);
}

#[test]
fn quiet_unless_a_pawn_is_about_to_promote() {
    let g = Game::from_fen("4k3/P7/8/8/8/8/p7/4K3 w - -").unwrap();
    assert!(!g.is_quiescent(&mv("a6", "a7")));
    assert!(!g.is_quiescent(&mv("a3", "a2")));
    assert!(g.is_quiescent(&mv("e7", "e8")));
    assert!(g.is_quiescent(&mv("a7", "a6")));
    let g = Game::from_fen("4k3/p7/8/8/8/8/P7/4K3 w - -").unwrap();
    assert!(g.is_quiescent(&mv("a6", "a7")));
    assert!(g.is_quiescent(&mv("a3", "a2")));
}

#[test]
fn legal_move_asks_for_the_king() {
    let mut g = Game::from_fen("4k3/8/8/8/8/4r3/4N3/4K3 w - -").unwrap();
    let fen = g.to_fen();
    assert!(!g.legal_move(&mv("e2", "c3")));
    assert!(g.legal_move(&mv("e1", "d1")));
    assert!(!g.legal_move(&mv("e1", "d2")) == false);
    assert_eq!(g.to_fen(), fen);
}

#[test]
fn moves_sort_stably_by_value() {
    let a = Move { data: 1, val: 5 };
    let b = Move { data: 2, val: -3 };
    let c = Move { data: 3, val: 5 };
    let d = Move { data: 4, val: 9 };
    assert_eq!(sort_moves(&vec![a, b, c, d], true), vec![d, a, c, b]);
    assert_eq!(sort_moves(&vec![a, b, c, d], false), vec![b, a, c, d]);
    assert_eq!(sort_moves(&vec![], true), vec![]);
    assert_eq!(sort_moves(&vec![a, b, a, d, b], true), vec![d, a, a, b, b]);
}

#[test]
fn count_of_generated_moves_grows_and_resets() {
    let mut g = Game::from_fen(START).unwrap();
    g.moves(None);
    g.moves(None);
    assert_eq!(g.n_searched(), 40);
    g.reset_searched();
    assert_eq!(g.n_searched(), 0);
}

#[test]
fn full_undo_log_refuses_game_moves_and_ends_the_search() {
    let mut g = Game::from_fen("4k3/8/8/8/8/8/8/R3K3 w - -").unwrap();
    let line = [mv("a1", "a2"), mv("e8", "e7"), mv("a2", "a1"), mv("e7", "e8")];
    for _ in 0..MAX_HISTORY / 4 {
        for m in line.iter() {
            g.update(m);
        }
    }
    assert_eq!(g.undo_len(), MAX_HISTORY);
    assert_eq!(g.rep_count(), MAX_HISTORY / 4 + 1);
    let fen = g.to_fen();
    assert_eq!(g.make_move(mv("a1", "a2")), Err(GameError::Overflow));
    assert_eq!(g.to_fen(), fen);
    let stand = g.eval(true);
    let last = mv("e7", "e8");
    assert_eq!(g.quiescence_fab(-10000, 10000, &last, false), stand);
    let ranked = g.score_moves(&[mv("a1", "a2"), mv("a1", "a3")], 1000, 4, true);
    assert_eq!(ranked, vec![(mv("a1", "a2"), 0), (mv("a1", "a3"), 0)]);
    assert!(g.trace().is_empty());
    g.backdate(&line[3]);
    assert_eq!(g.make_move(mv("e7", "e8")), Ok(()));
}

#[test]
fn moves_of_one_value_keep_the_order_of_their_squares() {
    let mut g = Game::from_fen("4k3/8/8/8/8/8/8/R3K3 w - -").unwrap();
    let v = g.moves(None);
    for w in v.windows(2) {
        assert!(w[0].val >= w[1].val);
        if w[0].val == w[1].val {
            assert!((w[0].frm(), w[0].to()) < (w[1].frm(), w[1].to()));
        }
    }
    let legal = g.legal_moves(None);
    assert_eq!(legal, v);
    assert_eq!(g.n_searched(), 2 * v.len());
}
