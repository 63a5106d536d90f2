use chess_engine::game::{MAX_HISTORY, MAX_PLY};
use chess_engine::search::{move_to_head, probe, sort_scored, Probe};
use chess_engine::{BType, Game, Move, TTable, INFINITE};

fn square(name: &str) -> usize {
    let b = name.as_bytes();
    (7 - (b[0] - b'a') as usize) * 8 + (b[1] - b'1') as usize
}

fn best(fen: &str, depth: usize) -> (Move, i16, Game) {
    let mut g = Game::from_fen(fen).unwrap();
    let moves = g.legal_moves(None);
    let ranked = g.score_moves(&moves, usize::MAX, depth, false);
    assert_eq!(ranked.len(), moves.len());
    assert!(ranked.windows(2).all(|w| w[0].1 >= w[1].1));
    (ranked[0].0, ranked[0].1, g)
}

#[test]
fn start_position_is_searched_to_depth_four() {
    let fen = "rnbqkbnr/pppppppp/8/8/8/8/PPPPPPPP/RNBQKBNR w KQkq - 0 1";
    let (m, score, g) = best(fen, 4);
    assert!(score.abs() < INFINITE - 100);
    assert!(g.n_searched() > 0);
    assert!(g.ttable_len() > 0);
    assert_eq!(g.to_fen(), fen);
    assert_eq!(m.val, Game::from_fen(fen).unwrap().legal_moves(None).iter().find(|x| x.data == m.data).unwrap().val);
}

#[test]
fn mate_in_one_is_found_at_depth_two() {
    let (m, score, _) = best("6k1/5ppp/8/8/8/8/5PPP/R5K1 w - -", 2);
    assert_eq!(m.to_text(), "a1a8");
    assert!(score >= INFINITE - 2);
}

#[test]
fn bratko_kopec_one() {
    let (m, score, _) = best("1k1r4/pp1b1R2/3q2pp/4p3/2B5/4Q3/PPP2B2/2K5 b - -", 6);
    assert_eq!(m.to_text(), "d6d1");
    assert!(score >= INFINITE - 6);
}

#[test]
fn kaufman_one() {
    // Depth 6 is as deep as the time of a test allows; depth 8 takes minutes.
    let (m, _, _) = best("1rbq1rk1/p1b1nppp/1p2p3/8/1B1pN3/P2B4/1P3PPP/2RQ1R1K w - -", 6);
    assert_eq!(m.to_text(), "e4f6");
}

#[test]
fn lasker_pawn_endgame() {
    let (m, _, g) = best("8/k7/3p4/p2P1p2/P2P1P2/8/8/K7 w - -", 18);
    assert_eq!(m.to_text(), "a1b1");
    assert!(g.ttable_len() > 1000);
}

#[test]
fn stalemate_scores_zero() {
    let mut g = Game::from_fen("7k/5Q2/6K1/8/8/8/8/8 b - -").unwrap();
    assert!(g.legal_moves(None).is_empty());
    assert!(!g.in_check(false));
    let last = Move::new(false, false, square("f6"), square("f7"));
    assert_eq!(g.pvs(3, 1, -INFINITE, INFINITE, &last), 0);
    assert!(g.score_moves(&[], 1000, 4, false).is_empty());
}

#[test]
fn mate_scores_by_ply() {
    let mut g = Game::from_fen("R5k1/5ppp/8/8/8/8/5PPP/6K1 b - -").unwrap();
    assert!(g.in_check(false));
    assert!(g.legal_moves(None).is_empty());
    let last = Move::new(false, false, square("a1"), square("a8"));
    assert_eq!(g.pvs(2, 1, -INFINITE, INFINITE, &last), -INFINITE + 1);
    assert_eq!(g.pvs(2, 7, -INFINITE, INFINITE, &last), -INFINITE + 7);
}

#[test]
fn repeated_position_scores_zero() {
    let mut g = Game::from_fen("4k3/8/8/8/8/8/8/R3K3 w - -").unwrap();
    let out = Move::new(false, false, square("a1"), square("a2"));
    let back = Move::new(false, false, square("a2"), square("a1"));
    let kout = Move::new(false, false, square("e8"), square("e7"));
    let kback = Move::new(false, false, square("e7"), square("e8"));
    g.update(&out);
    g.update(&kout);
    g.update(&back);
    g.update(&kback);
    assert_eq!(g.rep_count(), 2);
    let searched = g.n_searched();
    assert_eq!(g.pvs(4, 1, -INFINITE, INFINITE, &kback), 0);
    assert_eq!(g.n_searched(), searched);
    assert_eq!(g.ttable_len(), 0);
    g.backdate(&kback);
    assert_eq!(g.rep_count(), 1);
    g.backdate(&back);
    g.backdate(&kout);
    g.backdate(&out);
    assert_eq!(g.rep_count(), 1);
    assert_eq!(g.rep_len(), 1);
}

#[test]
fn quiescence_stands_pat_without_captures() {
    let mut g = Game::from_fen("4k3/8/8/8/8/8/4P3/4K3 w - -").unwrap();
    let last = Move::new(false, false, square("e7"), square("e8"));
    let e = g.eval(true);
    assert_eq!(g.quiescence_fab(-INFINITE, INFINITE, &last, false), e);
    assert_eq!(g.pvs(0, 1, -INFINITE, INFINITE, &last), e);
}

#[test]
fn quiescence_takes_a_hanging_queen() {
    let mut g = Game::from_fen("4k3/8/8/3q4/4P3/8/8/4K3 w - -").unwrap();
    let last = Move::new(false, false, square("d8"), square("d5"));
    let quiet = g.eval(true);
    let score = g.quiescence_fab(-INFINITE, INFINITE, &last, false);
    assert!(score > quiet + 300);
    assert_eq!(g.undo_len(), 0);
}

#[test]
fn without_depth_every_move_scores_zero() {
    let mut g = Game::from_fen("4k3/8/8/8/8/8/4P3/4K3 w - -").unwrap();
    let moves = g.legal_moves(None);
    let ranked = g.score_moves(&moves, 1000, 1, false);
    assert_eq!(ranked.len(), moves.len());
    for (i, (m, score)) in ranked.iter().enumerate() {
        assert_eq!(*m, moves[i]);
        assert_eq!(*score, 0);
    }
}

#[test]
fn verbose_search_reports_each_depth() {
    let mut g = Game::from_fen("4k3/8/8/8/8/8/4P3/4K3 w - -").unwrap();
    let moves = g.legal_moves(None);
    let ranked = g.score_moves(&moves, usize::MAX, 4, true);
    let trace = g.trace();
    assert_eq!(trace.len(), 3);
    assert_eq!(trace[0].depth, 2);
    assert_eq!(trace[2].depth, 4);
    assert_eq!(trace[2].best, ranked[0].0);
    assert_eq!(trace[2].score, ranked[0].1);
    assert_eq!(trace[2].n_searched, g.n_searched());
    g.score_moves(&moves, usize::MAX, 2, false);
    assert!(g.trace().is_empty());
}

#[test]
fn node_budget_ends_the_deepening_after_depth_two() {
    let mut g = Game::from_fen("rnbqkbnr/pppppppp/8/8/8/8/PPPPPPPP/RNBQKBNR w KQkq - 0 1").unwrap();
    let moves = g.legal_moves(None);
    g.score_moves(&moves, 0, 6, true);
    let trace = g.trace();
    assert_eq!(trace.len(), 1);
    assert_eq!(trace[0].depth, 2);
}

#[test]
fn table_entry_answers_or_narrows() {
    let m = Move::new(false, false, 1, 2);
    let exact = TTable { depth: 4, score: 30, m, bound: BType::Exact };
    assert_eq!(probe(&exact, 4, -100, 100), Probe::Cut(30));
    assert_eq!(probe(&exact, 5, -100, 100), Probe::Window(-100, 100));
    let lower = TTable { depth: 4, score: 30, m, bound: BType::Lower };
    assert_eq!(probe(&lower, 3, -100, 100), Probe::Window(30, 100));
    assert_eq!(probe(&lower, 3, 50, 100), Probe::Window(50, 100));
    assert_eq!(probe(&lower, 3, -100, 30), Probe::Cut(30));
    let upper = TTable { depth: 4, score: 30, m, bound: BType::Upper };
    assert_eq!(probe(&upper, 3, -100, 100), Probe::Window(-100, 30));
    assert_eq!(probe(&upper, 3, -100, 10), Probe::Window(-100, 10));
    assert_eq!(probe(&upper, 3, 30, 100), Probe::Cut(30));
}

#[test]
fn table_keeps_the_deeper_entry() {
    let mut g = Game::from_fen("4k3/8/8/8/8/8/4P3/4K3 w - -").unwrap();
    let m = Move::new(false, false, square("e2"), square("e4"));
    let n = Move::new(false, false, square("e2"), square("e3"));
    assert!(g.ttable_get().is_none());
    g.ttstore(3, 50, 0, 100, &m);
    let e = g.ttable_get().unwrap();
    assert_eq!((e.depth, e.score, e.m, e.bound), (3, 50, m, BType::Exact));
    g.ttstore(3, 10, 0, 100, &n);
    assert_eq!(g.ttable_get().unwrap().m, m);
    g.ttstore(2, 10, 0, 100, &n);
    assert_eq!(g.ttable_get().unwrap().m, m);
    g.ttstore(4, 100, 0, 100, &n);
    let e = g.ttable_get().unwrap();
    assert_eq!((e.depth, e.score, e.m, e.bound), (4, 100, n, BType::Lower));
    g.ttstore(5, 0, 0, 100, &n);
    assert_eq!(g.ttable_get().unwrap().bound, BType::Upper);
    g.ttstore(6, -5, 0, 0, &n);
    assert_eq!(g.ttable_get().unwrap().bound, BType::Upper);
    assert_eq!(g.ttable_len(), 1);
}

#[test]
fn table_is_cleared_but_for_the_current_entry() {
    let mut g = Game::from_fen("4k3/8/8/8/8/8/4P3/4K3 w - -").unwrap();
    let m = Move::new(false, false, square("e2"), square("e4"));
    g.ttstore(3, 50, 0, 100, &m);
    g.update(&m);
    g.ttstore(2, -50, -100, 0, &m);
    assert_eq!(g.ttable_len(), 2);
    g.ttable_clear();
    assert_eq!(g.ttable_len(), 1);
    assert_eq!(g.ttable_get().unwrap().score, -50);
    g.backdate(&m);
    assert!(g.ttable_get().is_none());
    g.ttable_clear();
    assert_eq!(g.ttable_len(), 0);
}

#[test]
fn hint_move_comes_to_the_head() {
    let a = Move::new(false, false, 1, 2);
    let b = Move::new(false, false, 3, 4);
    let c = Move { data: Move::new(false, false, 5, 6).data, val: 7 };
    let d = Move::new(false, false, 5, 6);
    let mut v = vec![a, b, c, d];
    move_to_head(&mut v, &Move::new(true, false, 5, 6));
    assert_eq!(v, vec![c, a, b, d]);
    move_to_head(&mut v, &c);
    assert_eq!(v, vec![c, a, b, d]);
    move_to_head(&mut v, &Move::new(false, false, 9, 9));
    assert_eq!(v, vec![c, a, b, d]);
    move_to_head(&mut v, &d);
    assert_eq!(v, vec![c, a, b, d]);
    move_to_head(&mut v, &b);
    assert_eq!(v, vec![b, c, a, d]);
}

#[test]
fn scored_moves_are_sorted_stably() {
    let a = Move::new(false, false, 1, 2);
    let b = Move::new(false, false, 3, 4);
    let c = Move::new(false, false, 5, 6);
    let d = Move::new(false, false, 7, 8);
    let v = vec![(a, 1), (b, 5), (c, 1), (d, 9)];
    assert_eq!(sort_scored(&v), vec![(d, 9), (b, 5), (a, 1), (c, 1)]);
}

#[test]
fn limits_leave_room_for_mate_scores() {
    assert!((MAX_PLY as i16) < INFINITE - chess_engine::game::EVAL_LIMIT);
    assert!(MAX_HISTORY > MAX_PLY + 64);
}

#[test]
fn forced_quiescence_tries_every_move_to_the_square_of_the_last_move() {
    let mut g = Game::from_fen("4k3/8/8/8/8/8/4P3/4K3 w - -").unwrap();
    // The square of the last move is empty: the pawn's step to it is tried, and nothing after.
    let last = Move::new(false, false, square("e7"), square("e3"));
    let step = *g.legal_moves(None).iter().find(|m| m.to() == square("e3")).unwrap();
    g.update(&step);
    let after = g.eval(true);
    g.backdate(&step);
    assert_ne!(after, g.eval(true));
    assert_eq!(g.quiescence_fab(-INFINITE, INFINITE, &last, true), after);
    // Without the force only captures are tried, and there is none.
    assert_eq!(g.quiescence_fab(-INFINITE, INFINITE, &last, false), g.eval(true));
    assert_eq!(g.undo_len(), 0);
}

#[test]
fn a_game_read_from_its_notation_is_fresh() {
    let g = Game::from_fen("rnbqkbnr/pppppppp/8/8/4P3/8/PPPP1PPP/RNBQKBNR b KQkq e3 0 1").unwrap();
    assert_eq!(g.ttable_len(), 0);
    assert_eq!(g.n_searched(), 0);
    assert!(g.trace().is_empty());
    assert!(!g.is_end_game());
    assert_eq!(g.rep_len(), 1);
    assert_eq!(g.rep_count(), 1);
    assert_eq!(g.undo_len(), 0);
    assert_eq!(g.last_move(), Move::new(false, false, square("e2"), square("e4")));
    let g = Game::from_fen("4k3/8/8/8/8/8/8/4K2R w K -").unwrap();
    assert!(g.is_end_game());
    assert_eq!(g.last_move(), chess_engine::mgen::null_move());
}
