//! Principal-variation search with quiescence, transposition table and iterative deepening.

use vstd::prelude::*;
use vstd::seq_lib::{to_multiset_build, to_multiset_insert};
use crate::game::{
    board_after, bound_of, count_more, legal_in, lemma_pseudo_legal_admits,
    lemma_update_backdate, pseudo_legal_in, rep_of, spec_eval, spec_moves, table_after, BType,
    Game, Position, Progress, TTable, MAX_HISTORY, MAX_PLY,
};
use crate::mgen::{lemma_move_range, spec_in_check, Move};
use crate::val::{
    lemma_board_sum_update, lemma_material_bounds, occupied_fn, piece_count, Piece,
};
use crate::INFINITE;

verus! {

/// Whether `alpha` and `beta` can be the bounds of a search window: each may lie one beyond the
/// range of the scores, `alpha` below it and `beta` above.
pub open spec fn window_ok(alpha: i16, beta: i16) -> bool {
    -INFINITE - 1 <= alpha <= INFINITE && -INFINITE <= beta <= INFINITE + 1
}

/// Whether a score lies within the range of all scores.
pub open spec fn score_ok(score: i16) -> bool {
    -INFINITE <= score <= INFINITE
}

pub open spec fn spec_max(a: i16, b: i16) -> i16 {
    if a >= b {
        a
    } else {
        b
    }
}

pub open spec fn spec_min(a: i16, b: i16) -> i16 {
    if a <= b {
        a
    } else {
        b
    }
}

fn max16(a: i16, b: i16) -> (r: i16)
    ensures
        r == spec_max(a, b),
{
    if a >= b {
        a
    } else {
        b
    }
}

fn min16(a: i16, b: i16) -> (r: i16)
    ensures
        r == spec_min(a, b),
{
    if a <= b {
        a
    } else {
        b
    }
}

/// What a table entry says to a search of `depth` with the window from `alpha` to `beta`.
#[derive(Clone, Copy, Debug, PartialEq, Eq, Structural)]
pub enum Probe {
    /// The search is answered by this score.
    Cut(i16),
    /// The search goes on with this window.
    Window(i16, i16),
}

/// What the entry `e` says to a search of `depth` with the window from `alpha` to `beta`. An
/// entry searched less deep says nothing. An exact entry answers the search; a lower bound
/// raises `alpha` and an upper bound lowers `beta`, and where the two then meet the entry
/// answers the search too.
pub open spec fn spec_probe(e: TTable, depth: usize, alpha: i16, beta: i16) -> Probe {
    if e.depth < depth {
        Probe::Window(alpha, beta)
    } else {
        match e.bound {
            BType::Exact => Probe::Cut(e.score),
            BType::Lower => if spec_max(alpha, e.score) >= beta {
                Probe::Cut(e.score)
            } else {
                Probe::Window(spec_max(alpha, e.score), beta)
            },
            BType::Upper => if alpha >= spec_min(beta, e.score) {
                Probe::Cut(e.score)
            } else {
                Probe::Window(alpha, spec_min(beta, e.score))
            },
        }
    }
}

/// What the entry `e` says to a search of `depth` with the window from `alpha` to `beta`.
pub fn probe(e: &TTable, depth: usize, alpha: i16, beta: i16) -> (r: Probe)
    ensures
        r == spec_probe(*e, depth, alpha, beta),
{
    if e.depth < depth {
        return Probe::Window(alpha, beta);
    }
    let mut a = alpha;
    let mut b = beta;
    match e.bound {
        BType::Exact => { return Probe::Cut(e.score); },
        BType::Lower => { a = max16(alpha, e.score); },
        BType::Upper => { b = min16(beta, e.score); },
    }
    if a >= b {
        Probe::Cut(e.score)
    } else {
        Probe::Window(a, b)
    }
}

/// Whether two moves have the same origin and the same destination.
pub open spec fn same_squares(a: Move, b: Move) -> bool {
    a.spec_frm() == b.spec_frm() && a.spec_to() == b.spec_to()
}

/// Index of the first move among the first `n` of `s` with the squares of `k`; -1 if there is
/// none.
pub open spec fn first_match(s: Seq<Move>, k: Move, n: int) -> int
    decreases n,
{
    if n <= 0 {
        -1
    } else if first_match(s, k, n - 1) >= 0 {
        first_match(s, k, n - 1)
    } else if same_squares(s[n - 1], k) {
        n - 1
    } else {
        -1
    }
}

/// The list with the first move that has the squares of `k` brought to the head, the others in
/// their order; the list itself where no move has them.
pub open spec fn headed(s: Seq<Move>, k: Move) -> Seq<Move> {
    let q = first_match(s, k, s.len() as int);
    if q <= 0 {
        s
    } else {
        s.remove(q).insert(0, s[q])
    }
}

/// The first match lies within the part that was looked at.
pub proof fn lemma_first_match(s: Seq<Move>, k: Move, n: int)
    requires
        0 <= n <= s.len(),
    ensures
        -1 <= first_match(s, k, n) < n,
        first_match(s, k, n) >= 0 ==> same_squares(s[first_match(s, k, n)], k),
    decreases n,
{
    if n > 0 {
        lemma_first_match(s, k, n - 1);
    }
}

/// A list with a move brought to the head holds the moves that it held.
pub proof fn lemma_headed(s: Seq<Move>, k: Move)
    ensures
        headed(s, k).len() == s.len(),
        forall|m: Move| #[trigger] headed(s, k).contains(m) <==> s.contains(m),
{
    let q = first_match(s, k, s.len() as int);
    lemma_first_match(s, k, s.len() as int);
    if q > 0 {
        let r = s.remove(q);
        let t = r.insert(0, s[q]);
        assert forall|m: Move| #[trigger] t.contains(m) <==> s.contains(m) by {
            if t.contains(m) {
                let i = choose|i: int| 0 <= i < t.len() && t[i] == m;
                if i == 0 {
                    assert(s[q] == m);
                } else if i - 1 < q {
                    assert(s[i - 1] == m);
                } else {
                    assert(s[i] == m);
                }
            }
            if s.contains(m) {
                let i = choose|i: int| 0 <= i < s.len() && s[i] == m;
                if i == q {
                    assert(t[0] == m);
                } else if i < q {
                    assert(t[i + 1] == m);
                } else {
                    assert(t[i] == m);
                }
            }
        }
    }
}

/// Brings the first move that has the squares of `k` to the head of the list.
pub fn move_to_head(moves: &mut Vec<Move>, k: &Move)
    ensures
        final(moves)@ == headed(old(moves)@, *k),
{
    let mut q: usize = 0;
    while q < moves.len()
        invariant
            q <= moves.len(),
            moves@ == old(moves)@,
            first_match(moves@, *k, q as int) == -1,
        decreases moves.len() - q,
    {
        if moves[q].frm() == k.frm() && moves[q].to() == k.to() {
            proof {
                assert(first_match(moves@, *k, q as int + 1) == q);
                lemma_match_stays(moves@, *k, q as int + 1, moves@.len() as int);
            }
            if q != 0 {
                let m = moves.remove(q);
                moves.insert(0, m);
            }
            return ;
        }
        q = q + 1;
    }
}

/// A match that was found stays the first when more of the list is looked at.
pub proof fn lemma_match_stays(s: Seq<Move>, k: Move, n: int, len: int)
    requires
        0 <= n <= len,
        first_match(s, k, n) >= 0,
    ensures
        first_match(s, k, len) == first_match(s, k, n),
    decreases len - n,
{
    if n < len {
        lemma_match_stays(s, k, n, len - 1);
    }
}

/// A move that takes a piece leaves one piece less on the board and any other move as many as
/// there were; the square that a move goes to is occupied after it.
pub proof fn lemma_piece_count(pos: Position, m: Move)
    requires
        pos.board.len() == 64,
        pos.admits(m),
    ensures
        piece_count(board_after(pos.board, pos.colour, m)) == piece_count(pos.board) - if takes(
            pos,
            m,
        ) {
            1int
        } else {
            0int
        },
        piece_count(board_after(pos.board, pos.colour, m)) >= 0,
        board_after(pos.board, pos.colour, m)[m.spec_to()] != Piece::Nil,
{
    lemma_move_range(m);
    let frm = m.spec_frm();
    let to = m.spec_to();
    let p = pos.board[frm];
    let f = occupied_fn();
    lemma_material_bounds(board_after(pos.board, pos.colour, m), false, 64);
    if m.spec_castle() {
        crate::game::lemma_castle(pos, m);
        let x = crate::game::rook_from_of(m);
        let y = crate::game::rook_to_of(m);
        let b1 = pos.board.update(y, pos.board[x]);
        let b2 = b1.update(x, Piece::Nil);
        let b3 = b2.update(to, p);
        lemma_board_sum_update(pos.board, f, 64, y, pos.board[x]);
        lemma_board_sum_update(b1, f, 64, x, Piece::Nil);
        lemma_board_sum_update(b2, f, 64, to, p);
        lemma_board_sum_update(b3, f, 64, frm, Piece::Nil);
    } else if m.spec_en_passant() {
        let x = crate::game::ep_victim(m);
        let b1 = pos.board.update(x, Piece::Nil);
        let b2 = b1.update(to, p);
        lemma_board_sum_update(pos.board, f, 64, x, Piece::Nil);
        lemma_board_sum_update(b1, f, 64, to, p);
        lemma_board_sum_update(b2, f, 64, frm, Piece::Nil);
    } else if m.spec_transform() {
        let q = m.spec_ptransform(pos.colour);
        let b1 = pos.board.update(to, q);
        lemma_board_sum_update(pos.board, f, 64, to, q);
        lemma_board_sum_update(b1, f, 64, frm, Piece::Nil);
        assert(q != Piece::Nil);
    } else {
        let b1 = pos.board.update(to, p);
        lemma_board_sum_update(pos.board, f, 64, to, p);
        lemma_board_sum_update(b1, f, 64, frm, Piece::Nil);
    }
}

/// Whether the move `m` takes a piece: a capture en passant or a move to an occupied square.
pub open spec fn takes(pos: Position, m: Move) -> bool {
    m.spec_en_passant() || pos.board[m.spec_to()] != Piece::Nil
}

/// Whether the quiescence search tries the move `m` after the move `last`: a move that takes
/// a piece, or after a capture (`forced`) any move to the square where `last` ended.
pub open spec fn loud(pos: Position, last: Move, forced: bool, m: Move) -> bool {
    if forced {
        m.spec_to() == last.spec_to()
    } else {
        takes(pos, m)
    }
}

/// What grows less with every move that the quiescence search makes: twice the number of
/// pieces, and one more where the next moves go to the empty square of `last`.
pub open spec fn quiet_rank(pos: Position, last: Move, forced: bool) -> int {
    2 * piece_count(pos.board) + if forced && pos.board[last.spec_to()] == Piece::Nil {
        1int
    } else {
        0int
    }
}

/// A move that the quiescence search tries leads to a position of lower rank.
pub proof fn lemma_quiet_rank(pos: Position, last: Move, forced: bool, m: Move)
    requires
        pos.board.len() == 64,
        pos.admits(m),
        loud(pos, last, forced, m),
    ensures
        0 <= quiet_rank(pos.after(m), m, true) < quiet_rank(pos, last, forced),
{
    lemma_piece_count(pos, m);
}

/// The score of the quiescence search of `pos` and the count of the moves generated after it:
/// the static evaluation where the undo log is full, else what the search finds among the
/// pseudo-legal moves in their order.
pub open spec fn spec_quiesce(
    pos: Position,
    searched: usize,
    alp: i16,
    beta: i16,
    last: Move,
    rfab: bool,
) -> (i16, usize)
    decreases quiet_rank(pos, last, rfab), 1int, 0int,
{
    if pos.undo.len() >= MAX_HISTORY {
        (spec_eval(pos, pos.colour) as i16, searched)
    } else {
        let ms = spec_moves(pos, last);
        quiesce_from(
            pos,
            count_more(searched, ms.len() as int),
            ms,
            0,
            None,
            alp,
            beta,
            last,
            rfab,
        )
    }
}

/// The quiescence search of `pos` from move number `i` of the list `ms` on, with the best score
/// `best` that the moves before got, if any was legal, and the lower bound `alpha` that they
/// left. A loud move that is legal is searched with the window negated; a score that is
/// better than the best so far ends the search where it reaches `beta` and else becomes the
/// best and raises `alpha`. Without a best score at the end the score is the static
/// evaluation.
pub open spec fn quiesce_from(
    pos: Position,
    searched: usize,
    ms: Seq<Move>,
    i: int,
    best: Option<i16>,
    alpha: i16,
    beta: i16,
    last: Move,
    rfab: bool,
) -> (i16, usize)
    decreases quiet_rank(pos, last, rfab), 0int, ms.len() - i,
{
    if i >= ms.len() || i < 0 {
        (
            match best {
                Some(b) => b,
                None => spec_eval(pos, pos.colour) as i16,
            },
            searched,
        )
    } else {
        let m = ms[i];
        let next = pos.after(m);
        if loud(pos, last, rfab, m) && 0 <= quiet_rank(next, m, true) < quiet_rank(
            pos,
            last,
            rfab,
        ) && !spec_in_check(next.board, pos.colour) {
            let sub = spec_quiesce(next, searched, (-beta) as i16, (-alpha) as i16, m, true);
            let score = (-sub.0) as i16;
            if best is None || score > best->0 {
                if score >= beta {
                    (score, sub.1)
                } else {
                    quiesce_from(
                        pos,
                        sub.1,
                        ms,
                        i + 1,
                        Some(score),
                        spec_max(alpha, score),
                        beta,
                        last,
                        rfab,
                    )
                }
            } else {
                quiesce_from(pos, sub.1, ms, i + 1, best, alpha, beta, last, rfab)
            }
        } else {
            quiesce_from(pos, searched, ms, i + 1, best, alpha, beta, last, rfab)
        }
    }
}

impl Game {
    /// Quiescence search: the score of the position for the side to move when only captures
    /// are played on, within the window from `alp` to `beta`. After a capture (`rfab`) only
    /// the moves to the square of `last` are tried. Where none of the moves tried is legal the
    /// score is the static evaluation. The game is left as it was but for the count of the
    /// moves generated.
    pub fn quiescence_fab(&mut self, alp: i16, beta: i16, last: &Move, rfab: bool) -> (score: i16)
        requires
            old(self).wf(),
            window_ok(alp, beta),
        ensures
            final(self).wf(),
            final(self)@ == old(self)@,
            final(self).table() == old(self).table(),
            score_ok(score),
            (score, final(self).searched()) == spec_quiesce(
                old(self)@,
                old(self).searched(),
                alp,
                beta,
                *last,
                rfab,
            ),
            (forall|m: Move| #[trigger]
                legal_in(old(self)@, *last, m) ==> !loud(old(self)@, *last, rfab, m)) ==> score
                == spec_eval(old(self)@, old(self)@.colour),
        decreases quiet_rank(old(self)@, *last, rfab),
    {
        let colour = self.turn();
        if self.undo_len() >= MAX_HISTORY {
            return self.eval(colour);
        }
        let ghost pos = self@;
        let ghost goal = spec_quiesce(pos, self.searched(), alp, beta, *last, rfab);
        let mut best: Option<i16> = None;
        let ghost mut witness: Move = *last;
        let mut alpha = alp;
        let moves = self.moves(Some(last));
        proof {
            assert forall|k: int| 0 <= k < moves@.len() implies pseudo_legal_in(
                pos,
                *last,
                #[trigger] moves@[k],
            ) by {
                assert(moves@.contains(moves@[k]));
            }
        }
        let mut i: usize = 0;
        while i < moves.len()
            invariant
                i <= moves.len(),
                self.wf(),
                self@ == pos,
                pos == old(self)@,
                self.table() == old(self).table(),
                pos.undo.len() < MAX_HISTORY,
                colour == pos.colour,
                window_ok(alpha, beta),
                goal == spec_quiesce(pos, old(self).searched(), alp, beta, *last, rfab),
                goal == quiesce_from(
                    pos,
                    self.searched(),
                    moves@,
                    i as int,
                    best,
                    alpha,
                    beta,
                    *last,
                    rfab,
                ),
                forall|k: int|
                    0 <= k < moves@.len() ==> pseudo_legal_in(pos, *last, #[trigger] moves@[k]),
                match best {
                    Some(s) => score_ok(s) && legal_in(pos, *last, witness) && loud(
                        pos,
                        *last,
                        rfab,
                        witness,
                    ),
                    None => true,
                },
            decreases moves.len() - i,
        {
            let m = moves[i];
            let keep = if rfab {
                m.to() == last.to()
            } else {
                m.en_passant() || !self.piece_at(m.to()).is_nil()
            };
            if keep {
                proof {
                    lemma_pseudo_legal_admits(pos, spec_in_check(pos.board, pos.colour), *last, m);
                    lemma_update_backdate(pos, m);
                    lemma_quiet_rank(pos, *last, rfab, m);
                }
                self.update(&m);
                if !self.in_check(colour) {
                    assert(legal_in(pos, *last, m) && loud(pos, *last, rfab, m));
                    let score = -self.quiescence_fab(-beta, -alpha, &m, true);
                    let better = match best {
                        Some(bs) => score > bs,
                        None => true,
                    };
                    if better {
                        if score >= beta {
                            self.backdate(&m);
                            return score;
                        }
                        best = Some(score);
                        proof {
                            witness = m;
                        }
                        alpha = max16(alpha, score);
                    }
                }
                self.backdate(&m);
            }
            i = i + 1;
        }
        match best {
            Some(bs) => bs,
            None => self.eval(colour),
        }
    }
}

/// The depth to which a position is searched when `dpt` was asked for: one more where the side
/// to move is in check.
pub open spec fn extended(pos: Position, dpt: usize) -> usize {
    if spec_in_check(pos.board, pos.colour) && dpt < usize::MAX {
        (dpt + 1) as usize
    } else {
        dpt
    }
}

/// Whether the move `last` brought a pawn to the rank before its promotion.
pub open spec fn restless(pos: Position, last: Move) -> bool {
    pos.board[last.spec_to()] == Piece::Pawn(true) && last.spec_to() % 8 == 6
        || pos.board[last.spec_to()] == Piece::Pawn(false) && last.spec_to() % 8 == 1
}

/// Whether the table answers the search of the position, or narrows its window until it is
/// empty.
pub open spec fn cut_by_table(
    pos: Position,
    table: Map<u64, TTable>,
    dpt: usize,
    alp: i16,
    bet: i16,
) -> bool {
    table.contains_key(pos.hash) && spec_probe(table[pos.hash], extended(pos, dpt), alp, bet) is Cut
}

/// Whether a search of the position tries its moves: the position has not occurred before,
/// the table does not answer, ply and undo log leave room, and the search has depth left, be
/// it by an extension.
pub open spec fn tries_moves(
    pos: Position,
    table: Map<u64, TTable>,
    dpt: usize,
    ply: usize,
    alp: i16,
    bet: i16,
    last: Move,
) -> bool {
    &&& rep_of(pos.rep, pos.hash) < 2
    &&& !cut_by_table(pos, table, dpt, alp, bet)
    &&& ply < MAX_PLY
    &&& pos.undo.len() < MAX_HISTORY
    &&& (extended(pos, dpt) > 0 || restless(pos, last))
}

/// The score of a position without legal moves at `ply`: a mate, the worse the sooner, where
/// the side to move is in check, else a draw.
pub open spec fn end_score(pos: Position, ply: usize) -> int {
    if spec_in_check(pos.board, pos.colour) {
        -INFINITE + ply
    } else {
        0
    }
}

/// What a search found: the score, and the transposition table and the count of the moves
/// generated as the search left them.
pub struct Found {
    pub score: i16,
    pub table: Map<u64, TTable>,
    pub searched: usize,
}

/// What stays the same while the moves of a position are searched: the position, the list of
/// its moves, the depth, the ply, the window that was asked for, and its upper bound after
/// the table was read.
pub struct Node {
    pub pos: Position,
    pub ms: Seq<Move>,
    pub depth: usize,
    pub ply: usize,
    pub alp: i16,
    pub bet: i16,
    pub beta: i16,
}

/// What changes while the moves of a position are searched: the table, the count of the moves
/// generated, the lower bound of the window, the best score and the move that got it.
pub struct Run {
    pub table: Map<u64, TTable>,
    pub searched: usize,
    pub alpha: i16,
    pub bscore: i16,
    pub bmove: Option<Move>,
}

/// Plies that are left down to the deepest ply.
pub open spec fn plies_left(ply: usize) -> int {
    if ply < MAX_PLY {
        MAX_PLY - ply
    } else {
        0
    }
}

/// The entry that a search stores: its depth, score and best move, and the kind of bound that
/// the score is in the window that was asked for.
pub open spec fn entry_of(node: Node, score: i16, m: Move) -> TTable {
    TTable { depth: node.depth, score, m, bound: bound_of(score, node.alp, node.bet) }
}

/// What the principal-variation search of `pos` finds. A position that has occurred before
/// scores 0. A table entry may answer the search or narrow its window. At the deepest ply,
/// with a full undo log, or without depth after a quiet move the quiescence search gives the
/// score. Else the moves are searched in their order, the move of the table entry first.
pub open spec fn spec_pvs(
    pos: Position,
    table: Map<u64, TTable>,
    searched: usize,
    dpt: usize,
    ply: usize,
    alp: i16,
    bet: i16,
    last: Move,
) -> Found
    decreases plies_left(ply), 1int, 0int,
{
    let depth = extended(pos, dpt);
    let cut = table.contains_key(pos.hash) && spec_probe(table[pos.hash], depth, alp, bet) is Cut;
    if rep_of(pos.rep, pos.hash) >= 2 {
        Found { score: 0, table, searched }
    } else if cut {
        Found { score: spec_probe(table[pos.hash], depth, alp, bet)->Cut_0, table, searched }
    } else {
        let window = if table.contains_key(pos.hash) {
            spec_probe(table[pos.hash], depth, alp, bet)
        } else {
            Probe::Window(alp, bet)
        };
        let alpha = window->Window_0;
        let beta = window->Window_1;
        if ply >= MAX_PLY || pos.undo.len() >= MAX_HISTORY || (depth == 0 && !restless(pos, last)) {
            let q = spec_quiesce(pos, searched, alpha, beta, last, false);
            Found { score: q.0, table, searched: q.1 }
        } else {
            let listed = spec_moves(pos, last);
            let ms = if table.contains_key(pos.hash) {
                headed(listed, table[pos.hash].m)
            } else {
                listed
            };
            let node = Node {
                pos,
                ms,
                depth: if depth == 0 {
                    1
                } else {
                    depth
                },
                ply,
                alp,
                bet,
                beta,
            };
            let run = Run {
                table,
                searched: count_more(searched, listed.len() as int),
                alpha,
                bscore: (-INFINITE + ply) as i16,
                bmove: None,
            };
            pvs_from(node, run, 0)
        }
    }
}

/// The search of the moves of a position from move number `i` on. A move that leaves the own
/// king in check is passed over. The first legal move is searched with the full window, each
/// later one with a window of no width above the best score so far, and again with the full
/// window where its score lies within the window and the depth is more than two. After the
/// last move the best score is stored in the table; without a legal move the score is that of
/// a mate or of a draw.
pub open spec fn pvs_from(node: Node, run: Run, i: int) -> Found
    decreases plies_left(node.ply), 0int, 2 * (node.ms.len() - i),
{
    let pos = node.pos;
    if i >= node.ms.len() || i < 0 {
        match run.bmove {
            Some(best) => Found {
                score: run.bscore,
                table: table_after(run.table, pos.hash, entry_of(node, run.bscore, best)),
                searched: run.searched,
            },
            None => Found {
                score: if spec_in_check(pos.board, pos.colour) {
                    run.bscore
                } else {
                    0
                },
                table: run.table,
                searched: run.searched,
            },
        }
    } else {
        let m = node.ms[i];
        let next = pos.after(m);
        let down = (node.depth - 1) as usize;
        let up = (node.ply + 1) as usize;
        if spec_in_check(next.board, pos.colour) || node.ply >= MAX_PLY {
            pvs_from(node, run, i + 1)
        } else if run.bmove is None {
            let r = spec_pvs(
                next,
                run.table,
                run.searched,
                down,
                up,
                (-node.beta) as i16,
                (-run.alpha) as i16,
                m,
            );
            let score = (-r.score) as i16;
            pvs_next(
                node,
                Run {
                    table: r.table,
                    searched: r.searched,
                    alpha: spec_max(score, run.alpha),
                    bscore: score,
                    bmove: Some(m),
                },
                i,
            )
        } else {
            let floor = spec_max(run.bscore, run.alpha);
            let r = spec_pvs(
                next,
                run.table,
                run.searched,
                down,
                up,
                (-run.alpha - 1) as i16,
                (-floor) as i16,
                m,
            );
            let first = (-r.score) as i16;
            if first <= run.bscore {
                pvs_next(node, Run { table: r.table, searched: r.searched, ..run }, i)
            } else if first > floor && first < node.beta && node.depth > 2 {
                let again = spec_pvs(
                    next,
                    r.table,
                    r.searched,
                    down,
                    up,
                    (-node.beta) as i16,
                    (-first) as i16,
                    m,
                );
                let score = (-again.score) as i16;
                pvs_next(
                    node,
                    Run {
                        table: again.table,
                        searched: again.searched,
                        alpha: spec_max(score, run.alpha),
                        bscore: score,
                        bmove: Some(m),
                    },
                    i,
                )
            } else {
                pvs_next(
                    node,
                    Run {
                        table: r.table,
                        searched: r.searched,
                        alpha: spec_max(first, run.alpha),
                        bscore: first,
                        bmove: Some(m),
                    },
                    i,
                )
            }
        }
    }
}

/// The search after move number `i` was searched: a best score that reaches the upper bound of
/// the window ends the search and is stored in the table; else the next move is searched.
pub open spec fn pvs_next(node: Node, run: Run, i: int) -> Found
    decreases plies_left(node.ply), 0int, 2 * (node.ms.len() - i) - 1,
{
    if run.bmove is Some && run.bscore >= node.beta {
        Found {
            score: run.bscore,
            table: table_after(run.table, node.pos.hash, entry_of(node, run.bscore, run.bmove->0)),
            searched: run.searched,
        }
    } else if 0 <= i < node.ms.len() {
        pvs_from(node, run, i + 1)
    } else {
        Found { score: run.bscore, table: run.table, searched: run.searched }
    }
}

/// Whether `table` is a table to which the score of the position with the hash `key` was
/// offered as an entry, with the kind of bound that the score is in the window from `alp` to
/// `bet`.
pub open spec fn offered(table: Map<u64, TTable>, key: u64, score: i16, alp: i16, bet: i16) -> bool {
    exists|before: Map<u64, TTable>, e: TTable|
        table == #[trigger] table_after(before, key, e) && e.score == score && e.bound == bound_of(
            score,
            alp,
            bet,
        )
}

/// Fail high and fail low: a score that a search offers to the table as a lower bound reaches
/// the upper end of the window that the search was asked for, one that it offers as an upper
/// bound does not exceed the lower end, and one that it offers as exact lies strictly between
/// the two.
pub proof fn lemma_offered(table: Map<u64, TTable>, key: u64, score: i16, alp: i16, bet: i16)
    requires
        offered(table, key, score, alp, bet),
    ensures
        exists|before: Map<u64, TTable>, e: TTable|
            {
                &&& table == #[trigger] table_after(before, key, e)
                &&& e.score == score
                &&& e.bound == BType::Lower ==> score >= bet
                &&& e.bound == BType::Upper ==> score <= alp
                &&& e.bound == BType::Exact ==> alp < score < bet
            },
{
    let (before, e) = choose|before: Map<u64, TTable>, e: TTable|
        table == #[trigger] table_after(before, key, e) && e.score == score && e.bound == bound_of(
            score,
            alp,
            bet,
        );
    assert(table == table_after(before, key, e));
}

impl Game {
    /// What the game holds of the result of a search.
    pub open spec fn found(&self, score: i16) -> Found {
        Found { score, table: self.table(), searched: self.searched() }
    }

    /// Principal-variation search: the score of the position for the side to move, searched
    /// `dpt` plies deep at `ply` plies from the root with the window from `alp` to `bet`,
    /// after the move `last`. A position that has occurred before scores 0. The game is left
    /// as it was but for the transposition table and the count of the moves generated.
    pub fn pvs(&mut self, dpt: usize, ply: usize, alp: i16, bet: i16, last: &Move) -> (score: i16)
        requires
            old(self).wf(),
            window_ok(alp, bet),
        ensures
            final(self).wf(),
            final(self)@ == old(self)@,
            score_ok(score),
            final(self).found(score) == spec_pvs(
                old(self)@,
                old(self).table(),
                old(self).searched(),
                dpt,
                ply,
                alp,
                bet,
                *last,
            ),
            rep_of(old(self)@.rep, old(self)@.hash) >= 2 ==> score == 0 && final(self).table()
                == old(self).table() && final(self).searched() == old(self).searched(),
            tries_moves(old(self)@, old(self).table(), dpt, ply, alp, bet, *last) && (forall|
                m: Move,
            | !#[trigger] legal_in(old(self)@, *last, m)) ==> score == end_score(old(self)@, ply),
            tries_moves(old(self)@, old(self).table(), dpt, ply, alp, bet, *last) && (exists|
                m: Move,
            | #[trigger] legal_in(old(self)@, *last, m)) ==> offered(
                final(self).table(),
                old(self)@.hash,
                score,
                alp,
                bet,
            ),
        decreases plies_left(ply),
    {
        let ghost goal = spec_pvs(self@, self.table(), self.searched(), dpt, ply, alp, bet, *last);
        if self.rep_count() >= 2 {
            return 0;
        }
        let ghost pos = self@;
        let colour = self.turn();
        let in_check = self.in_check(colour);
        let mut depth: usize = if in_check && dpt < usize::MAX {
            dpt + 1
        } else {
            dpt
        };
        let mut alpha = alp;
        let mut beta = bet;
        let mut kmove: Option<Move> = None;
        match self.ttable_get() {
            Some(e) => {
                match probe(&e, depth, alpha, beta) {
                    Probe::Cut(score) => {
                        return score;
                    },
                    Probe::Window(a, b) => {
                        alpha = a;
                        beta = b;
                    },
                }
                kmove = Some(e.m);
            },
            None => {},
        }
        if ply >= MAX_PLY || self.undo_len() >= MAX_HISTORY {
            return self.quiescence_fab(alpha, beta, last, false);
        }
        if depth == 0 {
            if self.is_quiescent(last) {
                return self.quiescence_fab(alpha, beta, last, false);
            }
            depth = 1;
        }
        let mut moves = self.moves(Some(last));
        let ghost listed = moves@;
        match kmove {
            Some(k) => {
                move_to_head(&mut moves, &k);
                proof {
                    lemma_headed(listed, k);
                }
            },
            None => {},
        }
        proof {
            assert forall|k: int| 0 <= k < moves@.len() implies pseudo_legal_in(
                pos,
                *last,
                #[trigger] moves@[k],
            ) by {
                assert(moves@.contains(moves@[k]));
                assert(listed.contains(moves@[k]));
            }
            assert forall|m: Move| legal_in(pos, *last, m) implies #[trigger] moves@.contains(m) by {
                assert(listed.contains(m));
            }
        }
        let mut bscore: i16 = -INFINITE + ply as i16;
        let mut bmove: Option<Move> = None;
        let ghost node = Node { pos, ms: moves@, depth, ply, alp, bet, beta };
        let mut i: usize = 0;
        while i < moves.len()
            invariant
                i <= moves.len(),
                self.wf(),
                self@ == pos,
                pos == old(self)@,
                rep_of(pos.rep, pos.hash) < 2,
                pos.undo.len() < MAX_HISTORY,
                ply < MAX_PLY,
                depth >= 1,
                colour == pos.colour,
                in_check == spec_in_check(pos.board, pos.colour),
                window_ok(alpha, beta),
                window_ok(alp, bet),
                score_ok(bscore),
                node == (Node { pos, ms: moves@, depth, ply, alp, bet, beta }),
                goal == spec_pvs(
                    pos,
                    old(self).table(),
                    old(self).searched(),
                    dpt,
                    ply,
                    alp,
                    bet,
                    *last,
                ),
                goal == pvs_from(
                    node,
                    Run { table: self.table(), searched: self.searched(), alpha, bscore, bmove },
                    i as int,
                ),
                forall|k: int|
                    0 <= k < moves@.len() ==> pseudo_legal_in(pos, *last, #[trigger] moves@[k]),
                match bmove {
                    Some(m) => legal_in(pos, *last, m) && bscore < beta,
                    None => bscore == -INFINITE + ply && forall|k: int|
                        0 <= k < i ==> !legal_in(pos, *last, #[trigger] moves@[k]),
                },
            decreases moves.len() - i,
        {
            let m = moves[i];
            proof {
                lemma_pseudo_legal_admits(pos, spec_in_check(pos.board, pos.colour), *last, m);
                lemma_update_backdate(pos, m);
            }
            self.update(&m);
            if !self.in_check(colour) {
                assert(legal_in(pos, *last, m));
                if bmove.is_none() {
                    bscore = -self.pvs(depth - 1, ply + 1, -beta, -alpha, &m);
                    alpha = max16(bscore, alpha);
                    bmove = Some(m);
                } else {
                    let floor = max16(bscore, alpha);
                    let mut score = -self.pvs(depth - 1, ply + 1, -alpha - 1, -floor, &m);
                    if score > bscore {
                        if score > floor && score < beta && depth > 2 {
                            score = -self.pvs(depth - 1, ply + 1, -beta, -score, &m);
                        }
                        bscore = score;
                        alpha = max16(bscore, alpha);
                        bmove = Some(m);
                    }
                }
                self.backdate(&m);
                proof {
                    assert(goal == pvs_next(
                        node,
                        Run { table: self.table(), searched: self.searched(), alpha, bscore, bmove },
                        i as int,
                    ));
                }
                match bmove {
                    Some(best) => {
                        if bscore >= beta {
                            let ghost before = self.table();
                            self.ttstore(depth, bscore, alp, bet, &best);
                            proof {
                                let e = TTable {
                                    depth,
                                    score: bscore,
                                    m: best,
                                    bound: bound_of(bscore, alp, bet),
                                };
                                assert(self.table() == table_after(before, pos.hash, e));
                            }
                            return bscore;
                        }
                    },
                    None => {},
                }
            } else {
                self.backdate(&m);
            }
            i = i + 1;
        }
        match bmove {
            Some(best) => {
                let ghost before = self.table();
                self.ttstore(depth, bscore, alp, bet, &best);
                proof {
                    let e = TTable {
                        depth,
                        score: bscore,
                        m: best,
                        bound: bound_of(bscore, alp, bet),
                    };
                    assert(self.table() == table_after(before, pos.hash, e));
                }
                bscore
            },
            None => {
                proof {
                    assert forall|m: Move| !#[trigger] legal_in(pos, *last, m) by {
                        if legal_in(pos, *last, m) {
                            assert(moves@.contains(m));
                            let k = choose|k: int| 0 <= k < moves@.len() && moves@[k] == m;
                            assert(!legal_in(pos, *last, moves@[k]));
                        }
                    }
                }
                if in_check {
                    bscore
                } else {
                    0
                }
            },
        }
    }
}

/// The moves of a list of moves with their scores.
pub open spec fn moves_of(s: Seq<(Move, i16)>) -> Seq<Move> {
    s.map_values(|p: (Move, i16)| p.0)
}

/// Whether the scores fall from first to last.
pub open spec fn ranked(s: Seq<(Move, i16)>) -> bool {
    forall|i: int, j: int| 0 <= i < j < s.len() ==> (#[trigger] s[i]).1 >= (#[trigger] s[j]).1
}

/// Number of the first `n` scored moves of `s` whose score is at least `x`.
pub open spec fn count_at_least(s: Seq<(Move, i16)>, x: i16, n: int) -> int
    decreases n,
{
    if n <= 0 {
        0
    } else {
        count_at_least(s, x, n - 1) + if s[n - 1].1 >= x {
            1int
        } else {
            0int
        }
    }
}

/// The first `n` scored moves of `v` in the order of their scores: each in its turn is put
/// behind those whose score is at least its own.
pub open spec fn ranked_upto(v: Seq<(Move, i16)>, n: int) -> Seq<(Move, i16)>
    decreases n,
{
    if n <= 0 {
        Seq::<(Move, i16)>::empty()
    } else {
        let s = ranked_upto(v, n - 1);
        s.insert(count_at_least(s, v[n - 1].1, s.len() as int), v[n - 1])
    }
}

/// The scored moves of `v` in the order of their scores, from the highest down, moves of one
/// score in the order that they had.
pub open spec fn spec_sort_scored(v: Seq<(Move, i16)>) -> Seq<(Move, i16)> {
    ranked_upto(v, v.len() as int)
}

/// Where the scores that are at least `x` come first and are `j`, they are counted as `j`.
pub proof fn lemma_count_at_least(s: Seq<(Move, i16)>, x: i16, j: int, n: int)
    requires
        0 <= j <= s.len(),
        0 <= n <= s.len(),
        forall|k: int| 0 <= k < j ==> (#[trigger] s[k]).1 >= x,
        forall|k: int| j <= k < s.len() ==> (#[trigger] s[k]).1 < x,
    ensures
        count_at_least(s, x, n) == if n <= j {
            n
        } else {
            j
        },
    decreases n,
{
    if n > 0 {
        lemma_count_at_least(s, x, j, n - 1);
    }
}

/// The scored moves of `v` in the order of their scores, from the highest down. Moves of one
/// score keep the order that they had.
pub fn sort_scored(v: &Vec<(Move, i16)>) -> (out: Vec<(Move, i16)>)
    ensures
        out@.len() == v@.len(),
        out@.to_multiset() == v@.to_multiset(),
        moves_of(out@).to_multiset() == moves_of(v@).to_multiset(),
        ranked(out@),
        forall|k: int| 0 <= k < out@.len() ==> v@.contains(#[trigger] out@[k]),
        out@ == spec_sort_scored(v@),
{
    let mut out: Vec<(Move, i16)> = Vec::with_capacity(v.len());
    let mut i: usize = 0;
    proof {
        assert(v@.subrange(0, 0) =~= Seq::<(Move, i16)>::empty());
        assert(moves_of(v@.subrange(0, 0)) =~= moves_of(out@));
    }
    while i < v.len()
        invariant
            i <= v.len(),
            out@.len() == i,
            out@.to_multiset() == v@.subrange(0, i as int).to_multiset(),
            moves_of(out@).to_multiset() == moves_of(v@.subrange(0, i as int)).to_multiset(),
            ranked(out@),
            forall|k: int| 0 <= k < out@.len() ==> v@.contains(#[trigger] out@[k]),
            out@ == ranked_upto(v@, i as int),
        decreases v.len() - i,
    {
        let x = v[i];
        let mut j: usize = out.len();
        while j > 0 && out[j - 1].1 < x.1
            invariant
                j <= out.len(),
                ranked(out@),
                forall|k: int| j <= k < out.len() ==> (#[trigger] out@[k]).1 < x.1,
            decreases j,
        {
            j = j - 1;
        }
        let ghost before = out@;
        proof {
            assert forall|k: int| 0 <= k < j implies (#[trigger] before[k]).1 >= x.1 by {
                assert(before[k].1 >= before[j - 1].1);
            }
            lemma_count_at_least(before, x.1, j as int, before.len() as int);
        }
        out.insert(j, x);
        proof {
            let head = v@.subrange(0, i as int);
            let next = v@.subrange(0, i as int + 1);
            assert(next =~= head.push(x));
            to_multiset_build(head, x);
            to_multiset_insert(before, j as int, x);
            assert(moves_of(next) =~= moves_of(head).push(x.0));
            assert(moves_of(out@) =~= moves_of(before).insert(j as int, x.0));
            to_multiset_build(moves_of(head), x.0);
            to_multiset_insert(moves_of(before), j as int, x.0);
            assert forall|a: int, b: int| 0 <= a < b < out@.len() implies (#[trigger] out@[a]).1
                >= (#[trigger] out@[b]).1 by {
                let a0 = if a < j { a } else { a - 1 };
                let b0 = if b < j { b } else { b - 1 };
                if a == j {
                    assert(before[b0] == out@[b]);
                } else if b == j {
                    assert(before[a0] == out@[a]);
                } else {
                    assert(before[a0] == out@[a] && before[b0] == out@[b]);
                }
            }
            assert forall|k: int| 0 <= k < out@.len() implies v@.contains(#[trigger] out@[k]) by {
                if k < j {
                    assert(out@[k] == before[k]);
                } else if k == j {
                    assert(v@[i as int] == x);
                } else {
                    assert(out@[k] == before[k - 1]);
                }
            }
        }
        i = i + 1;
    }
    proof {
        assert(v@.subrange(0, v@.len() as int) =~= v@);
    }
    out
}

/// What the iterative deepening has found: the moves with their scores, the table, the count
/// of the moves generated, and what was found of each depth.
pub struct Ranked {
    pub pq: Seq<(Move, i16)>,
    pub table: Map<u64, TTable>,
    pub searched: usize,
    pub trace: Seq<Progress>,
}

/// The moves, each with the score 0.
pub open spec fn zero_scored(moves: Seq<Move>) -> Seq<(Move, i16)> {
    moves.map_values(|m: Move| (m, 0i16))
}

/// One depth of the iterative deepening from move number `i` of `pq0` on: each move is made
/// and the position after it searched `depth - 1` plies deep, the first move with the full
/// window, each later one with a window of no width above the best score so far and again
/// with the full window where its score exceeds that and the depth is more than two.
pub open spec fn depth_from(
    pos: Position,
    pq0: Seq<(Move, i16)>,
    depth: usize,
    i: int,
    run: Run,
    pq: Seq<(Move, i16)>,
) -> (Seq<(Move, i16)>, Run)
    decreases pq0.len() - i,
{
    if i >= pq0.len() || i < 0 {
        (pq, run)
    } else {
        let m = pq0[i].0;
        let next = pos.after(m);
        let down = (depth - 1) as usize;
        let alpha = spec_max(run.bscore, run.alpha);
        let r = if i == 0 {
            spec_pvs(next, run.table, run.searched, down, 1, (-INFINITE) as i16, (-alpha) as i16, m)
        } else {
            spec_pvs(
                next,
                run.table,
                run.searched,
                down,
                1,
                (-alpha - 1) as i16,
                (-alpha) as i16,
                m,
            )
        };
        let first = (-r.score) as i16;
        if first <= run.bscore {
            depth_from(
                pos,
                pq0,
                depth,
                i + 1,
                Run { table: r.table, searched: r.searched, alpha, ..run },
                pq.push((m, first)),
            )
        } else if first > alpha && first < INFINITE && depth > 2 {
            let again = spec_pvs(
                next,
                r.table,
                r.searched,
                down,
                1,
                (-INFINITE) as i16,
                (-first) as i16,
                m,
            );
            let score = (-again.score) as i16;
            depth_from(
                pos,
                pq0,
                depth,
                i + 1,
                Run { table: again.table, searched: again.searched, alpha, bscore: score, ..run },
                pq.push((m, score)),
            )
        } else {
            depth_from(
                pos,
                pq0,
                depth,
                i + 1,
                Run { table: r.table, searched: r.searched, alpha, bscore: first, ..run },
                pq.push((m, first)),
            )
        }
    }
}

/// The run with which a depth begins.
pub open spec fn first_run(table: Map<u64, TTable>, searched: usize) -> Run {
    Run { table, searched, alpha: (-INFINITE) as i16, bscore: (-INFINITE) as i16, bmove: None }
}

/// Whether a score is that of a forced mate within `depth` plies.
pub open spec fn mate_within(score: i16, depth: usize) -> bool {
    let limit = if depth < INFINITE {
        INFINITE - depth
    } else {
        0
    };
    score >= limit || score <= -limit
}

/// The iterative deepening from `depth` on. Beyond depth 2 it ends before a depth once more
/// than `max_searched` moves were generated; it ends after a depth that found a forced mate
/// and after the depth `max_depth`.
pub open spec fn deepen(
    pos: Position,
    r: Ranked,
    depth: usize,
    max_searched: usize,
    max_depth: usize,
) -> Ranked
    decreases max_depth - depth,
{
    if depth > 2 && r.searched > max_searched {
        r
    } else {
        let found = depth_from(pos, r.pq, depth, 0, first_run(r.table, r.searched), Seq::empty());
        let pq = spec_sort_scored(found.0);
        let next = Ranked {
            pq,
            table: found.1.table,
            searched: found.1.searched,
            trace: r.trace.push(
                Progress {
                    depth,
                    n_searched: found.1.searched,
                    best: pq[0].0,
                    score: pq[0].1,
                },
            ),
        };
        if mate_within(pq[0].1, depth) || depth >= max_depth {
            next
        } else {
            deepen(pos, next, (depth + 1) as usize, max_searched, max_depth)
        }
    }
}

/// What `score_moves` finds: without moves, without room in the undo log or without a depth
/// to search every move with the score 0 in the order given; else what the deepening finds
/// from depth 2 on. The count of the moves generated starts from 0.
pub open spec fn spec_score_moves(
    pos: Position,
    table: Map<u64, TTable>,
    moves: Seq<Move>,
    max_searched: usize,
    max_depth: usize,
) -> Ranked {
    let start = Ranked { pq: zero_scored(moves), table, searched: 0, trace: Seq::empty() };
    if moves.len() == 0 || pos.undo.len() >= MAX_HISTORY || max_depth < 2 {
        start
    } else {
        deepen(pos, start, 2, max_searched, max_depth)
    }
}

impl Game {
    /// One depth of the iterative deepening: every move of `pq0` in its order with its score
    /// from a search of `depth - 1` plies, the first with the full window and the others with
    /// a null window above the best score so far, followed by a full search where they exceed
    /// it.
    fn score_depth(&mut self, pq0: &Vec<(Move, i16)>, depth: usize) -> (pq: Vec<(Move, i16)>)
        requires
            old(self).wf(),
            old(self)@.undo.len() < MAX_HISTORY,
            depth >= 2,
            forall|k: int| 0 <= k < pq0@.len() ==> old(self)@.admits((#[trigger] pq0@[k]).0),
        ensures
            final(self).wf(),
            final(self)@ == old(self)@,
            pq@.len() == pq0@.len(),
            moves_of(pq@) == moves_of(pq0@),
            forall|k: int| 0 <= k < pq@.len() ==> score_ok((#[trigger] pq@[k]).1),
            (pq@, final(self).table(), final(self).searched()) == ({
                let found = depth_from(
                    old(self)@,
                    pq0@,
                    depth,
                    0,
                    first_run(old(self).table(), old(self).searched()),
                    Seq::empty(),
                );
                (found.0, found.1.table, found.1.searched)
            }),
    {
        let ghost pos = self@;
        let ghost goal = depth_from(
            pos,
            pq0@,
            depth,
            0,
            first_run(self.table(), self.searched()),
            Seq::empty(),
        );
        let mut pq: Vec<(Move, i16)> = Vec::with_capacity(pq0.len());
        let mut alpha: i16 = -INFINITE;
        let beta: i16 = INFINITE;
        let mut bscore: i16 = alpha;
        let mut i: usize = 0;
        while i < pq0.len()
            invariant
                i <= pq0.len(),
                self.wf(),
                self@ == pos,
                pos.undo.len() < MAX_HISTORY,
                depth >= 2,
                beta == INFINITE,
                score_ok(alpha),
                score_ok(bscore),
                forall|k: int| 0 <= k < pq0@.len() ==> pos.admits((#[trigger] pq0@[k]).0),
                pq@.len() == i,
                moves_of(pq@) == moves_of(pq0@.subrange(0, i as int)),
                forall|k: int| 0 <= k < pq@.len() ==> score_ok((#[trigger] pq@[k]).1),
                goal == depth_from(
                    pos,
                    pq0@,
                    depth,
                    i as int,
                    Run {
                        table: self.table(),
                        searched: self.searched(),
                        alpha,
                        bscore,
                        bmove: None,
                    },
                    pq@,
                ),
            decreases pq0.len() - i,
        {
            let m = pq0[i].0;
            proof {
                lemma_update_backdate(pos, m);
            }
            self.update(&m);
            alpha = max16(bscore, alpha);
            let mut score: i16 = if i == 0 {
                -self.pvs(depth - 1, 1, -beta, -alpha, &m)
            } else {
                -self.pvs(depth - 1, 1, -alpha - 1, -alpha, &m)
            };
            if score > bscore {
                if score > alpha && score < beta && depth > 2 {
                    score = -self.pvs(depth - 1, 1, -beta, -score, &m);
                }
                bscore = score;
            }
            self.backdate(&m);
            let ghost before = pq@;
            pq.push((m, score));
            proof {
                assert(pq0@.subrange(0, i as int + 1) =~= pq0@.subrange(0, i as int).push(
                    pq0@[i as int],
                ));
                assert(moves_of(pq@) =~= moves_of(before).push(m));
                assert(moves_of(pq0@.subrange(0, i as int + 1)) =~= moves_of(
                    pq0@.subrange(0, i as int),
                ).push(m));
            }
            i = i + 1;
        }
        proof {
            assert(pq0@.subrange(0, pq0@.len() as int) =~= pq0@);
        }
        pq
    }

    /// Iterative deepening: the moves `moves` of the position with their scores, the best
    /// first. Every depth from 2 to `max_depth` searches the moves in the order that the depth
    /// before left; the deepening ends early once more than `max_searched` moves were
    /// generated or a forced mate was found. With `verbose`, what each depth found is kept for
    /// `trace`. Without a depth to search, every move has the score 0.
    pub fn score_moves(
        &mut self,
        moves: &[Move],
        max_searched: usize,
        max_depth: usize,
        verbose: bool,
    ) -> (pq: Vec<(Move, i16)>)
        requires
            old(self).wf(),
            forall|k: int| 0 <= k < moves@.len() ==> old(self)@.admits(#[trigger] moves@[k]),
        ensures
            final(self).wf(),
            final(self)@ == old(self)@,
            ({
                let r = spec_score_moves(
                    old(self)@,
                    old(self).table(),
                    moves@,
                    max_searched,
                    max_depth,
                );
                &&& pq@ == r.pq
                &&& final(self).table() == r.table
                &&& final(self).searched() == r.searched
                &&& final(self).traced() == if verbose {
                    r.trace
                } else {
                    Seq::<Progress>::empty()
                }
            }),
            pq@.len() == moves@.len(),
            moves_of(pq@).to_multiset() == moves@.to_multiset(),
            forall|k: int| 0 <= k < pq@.len() ==> score_ok((#[trigger] pq@[k]).1),
            max_depth >= 2 && old(self)@.undo.len() < MAX_HISTORY ==> ranked(pq@),
    {
        let ghost pos = self@;
        let ghost goal = spec_score_moves(pos, self.table(), moves@, max_searched, max_depth);
        let mut pq0: Vec<(Move, i16)> = Vec::with_capacity(moves.len());
        let mut i: usize = 0;
        proof {
            assert(pq0@ =~= zero_scored(moves@.subrange(0, 0)));
        }
        while i < moves.len()
            invariant
                i <= moves.len(),
                pq0@ == zero_scored(moves@.subrange(0, i as int)),
            decreases moves.len() - i,
        {
            pq0.push((moves[i], 0));
            proof {
                assert(moves@.subrange(0, i as int + 1) =~= moves@.subrange(0, i as int).push(
                    moves@[i as int],
                ));
                assert(pq0@ =~= zero_scored(moves@.subrange(0, i as int + 1)));
            }
            i = i + 1;
        }
        proof {
            assert(moves@.subrange(0, moves@.len() as int) =~= moves@);
            assert(moves_of(pq0@) =~= moves@);
        }
        let mut trace: Vec<Progress> = Vec::new();
        let ghost mut full: Seq<Progress> = Seq::empty();
        self.reset_searched();
        if moves.len() == 0 || self.undo_len() >= MAX_HISTORY || max_depth < 2 {
            self.set_trace(trace);
            proof {
                if moves@.len() == 0 {
                    assert(ranked(pq0@));
                }
            }
            return pq0;
        }
        let mut depth: usize = 2;
        let mut done = false;
        while !done
            invariant
                2 <= depth <= max_depth,
                self.wf(),
                self@ == pos,
                pos.undo.len() < MAX_HISTORY,
                pq0@.len() == moves@.len(),
                moves@.len() > 0,
                moves_of(pq0@).to_multiset() == moves@.to_multiset(),
                forall|k: int| 0 <= k < pq0@.len() ==> score_ok((#[trigger] pq0@[k]).1),
                forall|k: int| 0 <= k < moves@.len() ==> pos.admits(#[trigger] moves@[k]),
                done || depth > 2 ==> ranked(pq0@),
                trace@ == if verbose {
                    full
                } else {
                    Seq::<Progress>::empty()
                },
                goal == ({
                    let now = Ranked {
                        pq: pq0@,
                        table: self.table(),
                        searched: self.searched(),
                        trace: full,
                    };
                    if done {
                        now
                    } else {
                        deepen(pos, now, depth, max_searched, max_depth)
                    }
                }),
            decreases max_depth - depth + if done { 0int } else { 1int },
        {
            if depth > 2 && self.n_searched() > max_searched {
                done = true;
            } else {
                proof {
                    assert forall|k: int| 0 <= k < pq0@.len() implies pos.admits(
                        (#[trigger] pq0@[k]).0,
                    ) by {
                        let m = pq0@[k].0;
                        assert(moves_of(pq0@)[k] == m);
                        assert(moves_of(pq0@).contains(m));
                        vstd::seq_lib::to_multiset_contains(moves_of(pq0@), m);
                        vstd::seq_lib::to_multiset_contains(moves@, m);
                        let j = choose|j: int| 0 <= j < moves@.len() && moves@[j] == m;
                        assert(pos.admits(moves@[j]));
                    }
                }
                let pq = self.score_depth(&pq0, depth);
                let sorted = sort_scored(&pq);
                proof {
                    assert forall|k: int| 0 <= k < sorted@.len() implies score_ok(
                        (#[trigger] sorted@[k]).1,
                    ) by {
                        let e = sorted@[k];
                        assert(pq@.contains(e));
                        let j = choose|j: int| 0 <= j < pq@.len() && pq@[j] == e;
                        assert(score_ok(pq@[j].1));
                    }
                }
                pq0 = sorted;
                let top = pq0[0];
                let line = Progress {
                    depth,
                    n_searched: self.n_searched(),
                    best: top.0,
                    score: top.1,
                };
                if verbose {
                    trace.push(line);
                }
                proof {
                    full = full.push(line);
                }
                let limit: i16 = if depth < INFINITE as usize {
                    INFINITE - depth as i16
                } else {
                    0
                };
                let found_mate = top.1 >= limit || top.1 <= -limit;
                if found_mate || depth >= max_depth {
                    done = true;
                } else {
                    depth = depth + 1;
                }
            }
        }
        self.set_trace(trace);
        pq0
    }
}

} // verus!
