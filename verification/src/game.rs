//! The position with its make/unmake protocol.

use vstd::prelude::*;
use std::collections::HashMap;
use crate::bitmaps::{reach, Reach, Tables};
use crate::bits::{bit, lemma_bit_and};
use crate::eval::{pawn_structure, spec_pawn_structure};
use crate::hashkeys::{
    board2hash, lemma_hash_flip, lemma_hash_update, lemma_xor, side_key, spec_hash, spec_hashkey,
    WHITE_HASH,
};
use crate::mgen::{
    attacks, board2bm, board2bm_all, board2bm_kings, board2bm_pawns, castle_at, castle_clear,
    castle_king_from, castle_king_to, castle_rook_from, castle_rook_to, checks, count_moves,
    ep_at, is_king_map, is_pawn_map, is_side_map, king_mask_of, last_or_null, lemma_board_masks,
    all_moves, lemma_castle_fields, lemma_ep_fields, lemma_steps_fields, mobility_below, null_move,
    pawn_mask_of, pseudo_legal, side_mask, spec_in_check, spec_null_move, steps, target,
    Castling, Move,
};
use crate::val::{
    abs_material, board_sum, lemma_board_sum_update, lemma_material_bounds, lemma_val_bounds,
    material_in, spec_abs_material, spec_material, val_fn, Piece, END_GAME_MATERIAL,
};

verus! {

/// Most moves that a game may hold in its undo log.
pub const MAX_HISTORY: usize = 1000000;

/// Largest move counter that a position may start with.
pub const MAX_COUNTER: usize = 65535;

/// What `update` saves to let `backdate` take a move back.
#[derive(Clone, Copy, Debug, PartialEq, Eq, Structural)]
pub struct Undo {
    pub bm_pawns: u64,
    pub bm_white: u64,
    pub bm_black: u64,
    pub bm_kings: u64,
    pub capture: Piece,
    pub hash: u64,
    pub can_castle: Castling,
}

/// The state of a game as a mathematical value.
pub struct Position {
    /// The piece on each of the 64 squares.
    pub board: Seq<Piece>,
    /// The side to move, `true` for White.
    pub colour: bool,
    /// Sum of the piece-square values of all squares.
    pub material: i16,
    /// Zobrist hash of board and side to move.
    pub hash: u64,
    pub bm_white: u64,
    pub bm_black: u64,
    pub bm_pawns: u64,
    pub bm_kings: u64,
    pub can_castle: Castling,
    /// Whether kings are valued by the end game's table.
    pub end_game: bool,
    /// How often each hash has occurred among the positions since the last irreversible move.
    pub rep: Map<u64, usize>,
    /// One entry for every move that was made and not taken back.
    pub undo: Seq<Undo>,
    /// Number of entries of the undo log that came before the last irreversible move of the
    /// game: the positions that the later entries were saved from count for repetition.
    pub rep_base: usize,
    /// Half moves since the last irreversible move of the game.
    pub half_move_clock: usize,
    /// Number of the move of the game, which grows after each move of Black.
    pub full_move_count: usize,
    /// The last move of the game.
    pub last: Move,
}

/// Square of the rook before the castling `m`: the king's side where the king goes to one of
/// the first 16 squares.
pub open spec fn rook_from_of(m: Move) -> int {
    if m.spec_to() <= 15 {
        m.spec_frm() - 24
    } else {
        m.spec_frm() + 32
    }
}

/// Square of the rook after the castling `m`.
pub open spec fn rook_to_of(m: Move) -> int {
    if m.spec_to() <= 15 {
        m.spec_frm() - 8
    } else {
        m.spec_frm() + 8
    }
}

/// Square of the pawn that the capture en passant `m` takes: on the rank of the origin and on
/// the file of the destination.
pub open spec fn ep_victim(m: Move) -> int {
    if m.spec_to() > m.spec_frm() {
        m.spec_frm() + 8
    } else {
        m.spec_frm() - 8
    }
}

/// The board after the move `m` of the side `colour`.
pub open spec fn board_after(board: Seq<Piece>, colour: bool, m: Move) -> Seq<Piece> {
    let frm = m.spec_frm();
    let to = m.spec_to();
    let p = board[frm];
    if m.spec_castle() {
        let x = rook_from_of(m);
        let y = rook_to_of(m);
        board.update(y, board[x]).update(x, Piece::Nil).update(to, p).update(frm, Piece::Nil)
    } else if m.spec_en_passant() {
        board.update(ep_victim(m), Piece::Nil).update(to, p).update(frm, Piece::Nil)
    } else if m.spec_transform() {
        board.update(to, m.spec_ptransform(colour)).update(frm, Piece::Nil)
    } else {
        board.update(to, p).update(frm, Piece::Nil)
    }
}

/// The board before the move `m` of the side `colour`, which captured `capture`.
pub open spec fn board_before(board: Seq<Piece>, colour: bool, m: Move, capture: Piece) -> Seq<
    Piece,
> {
    let frm = m.spec_frm();
    let to = m.spec_to();
    let b1 = if m.spec_castle() {
        let x = rook_from_of(m);
        let y = rook_to_of(m);
        board.update(x, board[y]).update(y, Piece::Nil)
    } else {
        board
    };
    let moved = if m.spec_transform() {
        Piece::Pawn(colour)
    } else {
        b1[to]
    };
    let b2 = b1.update(frm, moved).update(to, capture);
    if m.spec_en_passant() {
        b2.update(ep_victim(m), Piece::Pawn(!colour))
    } else {
        b2
    }
}

/// The castling rights after a move from `frm` to `to` of the piece `p`: a move of the king
/// ends both rights of its side, a move from or to the home square of a rook ends the right
/// with that rook.
pub open spec fn rights_after(rights: Castling, p: Piece, frm: int, to: int) -> Castling {
    Castling {
        white_short: rights.white_short && p != Piece::King(true) && frm != 0 && to != 0,
        white_long: rights.white_long && p != Piece::King(true) && frm != 56 && to != 56,
        black_short: rights.black_short && p != Piece::King(false) && frm != 7 && to != 7,
        black_long: rights.black_long && p != Piece::King(false) && frm != 63 && to != 63,
    }
}

/// How often `key` has occurred; 0 where the map does not hold it.
pub open spec fn rep_of(rep: Map<u64, usize>, key: u64) -> int {
    if rep.contains_key(key) {
        rep[key] as int
    } else {
        0
    }
}

/// The map with one more occurrence of `key`.
pub open spec fn rep_more(rep: Map<u64, usize>, key: u64) -> Map<u64, usize> {
    rep.insert(key, (rep_of(rep, key) + 1) as usize)
}

/// The map with one occurrence of `key` less; a key that then has none leaves the map.
pub open spec fn rep_less(rep: Map<u64, usize>, key: u64) -> Map<u64, usize> {
    if !rep.contains_key(key) {
        rep
    } else if rep[key] <= 1 {
        rep.remove(key)
    } else {
        rep.insert(key, (rep[key] - 1) as usize)
    }
}

/// Number of undo entries from number `from` to below number `n` that were saved from a
/// position with the hash `key`.
pub open spec fn seen(undo: Seq<Undo>, from: int, n: int, key: u64) -> int
    decreases n,
{
    if n <= from || n <= 0 {
        0
    } else {
        seen(undo, from, n - 1, key) + if undo[n - 1].hash == key {
            1int
        } else {
            0int
        }
    }
}

/// How often a position with the hash `key` has occurred since the last irreversible move:
/// among the positions that moves were made from, and as the current position.
pub open spec fn occurrences(pos: Position, key: u64) -> int {
    seen(pos.undo, pos.rep_base as int, pos.undo.len() as int, key) + if pos.hash == key {
        1int
    } else {
        0int
    }
}

/// What was seen among the first entries depends on these entries alone, and is no more than
/// their number.
pub proof fn lemma_seen(a: Seq<Undo>, b: Seq<Undo>, from: int, n: int, key: u64)
    requires
        0 <= from,
        forall|i: int| 0 <= i < n ==> a[i] == b[i],
    ensures
        seen(a, from, n, key) == seen(b, from, n, key),
        0 <= seen(a, from, n, key),
        n >= from ==> seen(a, from, n, key) <= n - from,
        n <= from ==> seen(a, from, n, key) == 0,
    decreases n,
{
    if n > from && n > 0 {
        lemma_seen(a, b, from, n - 1, key);
    }
}

impl Position {
    /// The invariants of a position: the bitboards, the material and the hash are those of the
    /// board, and every hash is counted as often as it has occurred since the last irreversible
    /// move.
    pub open spec fn wf(self) -> bool {
        &&& self.board.len() == 64
        &&& self.bm_white == side_mask(self.board, true)
        &&& self.bm_black == side_mask(self.board, false)
        &&& self.bm_pawns == pawn_mask_of(self.board)
        &&& self.bm_kings == king_mask_of(self.board)
        &&& self.material == spec_material(self.board, self.end_game)
        &&& self.hash == spec_hash(self.board, self.colour)
        &&& self.rep_base <= self.undo.len()
        &&& forall|k: u64| #[trigger] rep_of(self.rep, k) == occurrences(self, k)
        &&& forall|k: u64| #[trigger] self.rep.contains_key(k) ==> self.rep[k] >= 1
        &&& self.undo.len() <= MAX_HISTORY
        &&& self.half_move_clock <= MAX_COUNTER + self.undo.len()
        &&& self.full_move_count <= MAX_COUNTER + self.undo.len()
    }

    /// Whether `m` is castling number `k` in this position, with king and rook on their home
    /// squares and nothing between them.
    pub open spec fn admits_castle(self, m: Move, k: int) -> bool {
        &&& m.spec_frm() == castle_king_from(k)
        &&& m.spec_to() == castle_king_to(k)
        &&& self.colour == (k < 2)
        &&& self.board[castle_king_from(k)] == Piece::King(k < 2)
        &&& self.board[castle_rook_from(k)] == Piece::Rook(k < 2)
        &&& castle_clear(self.board, k)
    }

    /// Whether `m` can be made in this position and taken back: it moves a piece of the side to
    /// move to another square; as castling it is one of the four with its squares as they must
    /// be; as capture en passant it moves a pawn to an empty square beside a pawn of the other
    /// side; as promotion it moves a pawn.
    pub open spec fn admits(self, m: Move) -> bool {
        let frm = m.spec_frm();
        let to = m.spec_to();
        &&& frm != to
        &&& self.board[frm].is_side(self.colour)
        &&& m.spec_castle() ==> {
            ||| self.admits_castle(m, 0)
            ||| self.admits_castle(m, 1)
            ||| self.admits_castle(m, 2)
            ||| self.admits_castle(m, 3)
        }
        &&& m.spec_en_passant() ==> {
            &&& self.board[frm] == Piece::Pawn(self.colour)
            &&& 0 <= ep_victim(m) < 64
            &&& ep_victim(m) != to
            &&& self.board[ep_victim(m)] == Piece::Pawn(!self.colour)
            &&& self.board[to] == Piece::Nil
        }
        &&& m.spec_transform() ==> self.board[frm] == Piece::Pawn(self.colour)
    }

    /// The position after the move `m`.
    pub open spec fn after(self, m: Move) -> Position {
        let board = board_after(self.board, self.colour, m);
        let hash = spec_hash(board, !self.colour);
        Position {
            board,
            colour: !self.colour,
            material: spec_material(board, self.end_game) as i16,
            hash,
            bm_white: side_mask(board, true),
            bm_black: side_mask(board, false),
            bm_pawns: pawn_mask_of(board),
            bm_kings: king_mask_of(board),
            can_castle: rights_after(
                self.can_castle,
                self.board[m.spec_frm()],
                m.spec_frm(),
                m.spec_to(),
            ),
            rep: rep_more(self.rep, hash),
            undo: self.undo.push(
                Undo {
                    bm_pawns: self.bm_pawns,
                    bm_white: self.bm_white,
                    bm_black: self.bm_black,
                    bm_kings: self.bm_kings,
                    capture: self.board[m.spec_to()],
                    hash: self.hash,
                    can_castle: self.can_castle,
                },
            ),
            ..self
        }
    }

    /// Whether the squares that taking back `m` reads lie on the board and the undo log holds
    /// an entry.
    pub open spec fn reverts(self, m: Move) -> bool {
        &&& self.undo.len() > 0
        &&& m.spec_castle() ==> 0 <= rook_from_of(m) < 64 && 0 <= rook_to_of(m) < 64
        &&& m.spec_en_passant() ==> 0 <= ep_victim(m) < 64
    }

    /// The position before the move `m`, restored from the last entry of the undo log.
    pub open spec fn before(self, m: Move) -> Position {
        let u = self.undo.last();
        let board = board_before(self.board, !self.colour, m, u.capture);
        Position {
            board,
            colour: !self.colour,
            material: spec_material(board, self.end_game) as i16,
            hash: u.hash,
            bm_white: u.bm_white,
            bm_black: u.bm_black,
            bm_pawns: u.bm_pawns,
            bm_kings: u.bm_kings,
            can_castle: u.can_castle,
            rep: rep_less(self.rep, self.hash),
            undo: self.undo.drop_last(),
            ..self
        }
    }
}

/// The castling squares of a move that a position admits as castling.
pub proof fn lemma_castle_squares(pos: Position, m: Move, k: int)
    requires
        0 <= k < 4,
        pos.admits_castle(m, k),
    ensures
        rook_from_of(m) == castle_rook_from(k),
        rook_to_of(m) == castle_rook_to(k),
        pos.board[rook_to_of(m)] == Piece::Nil,
        pos.board[m.spec_to()] == Piece::Nil,
{
}

/// The squares of a castling that a position admits: king and rook of the side to move stand
/// on their home squares, the squares that they go to are empty, and the four squares are
/// different squares of the board.
pub proof fn lemma_castle(pos: Position, m: Move)
    requires
        pos.admits(m),
        m.spec_castle(),
    ensures
        ({
            let frm = m.spec_frm();
            let to = m.spec_to();
            let x = rook_from_of(m);
            let y = rook_to_of(m);
            &&& 0 <= x < 64 && 0 <= y < 64 && 0 <= frm < 64 && 0 <= to < 64
            &&& x != y && x != frm && x != to && y != frm && y != to && frm != to
            &&& pos.board[frm] == Piece::King(pos.colour)
            &&& pos.board[x] == Piece::Rook(pos.colour)
            &&& pos.board[y] == Piece::Nil
            &&& pos.board[to] == Piece::Nil
        }),
{
    if pos.admits_castle(m, 0) {
        lemma_castle_squares(pos, m, 0);
    } else if pos.admits_castle(m, 1) {
        lemma_castle_squares(pos, m, 1);
    } else if pos.admits_castle(m, 2) {
        lemma_castle_squares(pos, m, 2);
    } else {
        lemma_castle_squares(pos, m, 3);
    }
}

/// A move made and taken back leaves the board as it was.
pub proof fn lemma_board_round_trip(pos: Position, m: Move)
    requires
        pos.board.len() == 64,
        pos.admits(m),
    ensures
        board_before(board_after(pos.board, pos.colour, m), pos.colour, m, pos.board[m.spec_to()])
            == pos.board,
        board_after(pos.board, pos.colour, m).len() == 64,
{
    crate::mgen::lemma_move_range(m);
    let after = board_after(pos.board, pos.colour, m);
    let back = board_before(after, pos.colour, m, pos.board[m.spec_to()]);
    if m.spec_castle() {
        lemma_castle(pos, m);
    }
    assert(back =~= pos.board);
}

/// No hash has occurred more often than there are positions since the last irreversible move.
pub proof fn lemma_occurrences_bound(pos: Position, key: u64)
    requires
        pos.rep_base <= pos.undo.len(),
    ensures
        0 <= occurrences(pos, key) <= pos.undo.len() - pos.rep_base + 1,
        occurrences(pos, pos.hash) >= 1,
{
    lemma_seen(pos.undo, pos.undo, pos.rep_base as int, pos.undo.len() as int, key);
    lemma_seen(pos.undo, pos.undo, pos.rep_base as int, pos.undo.len() as int, pos.hash);
}

/// Update then backdate: a move that a position admits leads to a position from which taking
/// it back restores the first in every part: squares, bitboards, hash, material, castling
/// rights, repetition counts and undo log.
pub proof fn lemma_update_backdate(pos: Position, m: Move)
    requires
        pos.wf(),
        pos.admits(m),
    ensures
        pos.after(m).reverts(m),
        pos.after(m).before(m) == pos,
        pos.undo.len() < MAX_HISTORY ==> pos.after(m).wf(),
{
    crate::mgen::lemma_move_range(m);
    lemma_board_round_trip(pos, m);
    let next = pos.after(m);
    let back = next.before(m);
    lemma_material_bounds(next.board, pos.end_game, 64);
    lemma_material_bounds(pos.board, pos.end_game, 64);
    assert(next.undo.last().capture == pos.board[m.spec_to()]);
    assert(back.undo =~= pos.undo);
    lemma_occurrences_bound(pos, next.hash);
    assert(rep_of(pos.rep, next.hash) == occurrences(pos, next.hash));
    assert(back.rep =~= pos.rep);
    assert(back.board == pos.board);
    if pos.undo.len() < MAX_HISTORY {
        assert forall|k: u64| #[trigger] rep_of(next.rep, k) == occurrences(next, k) by {
            lemma_seen(next.undo, pos.undo, pos.rep_base as int, pos.undo.len() as int, k);
            assert(rep_of(pos.rep, k) == occurrences(pos, k));
            assert(next.undo[pos.undo.len() as int].hash == pos.hash);
        }
    }
    if m.spec_castle() {
        lemma_castle(pos, m);
    }
}

/// What holds of every well-formed position: the hash is that of squares and side to move, the
/// material is the sum of the piece-square values of all squares, the bitboards of the two
/// colours hold the occupied squares between them and share none, those of pawns and kings
/// hold the squares of pawns and kings, and the current position has occurred.
pub proof fn lemma_invariants(pos: Position)
    requires
        pos.wf(),
    ensures
        pos.hash == spec_hash(pos.board, pos.colour),
        pos.material == spec_material(pos.board, pos.end_game),
        is_side_map(pos.bm_white, pos.board, true),
        is_side_map(pos.bm_black, pos.board, false),
        crate::mgen::is_occupancy(pos.bm_white | pos.bm_black, pos.board),
        pos.bm_white & pos.bm_black == 0,
        is_pawn_map(pos.bm_pawns, pos.board),
        is_king_map(pos.bm_kings, pos.board),
        rep_of(pos.rep, pos.hash) >= 1,
        rep_of(pos.rep, pos.hash) == occurrences(pos, pos.hash),
{
    lemma_board_masks(pos.board);
    lemma_occurrences_bound(pos, pos.hash);
    assert(rep_of(pos.rep, pos.hash) == occurrences(pos, pos.hash));
}

/// Castling rights only end: a right that is there after a move was there before it.
pub proof fn lemma_rights_only_end(pos: Position, m: Move)
    ensures
        pos.after(m).can_castle.white_short ==> pos.can_castle.white_short,
        pos.after(m).can_castle.white_long ==> pos.can_castle.white_long,
        pos.after(m).can_castle.black_short ==> pos.can_castle.black_short,
        pos.after(m).can_castle.black_long ==> pos.can_castle.black_long,
{
}

/// One for the king of colour `c`, zero for any other piece.
pub open spec fn king_fn(c: bool) -> spec_fn(Piece, int) -> int {
    |p: Piece, i: int|
        if p == Piece::King(c) {
            1int
        } else {
            0int
        }
}

/// Number of kings of colour `c` on a board.
pub open spec fn king_count(board: Seq<Piece>, c: bool) -> int {
    board_sum(board, king_fn(c), 64)
}

/// A move that does not take a king leaves each side the kings that it had.
pub proof fn lemma_kings_stay(pos: Position, m: Move, c: bool)
    requires
        pos.board.len() == 64,
        pos.admits(m),
        !(pos.board[m.spec_to()] is King),
    ensures
        king_count(pos.after(m).board, c) == king_count(pos.board, c),
{
    crate::mgen::lemma_move_range(m);
    let frm = m.spec_frm();
    let to = m.spec_to();
    let p = pos.board[frm];
    let f = king_fn(c);
    if m.spec_castle() {
        lemma_castle(pos, m);
        let x = rook_from_of(m);
        let y = rook_to_of(m);
        let b1 = pos.board.update(y, pos.board[x]);
        let b2 = b1.update(x, Piece::Nil);
        let b3 = b2.update(to, p);
        lemma_board_sum_update(pos.board, f, 64, y, pos.board[x]);
        lemma_board_sum_update(b1, f, 64, x, Piece::Nil);
        lemma_board_sum_update(b2, f, 64, to, p);
        lemma_board_sum_update(b3, f, 64, frm, Piece::Nil);
    } else if m.spec_en_passant() {
        let x = ep_victim(m);
        let b1 = pos.board.update(x, Piece::Nil);
        let b2 = b1.update(to, p);
        lemma_board_sum_update(pos.board, f, 64, x, Piece::Nil);
        lemma_board_sum_update(b1, f, 64, to, p);
        lemma_board_sum_update(b2, f, 64, frm, Piece::Nil);
    } else if m.spec_transform() {
        let q = m.spec_ptransform(pos.colour);
        let b1 = pos.board.update(to, q);
        lemma_board_sum_update(pos.board, f, 64, to, q);
        lemma_board_sum_update(b1, f, 64, frm, Piece::Nil);
    } else {
        let b1 = pos.board.update(to, p);
        lemma_board_sum_update(pos.board, f, 64, to, p);
        lemma_board_sum_update(b1, f, 64, frm, Piece::Nil);
    }
}

/// Where the side that is not to move is not in check, no pseudo-legal move takes a king.
pub proof fn lemma_no_king_taken(pos: Position, in_check: bool, last: Move, m: Move)
    requires
        pos.board.len() == 64,
        pseudo_legal(pos.board, pos.colour, pos.end_game, pos.can_castle, in_check, last, m),
        !spec_in_check(pos.board, !pos.colour),
    ensures
        !(pos.board[m.spec_to()] is King),
{
    crate::mgen::lemma_move_range(m);
    let frm = m.spec_frm();
    let to = m.spec_to();
    let c = pos.colour;
    if pos.board[to] is King {
        lemma_castle_fields(pos.board, pos.end_game, 0);
        lemma_castle_fields(pos.board, pos.end_game, 1);
        lemma_castle_fields(pos.board, pos.end_game, 2);
        lemma_castle_fields(pos.board, pos.end_game, 3);
        lemma_ep_fields(pos.board, pos.end_game, frm, to, last.spec_to());
        assert(target(pos.board, frm, to));
        assert(pos.board[to] == Piece::King(!c));
        assert(attacks(pos.board, frm, to));
        assert(checks(pos.board, !c, frm));
    }
}

/// The value of a move to a target is the change of material that it brings.
proof fn lemma_delta_steps(pos: Position, m: Move)
    requires
        pos.board.len() == 64,
        pos.board[m.spec_frm()].is_side(pos.colour),
        target(pos.board, m.spec_frm(), m.spec_to()),
        steps(pos.board, pos.end_game, m.spec_frm(), m.spec_to(), m),
    ensures
        spec_material(board_after(pos.board, pos.colour, m), pos.end_game) == spec_material(
            pos.board,
            pos.end_game,
        ) + m.val,
{
    crate::mgen::lemma_move_range(m);
    let frm = m.spec_frm();
    let to = m.spec_to();
    let c = pos.colour;
    let eg = pos.end_game;
    let p = pos.board[frm];
    let f = val_fn(eg);
    lemma_val_bounds(p, frm, eg);
    lemma_val_bounds(p, to, eg);
    lemma_val_bounds(pos.board[to], to, eg);
    lemma_steps_fields(pos.board, eg, frm, to, m);
    if m.spec_transform() {
        let q = m.spec_ptransform(c);
        lemma_val_bounds(q, to, eg);
        crate::mgen::lemma_pack_fields(false, false, Piece::Queen(c), frm, to);
        crate::mgen::lemma_pack_fields(false, false, Piece::Rook(c), frm, to);
        crate::mgen::lemma_pack_fields(false, false, Piece::Knight(c), frm, to);
        crate::mgen::lemma_pack_fields(false, false, Piece::Bishop(c), frm, to);
        let m0 = Move { data: m.data, val: 0 };
        assert(m0.spec_ptransform(c) == q);
        assert(crate::mgen::promo_bits(q) == crate::mgen::promo_bits(Piece::Queen(c)) ==> q
            == Piece::Queen(c));
        let b1 = pos.board.update(to, q);
        lemma_board_sum_update(pos.board, f, 64, to, q);
        lemma_board_sum_update(b1, f, 64, frm, Piece::Nil);
    } else {
        let b1 = pos.board.update(to, p);
        lemma_board_sum_update(pos.board, f, 64, to, p);
        lemma_board_sum_update(b1, f, 64, frm, Piece::Nil);
    }
}

/// The value of a capture en passant is the change of material that it brings.
proof fn lemma_delta_ep(pos: Position, last: Move, m: Move)
    requires
        pos.board.len() == 64,
        ep_at(pos.board, pos.colour, pos.end_game, last, m),
    ensures
        spec_material(board_after(pos.board, pos.colour, m), pos.end_game) == spec_material(
            pos.board,
            pos.end_game,
        ) + m.val,
{
    crate::mgen::lemma_move_range(m);
    crate::mgen::lemma_move_range(last);
    let frm = m.spec_frm();
    let to = m.spec_to();
    let c = pos.colour;
    let eg = pos.end_game;
    let p = pos.board[frm];
    let f = val_fn(eg);
    let lf = last.spec_frm();
    let lt = last.spec_to();
    lemma_val_bounds(p, frm, eg);
    lemma_val_bounds(p, to, eg);
    lemma_val_bounds(pos.board[lt], lt, eg);
    lemma_ep_fields(pos.board, eg, frm, to, lt);
    assert(reach(Reach::PawnStep2(!c), lf, lt));
    assert(reach(Reach::PawnCapture(c), frm, to));
    assert(ep_victim(m) == lt);
    let b1 = pos.board.update(lt, Piece::Nil);
    let b2 = b1.update(to, p);
    lemma_board_sum_update(pos.board, f, 64, lt, Piece::Nil);
    lemma_board_sum_update(b1, f, 64, to, p);
    lemma_board_sum_update(b2, f, 64, frm, Piece::Nil);
}

/// The value of castling number `k` is the change of material that it brings.
proof fn lemma_delta_castle(pos: Position, in_check: bool, m: Move, k: int)
    requires
        pos.board.len() == 64,
        0 <= k < 4,
        castle_at(pos.board, pos.colour, pos.end_game, pos.can_castle, in_check, k, m),
    ensures
        spec_material(board_after(pos.board, pos.colour, m), pos.end_game) == spec_material(
            pos.board,
            pos.end_game,
        ) + m.val,
{
    let eg = pos.end_game;
    let f = val_fn(eg);
    lemma_castle_fields(pos.board, eg, k);
    assert(pos.admits_castle(m, k));
    lemma_castle_squares(pos, m, k);
    let frm = m.spec_frm();
    let to = m.spec_to();
    let x = rook_from_of(m);
    let y = rook_to_of(m);
    let p = pos.board[frm];
    let rook = pos.board[x];
    lemma_val_bounds(p, frm, eg);
    lemma_val_bounds(p, to, eg);
    lemma_val_bounds(rook, x, eg);
    lemma_val_bounds(rook, y, eg);
    let b1 = pos.board.update(y, rook);
    let b2 = b1.update(x, Piece::Nil);
    let b3 = b2.update(to, p);
    lemma_board_sum_update(pos.board, f, 64, y, rook);
    lemma_board_sum_update(b1, f, 64, x, Piece::Nil);
    lemma_board_sum_update(b2, f, 64, to, p);
    lemma_board_sum_update(b3, f, 64, frm, Piece::Nil);
}

/// The value of a pseudo-legal move is the change of material that it brings.
pub proof fn lemma_static_delta(pos: Position, in_check: bool, last: Move, m: Move)
    requires
        pos.board.len() == 64,
        pseudo_legal(pos.board, pos.colour, pos.end_game, pos.can_castle, in_check, last, m),
    ensures
        spec_material(board_after(pos.board, pos.colour, m), pos.end_game) == spec_material(
            pos.board,
            pos.end_game,
        ) + m.val,
{
    let c = pos.colour;
    let eg = pos.end_game;
    if target(pos.board, m.spec_frm(), m.spec_to()) && steps(
        pos.board,
        eg,
        m.spec_frm(),
        m.spec_to(),
        m,
    ) {
        lemma_delta_steps(pos, m);
    } else if ep_at(pos.board, c, eg, last, m) {
        lemma_delta_ep(pos, last, m);
    } else if castle_at(pos.board, c, eg, pos.can_castle, in_check, 0, m) {
        lemma_delta_castle(pos, in_check, m, 0);
    } else if castle_at(pos.board, c, eg, pos.can_castle, in_check, 1, m) {
        lemma_delta_castle(pos, in_check, m, 1);
    } else if castle_at(pos.board, c, eg, pos.can_castle, in_check, 2, m) {
        lemma_delta_castle(pos, in_check, m, 2);
    } else {
        lemma_delta_castle(pos, in_check, m, 3);
    }
}

/// A table entry's kind of bound.
#[derive(Clone, Copy, Debug, PartialEq, Eq, Structural)]
pub enum BType {
    Exact,
    Lower,
    Upper,
}

/// An entry of the transposition table.
#[derive(Clone, Copy, Debug)]
pub struct TTable {
    pub depth: usize,
    pub score: i16,
    pub m: Move,
    pub bound: BType,
}

/// What one depth of the iterative deepening found.
#[derive(Clone, Copy, Debug, PartialEq, Eq, Structural)]
pub struct Progress {
    pub depth: usize,
    pub n_searched: usize,
    pub best: Move,
    pub score: i16,
}

/// A game: the position, the transposition table and the count of the moves generated.
pub struct Game {
    board: [Piece; 64],
    colour: bool,
    n_searched: usize,
    material: i16,
    rep: HashMap<u64, usize>,
    ttable: HashMap<u64, TTable>,
    can_castle: Castling,
    end_game: bool,
    hash: u64,
    bm_white: u64,
    bm_black: u64,
    bm_pawns: u64,
    bm_kings: u64,
    log_bms: Vec<Undo>,
    rep_base: usize,
    half_move_clock: usize,
    full_move_count: usize,
    last: Move,
    tables: Tables,
    trace: Vec<Progress>,
}

/// Puts the piece `p` on square `sq` and brings material and hash up to date.
fn put(
    board: &mut [Piece; 64],
    material: &mut i16,
    hash: &mut u64,
    end_game: bool,
    colour: bool,
    sq: usize,
    p: Piece,
)
    requires
        sq < 64,
        *old(material) == spec_material(old(board)@, end_game),
        *old(hash) == spec_hash(old(board)@, colour),
    ensures
        final(board)@ == old(board)@.update(sq as int, p),
        *final(material) == spec_material(final(board)@, end_game),
        *final(hash) == spec_hash(final(board)@, colour),
{
    let was = board[sq];
    let gain: i16 = p.val_in(sq, end_game) - was.val_in(sq, end_game);
    proof {
        let b0 = board@;
        let b1 = b0.update(sq as int, p);
        lemma_board_sum_update(b0, val_fn(end_game), 64, sq as int, p);
        lemma_material_bounds(b0, end_game, 64);
        lemma_material_bounds(b1, end_game, 64);
        lemma_hash_update(b0, 64, sq as int, p);
        let h = crate::hashkeys::hash_below(b0, 64);
        let k0 = spec_hashkey(was, sq as int);
        let k1 = spec_hashkey(p, sq as int);
        lemma_xor(side_key(colour), h, k0);
        lemma_xor(side_key(colour), h ^ k0, k1);
    }
    *material = *material + gain;
    *hash = (*hash ^ was.hashkey(sq)) ^ p.hashkey(sq);
    board[sq] = p;
}

impl View for Game {
    type V = Position;

    closed spec fn view(&self) -> Position {
        Position {
            board: self.board@,
            colour: self.colour,
            material: self.material,
            hash: self.hash,
            bm_white: self.bm_white,
            bm_black: self.bm_black,
            bm_pawns: self.bm_pawns,
            bm_kings: self.bm_kings,
            can_castle: self.can_castle,
            end_game: self.end_game,
            rep: self.rep@,
            undo: self.log_bms@,
            rep_base: self.rep_base,
            half_move_clock: self.half_move_clock,
            full_move_count: self.full_move_count,
            last: self.last,
        }
    }
}

/// Whether the score of a table entry lies within the range of all scores.
pub open spec fn entry_ok(e: TTable) -> bool {
    -crate::INFINITE <= e.score <= crate::INFINITE
}

impl Game {
    /// The transposition table as a map from position hash to entry.
    pub closed spec fn table(&self) -> Map<u64, TTable> {
        self.ttable@
    }

    /// Number of moves generated since the count was last reset.
    pub closed spec fn searched(&self) -> usize {
        self.n_searched
    }

    /// Whether the attack tables are complete.
    pub closed spec fn tables_ok(&self) -> bool {
        self.tables.wf()
    }

    /// The invariants of a game: those of its position, complete attack tables, and table
    /// scores within range.
    pub open spec fn wf(&self) -> bool {
        &&& self@.wf()
        &&& self.tables_ok()
        &&& forall|k: u64| #[trigger] self.table().contains_key(k) ==> entry_ok(self.table()[k])
    }

    /// A game that starts from `board` with White to move, all castling rights, and no move
    /// made.
    pub fn new(board: [Piece; 64]) -> (game: Game)
        ensures
            game.wf(),
            game@.board == board@,
            game@.colour == crate::val::WHITE,
            game@.can_castle == (Castling {
                white_short: true,
                white_long: true,
                black_short: true,
                black_long: true,
            }),
            !game@.end_game,
            game@.rep == Map::<u64, usize>::empty().insert(game@.hash, 1usize),
            game@.undo.len() == 0,
            game@.rep_base == 0,
            game@.half_move_clock == 0,
            game@.full_move_count == 1,
            game@.last == spec_null_move(),
            game.table() == Map::<u64, TTable>::empty(),
            game.searched() == 0,
            game.traced() == Seq::<Progress>::empty(),
    {
        broadcast use vstd::std_specs::hash::group_hash_axioms;

        let key = board2hash(&board, true);
        let (bm_white, bm_black) = board2bm(&board);
        let bm_pawns = board2bm_pawns(&board);
        let bm_kings = board2bm_kings(&board);
        let material = material_in(&board, false);
        let mut rep: HashMap<u64, usize> = HashMap::new();
        rep.insert(key, 1);
        Game {
            board,
            colour: true,
            n_searched: 0,
            material,
            rep,
            ttable: HashMap::new(),
            can_castle: Castling {
                white_short: true,
                white_long: true,
                black_short: true,
                black_long: true,
            },
            end_game: false,
            hash: key,
            bm_white,
            bm_black,
            bm_pawns,
            bm_kings,
            log_bms: Vec::new(),
            rep_base: 0,
            half_move_clock: 0,
            full_move_count: 1,
            last: null_move(),
            tables: Tables::new(),
            trace: Vec::new(),
        }
    }

    /// A game that starts from the given position: the board, the side to move, the castling
    /// rights, the two counters, and the move that led to it.
    pub fn from_parts(
        board: [Piece; 64],
        colour: bool,
        can_castle: Castling,
        half_move_clock: usize,
        full_move_count: usize,
        last: Move,
    ) -> (game: Game)
        requires
            half_move_clock <= MAX_COUNTER,
            full_move_count <= MAX_COUNTER,
        ensures
            game.wf(),
            game@.board == board@,
            game@.colour == colour,
            game@.can_castle == can_castle,
            game@.end_game == spec_end_game(board@),
            game@.rep == Map::<u64, usize>::empty().insert(game@.hash, 1usize),
            game@.undo.len() == 0,
            game@.rep_base == 0,
            game@.half_move_clock == half_move_clock,
            game@.full_move_count == full_move_count,
            game@.last == last,
            game.table() == Map::<u64, TTable>::empty(),
            game.searched() == 0,
            game.traced() == Seq::<Progress>::empty(),
    {
        broadcast use vstd::std_specs::hash::group_hash_axioms;

        let key = board2hash(&board, colour);
        let (bm_white, bm_black) = board2bm(&board);
        let bm_pawns = board2bm_pawns(&board);
        let bm_kings = board2bm_kings(&board);
        let end_game = abs_material(&board) < END_GAME_MATERIAL / 3;
        let material = material_in(&board, end_game);
        let mut rep: HashMap<u64, usize> = HashMap::new();
        rep.insert(key, 1);
        Game {
            board,
            colour,
            n_searched: 0,
            material,
            rep,
            ttable: HashMap::new(),
            can_castle,
            end_game,
            hash: key,
            bm_white,
            bm_black,
            bm_pawns,
            bm_kings,
            log_bms: Vec::new(),
            rep_base: 0,
            half_move_clock,
            full_move_count,
            last,
            tables: Tables::new(),
            trace: Vec::new(),
        }
    }

    /// The board.
    pub fn board(&self) -> (b: [Piece; 64])
        ensures
            b@ == self@.board,
    {
        self.board
    }

    /// The side to move, `true` for White.
    pub fn turn(&self) -> (c: bool)
        ensures
            c == self@.colour,
    {
        self.colour
    }

    /// The piece on square `sq`.
    pub fn piece_at(&self, sq: usize) -> (p: Piece)
        requires
            sq < 64,
            self@.board.len() == 64,
        ensures
            p == self@.board[sq as int],
    {
        self.board[sq]
    }

    /// The Zobrist hash of the position.
    pub fn hash(&self) -> (h: u64)
        ensures
            h == self@.hash,
    {
        self.hash
    }

    /// The material of the position.
    pub fn material(&self) -> (m: i16)
        ensures
            m == self@.material,
    {
        self.material
    }

    /// The castling rights that are left.
    pub fn castling(&self) -> (c: Castling)
        ensures
            c == self@.can_castle,
    {
        self.can_castle
    }

    /// Number of moves made and not taken back.
    pub fn undo_len(&self) -> (n: usize)
        ensures
            n == self@.undo.len(),
    {
        self.log_bms.len()
    }

    /// Number of moves generated since the count was last reset.
    pub fn n_searched(&self) -> (n: usize)
        ensures
            n == self.searched(),
    {
        self.n_searched
    }

    /// Counts one more occurrence of the current hash.
    fn rep_inc(&mut self)
        requires
            rep_of(old(self)@.rep, old(self)@.hash) < usize::MAX,
        ensures
            final(self)@ == (Position { rep: rep_more(old(self)@.rep, old(self)@.hash), ..old(self)@ }),
            final(self).table() == old(self).table(),
            final(self).searched() == old(self).searched(),
            final(self).tables_ok() == old(self).tables_ok(),
    {
        broadcast use vstd::std_specs::hash::group_hash_axioms;

        match self.rep.insert(self.hash, 1) {
            Some(count) => {
                self.rep.insert(self.hash, count + 1);
            },
            None => {},
        }
        proof {
            assert(self.rep@ =~= rep_more(old(self)@.rep, old(self)@.hash));
        }
    }

    /// Counts one occurrence of the current hash less and drops the hash at zero.
    fn rep_dec(&mut self)
        ensures
            final(self)@ == (Position { rep: rep_less(old(self)@.rep, old(self)@.hash), ..old(self)@ }),
            final(self).table() == old(self).table(),
            final(self).searched() == old(self).searched(),
            final(self).tables_ok() == old(self).tables_ok(),
    {
        broadcast use vstd::std_specs::hash::group_hash_axioms;

        match self.rep.remove(&self.hash) {
            Some(count) => {
                if count > 1 {
                    self.rep.insert(self.hash, count - 1);
                }
            },
            None => {},
        }
        proof {
            assert(self.rep@ =~= rep_less(old(self)@.rep, old(self)@.hash));
        }
    }

    /// How often the current position has occurred since the last irreversible move, itself
    /// included.
    pub fn rep_count(&self) -> (n: usize)
        ensures
            n == rep_of(self@.rep, self@.hash),
            self@.wf() ==> n >= 1 && n == occurrences(self@, self@.hash),
    {
        broadcast use vstd::std_specs::hash::group_hash_axioms;

        proof {
            if self@.wf() {
                lemma_occurrences_bound(self@, self@.hash);
                assert(rep_of(self@.rep, self@.hash) == occurrences(self@, self@.hash));
            }
        }
        match self.rep.get(&self.hash) {
            Some(c) => *c,
            None => 0,
        }
    }

    /// Number of different hashes among the positions since the last irreversible move.
    pub fn rep_len(&self) -> (n: usize)
        ensures
            n == self@.rep.len(),
    {
        broadcast use vstd::std_specs::hash::group_hash_axioms;

        self.rep.len()
    }

    /// Number of entries in the transposition table.
    pub fn ttable_len(&self) -> (n: usize)
        ensures
            n == self.table().len(),
    {
        broadcast use vstd::std_specs::hash::group_hash_axioms;

        self.ttable.len()
    }

    /// Makes the move `m`: moves the piece, and with it the rook in castling, removes what it
    /// captures, promotes the pawn, ends castling rights, hands the move to the other side and
    /// counts the new position. What `backdate` needs is saved in the undo log.
    pub fn update(&mut self, m: &Move)
        requires
            old(self).wf(),
            old(self)@.admits(*m),
            old(self)@.undo.len() < MAX_HISTORY,
        ensures
            final(self).wf(),
            final(self)@ == old(self)@.after(*m),
            final(self)@.hash == spec_hash(final(self)@.board, final(self)@.colour),
            final(self)@.material == spec_material(final(self)@.board, final(self)@.end_game),
            final(self)@.undo.len() == old(self)@.undo.len() + 1,
            final(self).table() == old(self).table(),
            final(self).searched() == old(self).searched(),
    {
        let frm = m.frm();
        let to = m.to();
        let p = self.board[frm];
        let ghost pos = self@;
        proof {
            lemma_update_backdate(pos, *m);
        }
        self.log_bms.push(
            Undo {
                bm_pawns: self.bm_pawns,
                bm_white: self.bm_white,
                bm_black: self.bm_black,
                bm_kings: self.bm_kings,
                capture: self.board[to],
                hash: self.hash,
                can_castle: self.can_castle,
            },
        );
        let colour = self.colour;
        let end_game = self.end_game;
        if m.castle() {
            proof {
                lemma_castle(pos, *m);
            }
            let (x, y): (usize, usize) = if to <= 15 {
                ((frm - 24) as usize, (frm - 8) as usize)
            } else {
                (frm + 32, frm + 8)
            };
            let rook = self.board[x];
            put(&mut self.board, &mut self.material, &mut self.hash, end_game, colour, y, rook);
            put(&mut self.board, &mut self.material, &mut self.hash, end_game, colour, x, Piece::Nil);
            put(&mut self.board, &mut self.material, &mut self.hash, end_game, colour, to, p);
        } else if m.en_passant() {
            let x: usize = if to > frm {
                frm + 8
            } else {
                (frm - 8) as usize
            };
            put(&mut self.board, &mut self.material, &mut self.hash, end_game, colour, x, Piece::Nil);
            put(&mut self.board, &mut self.material, &mut self.hash, end_game, colour, to, p);
        } else if m.transform() {
            let q = m.ptransform(colour);
            put(&mut self.board, &mut self.material, &mut self.hash, end_game, colour, to, q);
        } else {
            put(&mut self.board, &mut self.material, &mut self.hash, end_game, colour, to, p);
        }
        put(&mut self.board, &mut self.material, &mut self.hash, end_game, colour, frm, Piece::Nil);
        proof {
            lemma_hash_flip(self.board@, colour);
        }
        self.colour = !colour;
        self.hash = self.hash ^ WHITE_HASH;
        let rights = self.can_castle;
        self.can_castle = Castling {
            white_short: rights.white_short && p != Piece::King(true) && frm != 0 && to != 0,
            white_long: rights.white_long && p != Piece::King(true) && frm != 56 && to != 56,
            black_short: rights.black_short && p != Piece::King(false) && frm != 7 && to != 7,
            black_long: rights.black_long && p != Piece::King(false) && frm != 63 && to != 63,
        };
        let (w, b, pawns, kings) = board2bm_all(&self.board);
        self.bm_white = w;
        self.bm_black = b;
        self.bm_pawns = pawns;
        self.bm_kings = kings;
        proof {
            assert(self@.board == pos.after(*m).board);
            assert(self@.hash == pos.after(*m).hash);
            lemma_occurrences_bound(pos, self@.hash);
            assert(rep_of(pos.rep, self@.hash) == occurrences(pos, self@.hash));
        }
        self.rep_inc();
        proof {
            assert(self@.undo =~= pos.after(*m).undo);
            assert(self@ == pos.after(*m));
            assert(self@.wf());
            assert(self.tables_ok());
            assert(self.table() == old(self).table());
        }
    }

    /// Takes back the move `m`, the last one made: restores bitboards, hash and castling rights
    /// from the undo log, moves the pieces back, puts back what was captured, and counts the
    /// position that is left one time less.
    pub fn backdate(&mut self, m: &Move)
        requires
            old(self).wf(),
            old(self)@.reverts(*m),
        ensures
            final(self)@ == old(self)@.before(*m),
            final(self)@.undo.len() == old(self)@.undo.len() - 1,
            final(self).table() == old(self).table(),
            final(self).searched() == old(self).searched(),
            old(self)@.before(*m).wf() ==> final(self).wf(),
    {
        let frm = m.frm();
        let to = m.to();
        let ghost pos = self@;
        self.rep_dec();
        let u = match self.log_bms.pop() {
            Some(u) => u,
            None => { return ; },
        };
        let end_game = self.end_game;
        let here = self.colour;
        let colour = !self.colour;
        let mut scratch: u64 = self.hash;
        if m.castle() {
            let (x, y): (usize, usize) = if to <= 15 {
                ((frm - 24) as usize, (frm - 8) as usize)
            } else {
                (frm + 32, frm + 8)
            };
            let rook = self.board[y];
            put(&mut self.board, &mut self.material, &mut scratch, end_game, here, x, rook);
            put(&mut self.board, &mut self.material, &mut scratch, end_game, here, y, Piece::Nil);
        }
        let moved = if m.transform() {
            Piece::Pawn(colour)
        } else {
            self.board[to]
        };
        put(&mut self.board, &mut self.material, &mut scratch, end_game, here, frm, moved);
        put(&mut self.board, &mut self.material, &mut scratch, end_game, here, to, u.capture);
        if m.en_passant() {
            let x: usize = if to > frm {
                frm + 8
            } else {
                (frm - 8) as usize
            };
            put(
                &mut self.board,
                &mut self.material,
                &mut scratch,
                end_game,
                here,
                x,
                Piece::Pawn(!colour),
            );
        }
        self.colour = colour;
        self.hash = u.hash;
        self.bm_pawns = u.bm_pawns;
        self.bm_white = u.bm_white;
        self.bm_black = u.bm_black;
        self.bm_kings = u.bm_kings;
        self.can_castle = u.can_castle;
        proof {
            assert(self@.undo =~= pos.before(*m).undo);
            assert(self@.board == pos.before(*m).board);
            assert(self@ == pos.before(*m));
        }
    }
}

/// Every pseudo-legal move of the side to move can be made and taken back.
pub proof fn lemma_pseudo_legal_admits(pos: Position, in_check: bool, last: Move, m: Move)
    requires
        pos.board.len() == 64,
        pseudo_legal(pos.board, pos.colour, pos.end_game, pos.can_castle, in_check, last, m),
    ensures
        pos.admits(m),
{
    crate::mgen::lemma_move_range(m);
    crate::mgen::lemma_move_range(last);
    let frm = m.spec_frm();
    let to = m.spec_to();
    let c = pos.colour;
    if target(pos.board, frm, to) && steps(pos.board, pos.end_game, frm, to, m) {
        lemma_steps_fields(pos.board, pos.end_game, frm, to, m);
    } else if ep_at(pos.board, c, pos.end_game, last, m) {
        lemma_ep_fields(pos.board, pos.end_game, frm, to, last.spec_to());
        let lf = last.spec_frm();
        let lt = last.spec_to();
        assert(reach(Reach::PawnStep2(!c), lf, lt));
        assert(reach(Reach::PawnCapture(c), frm, to));
        assert(ep_victim(m) == lt);
    } else {
        lemma_castle_fields(pos.board, pos.end_game, 0);
        lemma_castle_fields(pos.board, pos.end_game, 1);
        lemma_castle_fields(pos.board, pos.end_game, 2);
        lemma_castle_fields(pos.board, pos.end_game, 3);
        if castle_at(pos.board, c, pos.end_game, pos.can_castle, in_check, 0, m) {
            assert(pos.admits_castle(m, 0));
        } else if castle_at(pos.board, c, pos.end_game, pos.can_castle, in_check, 1, m) {
            assert(pos.admits_castle(m, 1));
        } else if castle_at(pos.board, c, pos.end_game, pos.can_castle, in_check, 2, m) {
            assert(pos.admits_castle(m, 2));
        } else {
            assert(pos.admits_castle(m, 3));
        }
    }
}

/// Whether the values of the moves fall from first to last (`descending`) or rise.
pub open spec fn sorted_by_val(s: Seq<Move>, descending: bool) -> bool {
    forall|i: int, j: int|
        0 <= i < j < s.len() ==> if descending {
            #[trigger] s[i].val >= #[trigger] s[j].val
        } else {
            s[i].val <= s[j].val
        }
}

/// What a list holds after a move was inserted into it.
pub proof fn lemma_insert_contains(s: Seq<Move>, j: int, x: Move)
    requires
        0 <= j <= s.len(),
    ensures
        forall|m: Move| #[trigger] s.insert(j, x).contains(m) <==> s.contains(m) || m == x,
        s.no_duplicates() && !s.contains(x) ==> s.insert(j, x).no_duplicates(),
{
    let t = s.insert(j, x);
    assert forall|m: Move| #[trigger] t.contains(m) <==> s.contains(m) || m == x by {
        if t.contains(m) {
            let i = choose|i: int| 0 <= i < t.len() && t[i] == m;
            if i < j {
                assert(s[i] == m);
            } else if i > j {
                assert(s[i - 1] == m);
            }
        }
        if s.contains(m) {
            let i = choose|i: int| 0 <= i < s.len() && s[i] == m;
            if i < j {
                assert(t[i] == m);
            } else {
                assert(t[i + 1] == m);
            }
        }
        if m == x {
            assert(t[j] == m);
        }
    }
    if s.no_duplicates() && !s.contains(x) {
        assert forall|a: int, b: int| 0 <= a < t.len() && 0 <= b < t.len() && a != b implies t[a]
            != t[b] by {
            let a0 = if a < j { a } else { a - 1 };
            let b0 = if b < j { b } else { b - 1 };
            if a == j {
                assert(s.contains(s[b0]));
            } else if b == j {
                assert(s.contains(s[a0]));
            } else {
                assert(s[a0] != s[b0]);
            }
        }
    }
}

/// Whether a move of value `a` stands behind a move of value `x` in the order.
pub open spec fn spec_ranks_after(a: i16, x: i16, descending: bool) -> bool {
    if descending {
        a < x
    } else {
        a > x
    }
}

fn ranks_after(a: i16, x: i16, descending: bool) -> (r: bool)
    ensures
        r == spec_ranks_after(a, x, descending),
{
    if descending {
        a < x
    } else {
        a > x
    }
}

/// Number of the first `n` moves of `s` that do not stand behind a move of value `x`.
pub open spec fn count_before(s: Seq<Move>, x: i16, descending: bool, n: int) -> int
    decreases n,
{
    if n <= 0 {
        0
    } else {
        count_before(s, x, descending, n - 1) + if spec_ranks_after(s[n - 1].val, x, descending) {
            0int
        } else {
            1int
        }
    }
}

/// The first `n` moves of `v` in the order of their values: each move in its turn is put
/// behind the moves that do not stand behind it.
pub open spec fn sorted_upto(v: Seq<Move>, descending: bool, n: int) -> Seq<Move>
    decreases n,
{
    if n <= 0 {
        Seq::<Move>::empty()
    } else {
        let s = sorted_upto(v, descending, n - 1);
        s.insert(count_before(s, v[n - 1].val, descending, s.len() as int), v[n - 1])
    }
}

/// The moves of `v` in the order of their values, moves of one value in the order that they
/// had.
pub open spec fn spec_sort(v: Seq<Move>, descending: bool) -> Seq<Move> {
    sorted_upto(v, descending, v.len() as int)
}

/// Where the moves that do not stand behind a value come first and are `j`, they are counted
/// as `j`.
pub proof fn lemma_count_before(s: Seq<Move>, x: i16, descending: bool, j: int, n: int)
    requires
        0 <= j <= s.len(),
        0 <= n <= s.len(),
        forall|k: int| 0 <= k < j ==> !spec_ranks_after((#[trigger] s[k]).val, x, descending),
        forall|k: int| j <= k < s.len() ==> spec_ranks_after((#[trigger] s[k]).val, x, descending),
    ensures
        count_before(s, x, descending, n) == if n <= j {
            n
        } else {
            j
        },
    decreases n,
{
    if n > 0 {
        lemma_count_before(s, x, descending, j, n - 1);
    }
}

/// The moves of `v` in the order of their values, from the highest down (`descending`) or from
/// the lowest up. Moves of one value keep the order that they had.
pub fn sort_moves(v: &Vec<Move>, descending: bool) -> (out: Vec<Move>)
    ensures
        out@ == spec_sort(v@, descending),
        out@.len() == v@.len(),
        out@.to_multiset() == v@.to_multiset(),
        sorted_by_val(out@, descending),
        forall|m: Move| #[trigger] out@.contains(m) <==> v@.contains(m),
        v@.no_duplicates() ==> out@.no_duplicates(),
{
    let mut out: Vec<Move> = Vec::with_capacity(v.len());
    let mut i: usize = 0;
    proof {
        assert(v@.subrange(0, 0) =~= out@);
    }
    while i < v.len()
        invariant
            i <= v.len(),
            v@.no_duplicates() ==> out@.no_duplicates(),
            out@.to_multiset() == v@.subrange(0, i as int).to_multiset(),
            out@.len() == i,
            out@ == sorted_upto(v@, descending, i as int),
            forall|m: Move| #[trigger]
                out@.contains(m) <==> exists|k: int| 0 <= k < i && #[trigger] v@[k] == m,
            sorted_by_val(out@, descending),
        decreases v.len() - i,
    {
        let x = v[i];
        let mut j: usize = 0;
        let mut hi: usize = out.len();
        while j < hi
            invariant
                j <= hi <= out.len(),
                sorted_by_val(out@, descending),
                forall|k: int|
                    0 <= k < j ==> !spec_ranks_after((#[trigger] out@[k]).val, x.val, descending),
                forall|k: int|
                    hi <= k < out.len() ==> spec_ranks_after(
                        (#[trigger] out@[k]).val,
                        x.val,
                        descending,
                    ),
            decreases hi - j,
        {
            let mid = j + (hi - j) / 2;
            if ranks_after(out[mid].val, x.val, descending) {
                hi = mid;
            } else {
                j = mid + 1;
            }
        }
        proof {
            lemma_count_before(out@, x.val, descending, j as int, out@.len() as int);
            lemma_insert_contains(out@, j as int, x);
            if v@.no_duplicates() && out@.contains(x) {
                let k = choose|k: int| 0 <= k < i && #[trigger] v@[k] == x;
                assert(v@[k] == v@[i as int]);
            }
        }
        let ghost before = out@;
        out.insert(j, x);
        proof {
            assert(v@.subrange(0, i as int + 1) =~= v@.subrange(0, i as int).push(x));
            vstd::seq_lib::to_multiset_build(v@.subrange(0, i as int), x);
            vstd::seq_lib::to_multiset_insert(before, j as int, x);
            assert forall|m: Move| #[trigger]
                out@.contains(m) <==> exists|k: int| 0 <= k < i + 1 && #[trigger] v@[k] == m by {
                if out@.contains(m) {
                    if m == x {
                        assert(v@[i as int] == m);
                    } else {
                        assert(before.contains(m));
                        let k = choose|k: int| 0 <= k < i && #[trigger] v@[k] == m;
                        assert(0 <= k < i + 1 && v@[k] == m);
                    }
                }
                if exists|k: int| 0 <= k < i + 1 && #[trigger] v@[k] == m {
                    let k = choose|k: int| 0 <= k < i + 1 && #[trigger] v@[k] == m;
                    if k < i {
                        assert(before.contains(m));
                    }
                }
            }
            assert forall|a: int, b: int| 0 <= a < b < out@.len() implies if descending {
                #[trigger] out@[a].val >= #[trigger] out@[b].val
            } else {
                out@[a].val <= out@[b].val
            } by {
                let a0 = if a < j { a } else { a - 1 };
                let b0 = if b < j { b } else { b - 1 };
                if a == j {
                    assert(before[b0] == out@[b]);
                } else if b == j {
                    assert(before[a0] == out@[a]);
                } else {
                    assert(before[a0] == out@[a] && before[b0] == out@[b]);
                }
            }
        }
        i = i + 1;
    }
    proof {
        assert(v@.subrange(0, v@.len() as int) =~= v@);
        assert forall|m: Move| #[trigger] out@.contains(m) <==> v@.contains(m) by {
            if v@.contains(m) {
                let k = choose|k: int| 0 <= k < v@.len() && v@[k] == m;
                assert(0 <= k < i && v@[k] == m);
            }
        }
    }
    out
}

/// Whether `m` is a pseudo-legal move of the side to move in `pos` after the move `last`.
pub open spec fn pseudo_legal_in(pos: Position, last: Move, m: Move) -> bool {
    pseudo_legal(
        pos.board,
        pos.colour,
        pos.end_game,
        pos.can_castle,
        spec_in_check(pos.board, pos.colour),
        last,
        m,
    )
}

/// Whether `m` is a legal move in `pos` after the move `last`: a pseudo-legal move after which
/// the side that made it is not in check.
pub open spec fn legal_in(pos: Position, last: Move, m: Move) -> bool {
    pseudo_legal_in(pos, last, m) && !spec_in_check(
        board_after(pos.board, pos.colour, m),
        pos.colour,
    )
}

/// The pseudo-legal moves of the side to move in `pos` after the move `last`, in the order of
/// their values: from the highest down where White is to move, from the lowest up where Black
/// is, moves of one value in the order in which they are generated.
pub open spec fn spec_moves(pos: Position, last: Move) -> Seq<Move> {
    spec_sort(
        all_moves(
            pos.board,
            pos.colour,
            pos.end_game,
            pos.can_castle,
            spec_in_check(pos.board, pos.colour),
            last,
            64,
        ),
        pos.colour,
    )
}

/// The legal moves among the first `n` moves of `list`, in their order.
pub open spec fn legal_upto(pos: Position, last: Move, list: Seq<Move>, n: int) -> Seq<Move>
    decreases n,
{
    if n <= 0 {
        Seq::<Move>::empty()
    } else if legal_in(pos, last, list[n - 1]) {
        legal_upto(pos, last, list, n - 1).push(list[n - 1])
    } else {
        legal_upto(pos, last, list, n - 1)
    }
}

/// The legal moves of the side to move in `pos` after the move `last`, in the order of
/// `spec_moves`.
pub open spec fn spec_legal_moves(pos: Position, last: Move) -> Seq<Move> {
    legal_upto(pos, last, spec_moves(pos, last), spec_moves(pos, last).len() as int)
}

/// The count `a` of the moves generated after `n` more, which stays at the largest number
/// once it is reached.
pub open spec fn count_more(a: usize, n: int) -> usize {
    if a + n <= usize::MAX {
        (a + n) as usize
    } else {
        usize::MAX
    }
}

impl Game {
    /// Whether the side `colour` is in check: whether some piece of the other side attacks its
    /// king, a sliding piece as far as the first occupied square of its line.
    pub fn in_check(&self, colour: bool) -> (r: bool)
        requires
            self.wf(),
        ensures
            r == spec_in_check(self@.board, colour),
    {
        let (own, other) = if colour {
            (self.bm_white, self.bm_black)
        } else {
            (self.bm_black, self.bm_white)
        };
        let king = self.bm_kings & own;
        let all = self.bm_white | self.bm_black;
        proof {
            lemma_board_masks(self.board@);
            assert forall|i: int| 0 <= i < 64 implies #[trigger] bit(king, i) == (self.board@[i]
                == Piece::King(colour)) by {
                lemma_bit_and(self.bm_kings, own, i);
            }
        }
        crate::mgen::in_check(&self.tables, &self.board, colour, king, all, other)
    }

    /// The pseudo-legal moves of the side to move after the move `last`, ordered by their
    /// values: from the highest down where White is to move, from the lowest up where Black
    /// is. Their number is added to the count of the moves generated.
    pub fn moves(&mut self, last: Option<&Move>) -> (v: Vec<Move>)
        requires
            old(self).wf(),
        ensures
            final(self).wf(),
            final(self)@ == old(self)@,
            final(self).table() == old(self).table(),
            final(self).searched() == count_more(old(self).searched(), v@.len() as int),
            v@ == spec_moves(old(self)@, last_or_null(last)),
            v@.no_duplicates(),
            forall|m: Move| #[trigger]
                v@.contains(m) <==> pseudo_legal_in(old(self)@, last_or_null(last), m),
            sorted_by_val(v@, old(self)@.colour),
    {
        proof {
            lemma_board_masks(self.board@);
        }
        let colour = self.colour;
        let in_check = self.in_check(colour);
        let list = crate::mgen::moves(
            &self.tables,
            &self.board,
            colour,
            in_check,
            self.end_game,
            &self.can_castle,
            last,
            self.bm_white,
            self.bm_black,
        );
        let sorted = sort_moves(&list, colour);
        let n = sorted.len();
        self.n_searched = if self.n_searched <= usize::MAX - n {
            self.n_searched + n
        } else {
            usize::MAX
        };
        proof {
            assert(self@ == old(self)@);
            assert(self.table() == old(self).table());
        }
        sorted
    }

    /// Whether the pseudo-legal move `m` is legal: whether it leaves the side that makes it out
    /// of check. The game is left as it was.
    pub fn legal_move(&mut self, m: &Move) -> (r: bool)
        requires
            old(self).wf(),
            old(self)@.admits(*m),
            old(self)@.undo.len() < MAX_HISTORY,
        ensures
            final(self).wf(),
            final(self)@ == old(self)@,
            final(self).table() == old(self).table(),
            final(self).searched() == old(self).searched(),
            r == !spec_in_check(board_after(old(self)@.board, old(self)@.colour, *m), old(self)@.colour),
    {
        let colour = self.colour;
        proof {
            lemma_update_backdate(self@, *m);
        }
        self.update(m);
        let flag = self.in_check(colour);
        self.backdate(m);
        !flag
    }

    /// The legal moves of the side to move after the move `last`: the pseudo-legal moves after
    /// which that side is not in check, in the order of `moves`.
    pub fn legal_moves(&mut self, last: Option<&Move>) -> (v: Vec<Move>)
        requires
            old(self).wf(),
            old(self)@.undo.len() < MAX_HISTORY,
        ensures
            final(self).wf(),
            final(self)@ == old(self)@,
            final(self).table() == old(self).table(),
            final(self).searched() == count_more(
                old(self).searched(),
                spec_moves(old(self)@, last_or_null(last)).len() as int,
            ),
            v@ == spec_legal_moves(old(self)@, last_or_null(last)),
            v@.no_duplicates(),
            forall|m: Move| #[trigger] v@.contains(m) <==> legal_in(old(self)@, last_or_null(last), m),
            sorted_by_val(v@, old(self)@.colour),
    {
        let all = self.moves(last);
        let ghost counted = self.searched();
        let ghost pos = self@;
        let ghost lm = last_or_null(last);
        let mut v: Vec<Move> = Vec::with_capacity(all.len());
        let mut i: usize = 0;
        while i < all.len()
            invariant
                i <= all.len(),
                self.wf(),
                self@ == pos,
                pos.undo.len() < MAX_HISTORY,
                self.table() == old(self).table(),
                self.searched() == counted,
                v@ == legal_upto(pos, lm, all@, i as int),
                all@.no_duplicates(),
                forall|m: Move| #[trigger] all@.contains(m) <==> pseudo_legal_in(pos, lm, m),
                sorted_by_val(all@, pos.colour),
                v@.no_duplicates(),
                forall|m: Move| #[trigger]
                    v@.contains(m) <==> exists|k: int|
                        0 <= k < i && #[trigger] all@[k] == m && legal_in(pos, lm, m),
                sorted_by_val(v@, pos.colour),
                forall|a: int|
                    0 <= a < v@.len() ==> if pos.colour {
                        i < all@.len() ==> (#[trigger] v@[a]).val >= all@[i as int].val
                    } else {
                        i < all@.len() ==> v@[a].val <= all@[i as int].val
                    },
            decreases all.len() - i,
        {
            let m = all[i];
            proof {
                assert(all@.contains(m));
                lemma_pseudo_legal_admits(pos, spec_in_check(pos.board, pos.colour), lm, m);
            }
            let ok = self.legal_move(&m);
            let ghost before = v@;
            if ok {
                proof {
                    if before.contains(m) {
                        let k = choose|k: int|
                            0 <= k < i && #[trigger] all@[k] == m && legal_in(pos, lm, m);
                        assert(all@[k] == all@[i as int]);
                    }
                }
                v.push(m);
                proof {
                    assert forall|a: int, b: int|
                        0 <= a < v@.len() && 0 <= b < v@.len() && a != b implies v@[a] != v@[b] by {
                        if a < before.len() && b < before.len() {
                            assert(before[a] != before[b]);
                        } else if a < before.len() {
                            assert(before.contains(before[a]));
                        } else {
                            assert(before.contains(before[b]));
                        }
                    }
                }
            }
            proof {
                assert forall|x: Move| #[trigger]
                    v@.contains(x) <==> exists|k: int|
                        0 <= k < i + 1 && #[trigger] all@[k] == x && legal_in(pos, lm, x) by {
                    if v@.contains(x) {
                        let a = choose|a: int| 0 <= a < v@.len() && v@[a] == x;
                        if a < before.len() {
                            assert(before.contains(x));
                            let k = choose|k: int|
                                0 <= k < i && #[trigger] all@[k] == x && legal_in(pos, lm, x);
                            assert(0 <= k < i + 1 && all@[k] == x && legal_in(pos, lm, x));
                        } else {
                            assert(all@[i as int] == x);
                        }
                    }
                    if exists|k: int|
                        0 <= k < i + 1 && #[trigger] all@[k] == x && legal_in(pos, lm, x) {
                        let k = choose|k: int|
                            0 <= k < i + 1 && #[trigger] all@[k] == x && legal_in(pos, lm, x);
                        if k < i {
                            assert(before.contains(x));
                            let a = choose|a: int| 0 <= a < before.len() && before[a] == x;
                            assert(v@[a] == x);
                        } else {
                            assert(v@[v@.len() - 1] == x);
                        }
                    }
                }
            }
            i = i + 1;
        }
        proof {
            assert forall|m: Move| #[trigger] v@.contains(m) <==> legal_in(pos, lm, m) by {
                if legal_in(pos, lm, m) {
                    assert(all@.contains(m));
                    let k = choose|k: int| 0 <= k < all@.len() && all@[k] == m;
                    assert(0 <= k < i && all@[k] == m && legal_in(pos, lm, m));
                }
            }
        }
        v
    }
}

/// Deepest ply of a search. Beyond it a position is scored as it stands.
pub const MAX_PLY: usize = 512;

/// Largest magnitude of a static evaluation. Every mate score lies beyond it.
pub const EVAL_LIMIT: i16 = 9400;

/// Mobility of a board: the number of moves of White less that of Black, castling and en
/// passant aside and whoever is to move.
pub open spec fn spec_mobility(board: Seq<Piece>) -> int {
    mobility_below(board, true, 64) - mobility_below(board, false, 64)
}

/// `x` brought into the range from `-limit` to `limit`.
pub open spec fn clamp(x: int, limit: int) -> int {
    if x > limit {
        limit
    } else if x < -limit {
        -limit
    } else {
        x
    }
}

/// Static evaluation of a position for the side `colour`: material, pawn structure and
/// mobility, counted for White, kept within the limit, and negated for Black.
pub open spec fn spec_eval(pos: Position, colour: bool) -> int {
    let s = clamp(
        pos.material + spec_pawn_structure(pos.board) + spec_mobility(pos.board),
        EVAL_LIMIT as int,
    );
    if colour {
        s
    } else {
        -s
    }
}

/// The kind of bound that a score is, searched with the window from `alpha` to `beta`: an
/// upper bound where it does not exceed `alpha`, else a lower bound where it reaches `beta`,
/// else exact.
pub open spec fn bound_of(score: i16, alpha: i16, beta: i16) -> BType {
    if score <= alpha {
        BType::Upper
    } else if score >= beta {
        BType::Lower
    } else {
        BType::Exact
    }
}

/// Fail high and fail low: a score stored as lower bound reaches `beta`, one stored as upper
/// bound does not exceed `alpha`, and one stored as exact lies strictly between the two.
pub proof fn lemma_bound_of(score: i16, alpha: i16, beta: i16)
    ensures
        bound_of(score, alpha, beta) == BType::Lower ==> score >= beta && score > alpha,
        bound_of(score, alpha, beta) == BType::Upper ==> score <= alpha,
        bound_of(score, alpha, beta) == BType::Exact ==> alpha < score < beta,
{
}

/// The table after an entry was offered for `key`: an entry that is there stays unless the new
/// one was searched strictly deeper.
pub open spec fn table_after(table: Map<u64, TTable>, key: u64, e: TTable) -> Map<u64, TTable> {
    if table.contains_key(key) && table[key].depth >= e.depth {
        table
    } else {
        table.insert(key, e)
    }
}

/// The table that keeps the entry of `key` alone.
pub open spec fn table_cleared(table: Map<u64, TTable>, key: u64) -> Map<u64, TTable> {
    if table.contains_key(key) {
        Map::<u64, TTable>::empty().insert(key, table[key])
    } else {
        Map::<u64, TTable>::empty()
    }
}

/// Why a move could not be made.
#[derive(Clone, Copy, Debug, PartialEq, Eq, Structural)]
pub enum GameError {
    /// The move is not among the legal moves of the position.
    IllegalMove,
    /// The undo log is full.
    Overflow,
}

/// Whether the move `x` cannot be taken back within the rules of repetition: a capture, a
/// capture en passant, or a move of a pawn.
pub open spec fn irreversible(pos: Position, x: Move) -> bool {
    x.spec_en_passant() || pos.board[x.spec_to()] != Piece::Nil || pos.board[x.spec_frm()] is Pawn
}

/// Whether the end game has begun: the absolute material is less than a third of that of the
/// starting position.
pub open spec fn spec_end_game(board: Seq<Piece>) -> bool {
    spec_abs_material(board) < END_GAME_MATERIAL / 3
}

/// The position after the move `x` of the game. Before an irreversible move the counts of
/// repetition start again from the position that is left.
pub open spec fn made(pos: Position, x: Move) -> Position {
    let start = if irreversible(pos, x) {
        Position {
            rep: Map::<u64, usize>::empty().insert(pos.hash, 1usize),
            rep_base: pos.undo.len() as usize,
            ..pos
        }
    } else {
        pos
    };
    let next = start.after(x);
    let end_game = spec_end_game(next.board);
    Position {
        end_game,
        material: spec_material(next.board, end_game) as i16,
        half_move_clock: if irreversible(pos, x) {
            0
        } else {
            (pos.half_move_clock + 1) as usize
        },
        full_move_count: if pos.colour {
            pos.full_move_count
        } else {
            (pos.full_move_count + 1) as usize
        },
        last: x,
        ..next
    }
}

impl Game {
    /// Mobility: the number of moves of White less that of Black.
    pub fn mobility(&self) -> (n: i16)
        requires
            self.wf(),
        ensures
            n == spec_mobility(self@.board),
    {
        proof {
            lemma_board_masks(self.board@);
        }
        let w = count_moves(&self.tables, &self.board, true, self.bm_white, self.bm_black);
        let b = count_moves(&self.tables, &self.board, false, self.bm_white, self.bm_black);
        w as i16 - b as i16
    }

    /// Score of the pawn structure, for White.
    pub fn score_pawn_structure(&self) -> (n: i16)
        requires
            self.wf(),
        ensures
            n == spec_pawn_structure(self@.board),
    {
        pawn_structure(&self.board)
    }

    /// Static evaluation for the side `colour`.
    pub fn eval(&self, colour: bool) -> (score: i16)
        requires
            self.wf(),
        ensures
            score == spec_eval(self@, colour),
            -EVAL_LIMIT <= score <= EVAL_LIMIT,
    {
        let sum: i32 = self.material as i32 + self.score_pawn_structure() as i32
            + self.mobility() as i32;
        let s: i16 = if sum > EVAL_LIMIT as i32 {
            EVAL_LIMIT
        } else if sum < -(EVAL_LIMIT as i32) {
            -EVAL_LIMIT
        } else {
            sum as i16
        };
        if colour {
            s
        } else {
            -s
        }
    }

    /// Whether the end game's king table is in use.
    pub fn is_end_game(&self) -> (r: bool)
        ensures
            r == self@.end_game,
    {
        self.end_game
    }

    /// Half moves since the last irreversible move of the game.
    pub fn half_moves(&self) -> (n: usize)
        ensures
            n == self@.half_move_clock,
    {
        self.half_move_clock
    }

    /// Number of the move of the game.
    pub fn full_moves(&self) -> (n: usize)
        ensures
            n == self@.full_move_count,
    {
        self.full_move_count
    }

    /// The last move of the game; the null move where none was made.
    pub fn last_move(&self) -> (m: Move)
        ensures
            m == self@.last,
    {
        self.last
    }

    /// Whether fifty moves of each side have passed since the last irreversible move.
    pub fn check_50_move_rule(&self) -> (r: bool)
        ensures
            r == (self@.half_move_clock >= 100),
    {
        self.half_move_clock >= 100
    }

    /// Whether the position is quiet after the move `last`: it is unless `last` brought a pawn
    /// to the rank before its promotion.
    pub fn is_quiescent(&self, last: &Move) -> (r: bool)
        requires
            self.wf(),
        ensures
            r == !(self@.board[last.spec_to()] == Piece::Pawn(true) && last.spec_to() % 8 == 6
                || self@.board[last.spec_to()] == Piece::Pawn(false) && last.spec_to() % 8 == 1),
    {
        match self.board[last.to()] {
            Piece::Pawn(c) => if c {
                last.to() % 8 != 6
            } else {
                last.to() % 8 != 1
            },
            _ => true,
        }
    }

    /// The entry of the transposition table for the current position.
    pub fn ttable_get(&self) -> (e: Option<TTable>)
        ensures
            e == if self.table().contains_key(self@.hash) {
                Some(self.table()[self@.hash])
            } else {
                None
            },
    {
        broadcast use vstd::std_specs::hash::group_hash_axioms;

        match self.ttable.get(&self.hash) {
            Some(e) => Some(*e),
            None => None,
        }
    }

    /// Empties the transposition table but for the entry of the current position.
    pub fn ttable_clear(&mut self)
        ensures
            final(self)@ == old(self)@,
            final(self).table() == table_cleared(old(self).table(), old(self)@.hash),
            final(self).searched() == old(self).searched(),
            old(self).wf() ==> final(self).wf(),
    {
        broadcast use vstd::std_specs::hash::group_hash_axioms;

        let kept = self.ttable_get();
        self.ttable.clear();
        match kept {
            Some(e) => {
                self.ttable.insert(self.hash, e);
            },
            None => {},
        }
        proof {
            assert(self.table() == table_cleared(old(self).table(), old(self)@.hash));
            assert(self@ == old(self)@);
        }
    }

    /// Starts the counts of repetition again: the current position has occurred once.
    pub fn rep_clear(&mut self)
        ensures
            final(self)@ == (Position {
                rep: Map::<u64, usize>::empty().insert(old(self)@.hash, 1usize),
                rep_base: old(self)@.undo.len() as usize,
                ..old(self)@
            }),
            final(self).table() == old(self).table(),
            final(self).searched() == old(self).searched(),
            old(self).wf() ==> final(self).wf(),
    {
        broadcast use vstd::std_specs::hash::group_hash_axioms;

        self.rep.clear();
        self.rep.insert(self.hash, 1);
        self.rep_base = self.log_bms.len();
        proof {
            assert(self.table() == old(self).table());
            if old(self).wf() {
                assert forall|k: u64| #[trigger] rep_of(self@.rep, k) == occurrences(self@, k) by {
                    lemma_seen(
                        self@.undo,
                        self@.undo,
                        self@.rep_base as int,
                        self@.undo.len() as int,
                        k,
                    );
                }
            }
        }
    }

    /// Offers the score of the current position to the transposition table, with the depth of
    /// its search, the window that it was searched with, and the best move. The bound is an
    /// upper one where the score does not exceed `alpha`, else a lower one where it reaches
    /// `beta`, else exact. An entry that is there stays unless the new one is strictly deeper.
    pub fn ttstore(&mut self, depth: usize, score: i16, alpha: i16, beta: i16, m: &Move)
        requires
            old(self).wf(),
            -crate::INFINITE <= score <= crate::INFINITE,
        ensures
            final(self).wf(),
            final(self)@ == old(self)@,
            final(self).searched() == old(self).searched(),
            final(self).table() == table_after(
                old(self).table(),
                old(self)@.hash,
                TTable { depth, score, m: *m, bound: bound_of(score, alpha, beta) },
            ),
    {
        broadcast use vstd::std_specs::hash::group_hash_axioms;

        let e = TTable {
            depth,
            score,
            bound: if score <= alpha {
                BType::Upper
            } else if score >= beta {
                BType::Lower
            } else {
                BType::Exact
            },
            m: *m,
        };
        let keep = match self.ttable.get(&self.hash) {
            Some(x) => x.depth >= depth,
            None => false,
        };
        if !keep {
            self.ttable.insert(self.hash, e);
        }
        proof {
            assert(self@ == old(self)@);
            assert(self.table() == table_after(old(self).table(), old(self)@.hash, e));
        }
    }

    /// What the last search reported of each depth; empty unless it was asked to report.
    pub closed spec fn traced(&self) -> Seq<Progress> {
        self.trace@
    }

    /// What the last search reported of each depth.
    pub fn trace(&self) -> (t: Vec<Progress>)
        ensures
            t@ == self.traced(),
    {
        self.trace.clone()
    }

    /// Replaces the report of the last search.
    pub(crate) fn set_trace(&mut self, t: Vec<Progress>)
        ensures
            final(self)@ == old(self)@,
            final(self).table() == old(self).table(),
            final(self).searched() == old(self).searched(),
            final(self).traced() == t@,
            old(self).wf() ==> final(self).wf(),
    {
        self.trace = t;
        proof {
            assert(self.table() == old(self).table());
        }
    }

    /// Sets the count of the moves generated to zero.
    pub fn reset_searched(&mut self)
        ensures
            final(self)@ == old(self)@,
            final(self).table() == old(self).table(),
            final(self).searched() == 0,
            old(self).wf() ==> final(self).wf(),
    {
        self.n_searched = 0;
        proof {
            assert(self.table() == old(self).table());
        }
    }

    /// Makes the move of the game whose packed bits are those of `m`, if it is legal after the
    /// last move of the game. An irreversible move starts the counts of repetition again; the
    /// transposition table is emptied but for the entry of the position that is left; the end
    /// game begins when the absolute material falls below its threshold.
    pub fn make_move(&mut self, m: Move) -> (r: Result<(), GameError>)
        requires
            old(self).wf(),
        ensures
            final(self).wf(),
            match r {
                Ok(_) => {
                    &&& old(self)@.undo.len() < MAX_HISTORY
                    &&& exists|x: Move|
                        x.data == m.data && #[trigger] legal_in(old(self)@, old(self)@.last, x)
                            && final(self)@ == made(old(self)@, x)
                    &&& final(self).table() == table_cleared(old(self).table(), old(self)@.hash)
                },
                Err(GameError::Overflow) => {
                    &&& old(self)@.undo.len() >= MAX_HISTORY
                    &&& final(self)@ == old(self)@
                    &&& final(self).table() == old(self).table()
                    &&& final(self).searched() == old(self).searched()
                },
                Err(GameError::IllegalMove) => {
                    &&& old(self)@.undo.len() < MAX_HISTORY
                    &&& forall|x: Move|
                        x.data == m.data ==> !#[trigger] legal_in(old(self)@, old(self)@.last, x)
                    &&& final(self)@ == old(self)@
                    &&& final(self).table() == old(self).table()
                },
            },
            old(self)@.undo.len() < MAX_HISTORY ==> final(self).searched() == count_more(
                old(self).searched(),
                spec_moves(old(self)@, old(self)@.last).len() as int,
            ),
    {
        if self.log_bms.len() >= MAX_HISTORY {
            return Err(GameError::Overflow);
        }
        let last = self.last;
        let legal = self.legal_moves(Some(&last));
        let ghost pos = self@;
        match find_by_data(&legal, m.data) {
            None => {
                proof {
                    assert forall|x: Move| x.data == m.data implies !#[trigger] legal_in(
                        pos,
                        last,
                        x,
                    ) by {
                        if legal_in(pos, last, x) {
                            assert(legal@.contains(x));
                        }
                    }
                }
                Err(GameError::IllegalMove)
            },
            Some(x) => {
                proof {
                    assert(legal@.contains(x));
                    assert(legal_in(pos, last, x));
                    lemma_pseudo_legal_admits(pos, spec_in_check(pos.board, pos.colour), last, x);
                }
                self.play(x);
                Ok(())
            },
        }
    }

    /// Makes the move `x` of the game; see [`made`].
    fn play(&mut self, x: Move)
        requires
            old(self).wf(),
            old(self)@.admits(x),
            old(self)@.undo.len() < MAX_HISTORY,
        ensures
            final(self).wf(),
            final(self)@ == made(old(self)@, x),
            final(self).table() == table_cleared(old(self).table(), old(self)@.hash),
            final(self).searched() == old(self).searched(),
    {
        let ghost pos = self@;
        let frm = x.frm();
        let to = x.to();
        let pawn = match self.board[frm] {
            Piece::Pawn(_) => true,
            _ => false,
        };
        let lasting = x.en_passant() || !self.board[to].is_nil() || pawn;
        if lasting {
            self.rep_clear();
        }
        self.ttable_clear();
        let white = self.colour;
        let ghost start = self@;
        self.update(&x);
        let ghost next = self@;
        self.end_game = abs_material(&self.board) < END_GAME_MATERIAL / 3;
        self.material = material_in(&self.board, self.end_game);
        self.half_move_clock = if lasting {
            0
        } else {
            self.half_move_clock + 1
        };
        if !white {
            self.full_move_count = self.full_move_count + 1;
        }
        self.last = x;
        proof {
            assert(next == start.after(x));
            assert(self@ == made(pos, x));
            assert(self.table() == table_cleared(old(self).table(), old(self)@.hash));
            assert(self@.wf());
        }
    }
}

/// The first move of the list whose packed bits are `data`.
fn find_by_data(list: &Vec<Move>, data: u16) -> (r: Option<Move>)
    ensures
        match r {
            Some(x) => x.data == data && list@.contains(x),
            None => forall|x: Move| #[trigger] list@.contains(x) ==> x.data != data,
        },
{
    let mut i: usize = 0;
    while i < list.len()
        invariant
            i <= list.len(),
            forall|k: int| 0 <= k < i ==> (#[trigger] list@[k]).data != data,
        decreases list.len() - i,
    {
        if list[i].data == data {
            assert(list@.contains(list@[i as int]));
            return Some(list[i]);
        }
        i = i + 1;
    }
    None
}

} // verus!
