//! Move encoding and the pseudo-legal move generator.

use vstd::prelude::*;
use crate::bitmaps::{forward, reach, reaches, Reach, Tables};
use crate::bits::{
    bit, clear_bit, count_below, count_bits, lemma_bit_and, lemma_bit_not, lemma_bit_or,
    lemma_bit_shl1, lemma_bit_shr1, lemma_bit_zero, lemma_mask_of, lowest, mask_of, meets,
    set_bit,
};
use crate::val::Piece;

verus! {

// Bits 0-5 hold the origin, bits 6-11 the destination. Bit 12 marks castling, bit 13 en passant,
// bit 14 a promotion. In a promotion bits 15, 13 and 12 select rook, bishop and knight; none of
// them selects the queen.
pub const CASTLE_BIT: u16 = 0x1000;

pub const EN_PASSANT_BIT: u16 = 0x2000;

pub const TRANSFORM_BIT: u16 = 0x4000;

pub const ROOK_BIT: u16 = 0x8000;

pub const TO_SHIFT: u16 = 6;

pub const FRM_MASK: u16 = 0x3F;

pub const TO_MASK: u16 = 0xFC0;

/// A move packed into 16 bits, with the change of material that it brings.
#[derive(Clone, Copy, Debug, PartialEq, Eq, Structural)]
pub struct Move {
    pub data: u16,
    pub val: i16,
}

/// The flag bits that mark a promotion to `p`; none where `p` is no promotion piece.
pub open spec fn promo_bits(p: Piece) -> u16 {
    match p {
        Piece::Rook(_) => 0xC000,
        Piece::Knight(_) => 0x5000,
        Piece::Bishop(_) => 0x6000,
        Piece::Queen(_) => 0x4000,
        _ => 0,
    }
}

/// The flag bits of a move.
pub open spec fn flag_bits(castle: bool, en_passant: bool, p: Piece) -> u16 {
    (if castle { 0x1000u16 } else { 0u16 }) | (if en_passant { 0x2000u16 } else { 0u16 })
        | promo_bits(p)
}

/// The 16 bits of a move.
pub open spec fn spec_pack(castle: bool, en_passant: bool, p: Piece, frm: int, to: int) -> u16 {
    flag_bits(castle, en_passant, p) | (((to as u16) << 6u16) | (frm as u16))
}

impl Move {
    /// Origin square.
    pub open spec fn spec_frm(self) -> int {
        (self.data & 0x3Fu16) as int
    }

    /// Destination square.
    pub open spec fn spec_to(self) -> int {
        ((self.data & 0xFC0u16) >> 6u16) as int
    }

    /// Whether the move promotes a pawn.
    pub open spec fn spec_transform(self) -> bool {
        self.data & 0x4000u16 != 0
    }

    /// Whether the move castles.
    pub open spec fn spec_castle(self) -> bool {
        self.data & 0x1000u16 != 0 && !self.spec_transform()
    }

    /// Whether the move captures en passant.
    pub open spec fn spec_en_passant(self) -> bool {
        self.data & 0x2000u16 != 0 && !self.spec_transform()
    }

    /// The piece that a promotion of colour `colour` puts on the board.
    pub open spec fn spec_ptransform(self, colour: bool) -> Piece {
        if self.data & 0x8000u16 != 0 {
            Piece::Rook(colour)
        } else if self.data & 0x1000u16 != 0 {
            Piece::Knight(colour)
        } else if self.data & 0x2000u16 != 0 {
            Piece::Bishop(colour)
        } else {
            Piece::Queen(colour)
        }
    }
}

proof fn bv_fields(flags: u16, frm: u16, to: u16)
    by (bit_vector)
    requires
        flags & 0x0FFFu16 == 0,
        frm < 64,
        to < 64,
    ensures
        (flags | ((to << 6u16) | frm)) & 0x3Fu16 == frm,
        ((flags | ((to << 6u16) | frm)) & 0xFC0u16) >> 6u16 == to,
        (flags | ((to << 6u16) | frm)) & 0x1000u16 == flags & 0x1000u16,
        (flags | ((to << 6u16) | frm)) & 0x2000u16 == flags & 0x2000u16,
        (flags | ((to << 6u16) | frm)) & 0x4000u16 == flags & 0x4000u16,
        (flags | ((to << 6u16) | frm)) & 0x8000u16 == flags & 0x8000u16,
{
}

proof fn bv_flags(c: u16, e: u16, p: u16)
    by (bit_vector)
    requires
        c == 0 || c == 0x1000,
        e == 0 || e == 0x2000,
        p == 0 || p == 0x4000 || p == 0x5000 || p == 0x6000 || p == 0xC000,
    ensures
        (c | e | p) & 0x0FFFu16 == 0,
        ((c | e | p) & 0x1000u16 != 0) == (c != 0 || p == 0x5000),
        ((c | e | p) & 0x2000u16 != 0) == (e != 0 || p == 0x6000),
        ((c | e | p) & 0x4000u16 != 0) == (p != 0),
        ((c | e | p) & 0x8000u16 != 0) == (p == 0xC000),
{
}

proof fn bv_range(d: u16)
    by (bit_vector)
    ensures
        d & 0x3Fu16 < 64,
        (d & 0xFC0u16) >> 6u16 < 64,
{
}

/// What the fields of a packed move read back.
pub proof fn lemma_pack_fields(castle: bool, en_passant: bool, p: Piece, frm: int, to: int)
    requires
        0 <= frm < 64,
        0 <= to < 64,
    ensures
        ({
            let m = Move { data: spec_pack(castle, en_passant, p, frm, to), val: 0 };
            let promo = p is Rook || p is Knight || p is Bishop || p is Queen;
            &&& m.spec_frm() == frm
            &&& m.spec_to() == to
            &&& m.spec_transform() == promo
            &&& m.spec_castle() == (castle && !promo)
            &&& m.spec_en_passant() == (en_passant && !promo)
            &&& promo && !castle && !en_passant ==> forall|c: bool|
                (#[trigger] m.spec_ptransform(c)).side() == Some(c) && promo_bits(
                    m.spec_ptransform(c),
                ) == promo_bits(p)
        }),
{
    let c: u16 = if castle { 0x1000u16 } else { 0u16 };
    let e: u16 = if en_passant { 0x2000u16 } else { 0u16 };
    bv_flags(c, e, promo_bits(p));
    bv_fields(flag_bits(castle, en_passant, p), frm as u16, to as u16);
}

/// Both squares of any move lie on the board.
pub proof fn lemma_move_range(m: Move)
    ensures
        0 <= m.spec_frm() < 64,
        0 <= m.spec_to() < 64,
{
    bv_range(m.data);
}

/// Packs the fields of a move into 16 bits.
pub fn pack_data(castle: bool, en_passant: bool, ptransform: Piece, frm: usize, to: usize) -> (data:
    u16)
    requires
        frm < 64,
        to < 64,
    ensures
        data == spec_pack(castle, en_passant, ptransform, frm as int, to as int),
{
    let tbits: u16 = match ptransform {
        Piece::Rook(_) => 0xC000,
        Piece::Knight(_) => 0x5000,
        Piece::Bishop(_) => 0x6000,
        Piece::Queen(_) => 0x4000,
        _ => 0,
    };
    let c: u16 = if castle { 0x1000 } else { 0 };
    let e: u16 = if en_passant { 0x2000 } else { 0 };
    (c | e | tbits) | (((to as u16) << 6u16) | (frm as u16))
}

impl Move {
    /// A move without promotion and without a value.
    pub fn new(castle: bool, en_passant: bool, frm: usize, to: usize) -> (m: Move)
        requires
            frm < 64,
            to < 64,
        ensures
            m.data == spec_pack(castle, en_passant, Piece::Nil, frm as int, to as int),
            m.val == 0,
            m.spec_frm() == frm,
            m.spec_to() == to,
            m.spec_castle() == castle,
            m.spec_en_passant() == en_passant,
            !m.spec_transform(),
    {
        proof {
            lemma_pack_fields(castle, en_passant, Piece::Nil, frm as int, to as int);
        }
        Move { data: pack_data(castle, en_passant, Piece::Nil, frm, to), val: 0 }
    }

    /// Whether the move castles.
    #[inline]
    pub fn castle(&self) -> (r: bool)
        ensures
            r == self.spec_castle(),
    {
        self.data & CASTLE_BIT != 0 && !self.transform()
    }

    /// Whether the move captures en passant.
    #[inline]
    pub fn en_passant(&self) -> (r: bool)
        ensures
            r == self.spec_en_passant(),
    {
        (self.data & EN_PASSANT_BIT) != 0 && !self.transform()
    }

    /// The piece that a promotion of colour `colour` puts on the board.
    #[inline]
    pub fn ptransform(&self, colour: bool) -> (p: Piece)
        ensures
            p == self.spec_ptransform(colour),
            p.side() == Some(colour),
            p is Rook || p is Knight || p is Bishop || p is Queen,
    {
        if self.data & ROOK_BIT != 0 {
            Piece::Rook(colour)
        } else if self.data & CASTLE_BIT != 0 {
            Piece::Knight(colour)
        } else if self.data & EN_PASSANT_BIT != 0 {
            Piece::Bishop(colour)
        } else {
            Piece::Queen(colour)
        }
    }

    /// Whether the move promotes a pawn.
    #[inline]
    pub fn transform(&self) -> (r: bool)
        ensures
            r == self.spec_transform(),
    {
        self.data & TRANSFORM_BIT != 0
    }

    /// Origin square.
    #[inline]
    pub fn frm(&self) -> (r: usize)
        ensures
            r == self.spec_frm(),
            r < 64,
    {
        proof {
            lemma_move_range(*self);
        }
        (self.data & FRM_MASK) as usize
    }

    /// Destination square.
    #[inline]
    pub fn to(&self) -> (r: usize)
        ensures
            r == self.spec_to(),
            r < 64,
    {
        proof {
            lemma_move_range(*self);
        }
        ((self.data & TO_MASK) >> TO_SHIFT) as usize
    }
}

/// Origin square of packed move bits.
pub fn ext_frm(data: u16) -> (r: u8)
    ensures
        r == (Move { data, val: 0 }).spec_frm(),
        r < 64,
{
    proof {
        lemma_move_range(Move { data, val: 0 });
    }
    (data & FRM_MASK) as u8
}

/// Destination square of packed move bits.
pub fn ext_to(data: u16) -> (r: u8)
    ensures
        r == (Move { data, val: 0 }).spec_to(),
        r < 64,
{
    proof {
        lemma_move_range(Move { data, val: 0 });
    }
    ((data & TO_MASK) >> TO_SHIFT) as u8
}

/// The move from square 0 to square 0, which stands for "no move before this one".
pub open spec fn spec_null_move() -> Move {
    Move { data: 0, val: 0 }
}

/// The move from square 0 to square 0, which stands for "no move before this one".
pub fn null_move() -> (m: Move)
    ensures
        m == spec_null_move(),
{
    Move { data: 0, val: 0 }
}

/// File and rank of a square, the file counted from the a-file and the rank from the first.
pub fn i2xy(i: usize) -> (xy: (usize, usize))
    requires
        i < 64,
    ensures
        xy.0 == crate::val::file_of(i as int),
        xy.1 == crate::val::rank_of(i as int),
        xy.0 < 8,
        xy.1 < 8,
{
    let x = 7 - i / 8;
    let y = i % 8;
    (x, y)
}

/// Whether `occ` is the bitboard of the squares that hold a piece.
pub open spec fn is_occupancy(occ: u64, board: Seq<Piece>) -> bool {
    forall|i: int| 0 <= i < 64 ==> #[trigger] bit(occ, i) == (board[i] != Piece::Nil)
}

/// Whether `bm` is the bitboard of the squares that hold a piece of colour `c`.
pub open spec fn is_side_map(bm: u64, board: Seq<Piece>, c: bool) -> bool {
    forall|i: int| 0 <= i < 64 ==> #[trigger] bit(bm, i) == board[i].is_side(c)
}

/// Whether `bm` is the bitboard of the squares that hold a pawn of either colour.
pub open spec fn is_pawn_map(bm: u64, board: Seq<Piece>) -> bool {
    forall|i: int| 0 <= i < 64 ==> #[trigger] bit(bm, i) == (board[i] is Pawn)
}

/// Whether `bm` is the bitboard of the squares that hold a king of either colour.
pub open spec fn is_king_map(bm: u64, board: Seq<Piece>) -> bool {
    forall|i: int| 0 <= i < 64 ==> #[trigger] bit(bm, i) == (board[i] is King)
}

/// Whether `bm` is the bitboard of the squares that hold the king of colour `c`.
pub open spec fn is_king_of(bm: u64, board: Seq<Piece>, c: bool) -> bool {
    forall|i: int| 0 <= i < 64 ==> #[trigger] bit(bm, i) == (board[i] == Piece::King(c))
}

/// Whether a piece on a line of kind `rays` through `s` hides square `t` from `s`: some
/// occupied square of those lines has `t` behind it.
pub open spec fn blocked(board: Seq<Piece>, rays: Reach, s: int, t: int) -> bool {
    exists|b: int| #[trigger] shades(board, rays, s, b, t)
}

/// Whether the occupied square `b`, on a line of kind `rays` through `s`, has `t` behind it.
pub open spec fn shades(board: Seq<Piece>, rays: Reach, s: int, b: int, t: int) -> bool {
    0 <= b < 64 && reach(rays, s, b) && board[b] != Piece::Nil && reach(
        Reach::Beyond(s as usize),
        b,
        t,
    )
}

/// The lines along which a piece slides; `None` for a piece that does not slide.
pub open spec fn rays_of(p: Piece) -> Option<Reach> {
    match p {
        Piece::Rook(_) => Some(Reach::Rook),
        Piece::Bishop(_) => Some(Reach::Bishop),
        Piece::Queen(_) => Some(Reach::Queen),
        _ => None,
    }
}

/// Whether the piece on `from` attacks square `t`: a knight, king or pawn by its table, a
/// sliding piece along its lines as far as the first occupied square.
pub open spec fn attacks(board: Seq<Piece>, from: int, t: int) -> bool {
    match board[from] {
        Piece::Knight(_) => reach(Reach::Knight, from, t),
        Piece::King(_) => reach(Reach::King, from, t),
        Piece::Pawn(c) => reach(Reach::PawnCapture(c), from, t),
        Piece::Rook(_) => reach(Reach::Rook, from, t) && !blocked(board, Reach::Rook, from, t),
        Piece::Bishop(_) => reach(Reach::Bishop, from, t) && !blocked(
            board,
            Reach::Bishop,
            from,
            t,
        ),
        Piece::Queen(_) => reach(Reach::Queen, from, t) && !blocked(board, Reach::Queen, from, t),
        Piece::Nil => false,
    }
}

/// Whether the piece on `from` is of the other colour than `colour` and attacks a king of
/// `colour`.
pub open spec fn checks(board: Seq<Piece>, colour: bool, from: int) -> bool {
    0 <= from < 64 && board[from].is_side(!colour) && exists|k: int|
        0 <= k < 64 && board[k] == Piece::King(colour) && #[trigger] attacks(board, from, k)
}

/// Whether the side `colour` is in check: some piece of the other side attacks its king.
pub open spec fn spec_in_check(board: Seq<Piece>, colour: bool) -> bool {
    exists|from: int| #[trigger] checks(board, colour, from)
}

/// Whether square `i` holds a piece of colour `c`, as a function of `i`.
pub open spec fn side_pred(board: Seq<Piece>, c: bool) -> spec_fn(int) -> bool {
    |i: int| board[i].is_side(c)
}

/// Whether square `i` holds a pawn, as a function of `i`.
pub open spec fn pawn_pred(board: Seq<Piece>) -> spec_fn(int) -> bool {
    |i: int| board[i] is Pawn
}

/// Whether square `i` holds a king, as a function of `i`.
pub open spec fn king_pred(board: Seq<Piece>) -> spec_fn(int) -> bool {
    |i: int| board[i] is King
}

/// The bitboard of the pieces of colour `c`.
pub open spec fn side_mask(board: Seq<Piece>, c: bool) -> u64 {
    mask_of(side_pred(board, c), 64)
}

/// The bitboard of the pawns of both colours.
pub open spec fn pawn_mask_of(board: Seq<Piece>) -> u64 {
    mask_of(pawn_pred(board), 64)
}

/// The bitboard of the kings of both colours.
pub open spec fn king_mask_of(board: Seq<Piece>) -> u64 {
    mask_of(king_pred(board), 64)
}

/// The bitboards of a board hold the squares that their names say.
pub proof fn lemma_board_masks(board: Seq<Piece>)
    ensures
        is_side_map(side_mask(board, true), board, true),
        is_side_map(side_mask(board, false), board, false),
        is_pawn_map(pawn_mask_of(board), board),
        is_king_map(king_mask_of(board), board),
        is_occupancy(side_mask(board, true) | side_mask(board, false), board),
        side_mask(board, true) & side_mask(board, false) == 0,
{
    let w = side_mask(board, true);
    let b = side_mask(board, false);
    assert forall|i: int| 0 <= i < 64 implies #[trigger] bit(w, i) == board[i].is_side(true) by {
        lemma_mask_of(side_pred(board, true), 64, i);
    }
    assert forall|i: int| 0 <= i < 64 implies #[trigger] bit(b, i) == board[i].is_side(false) by {
        lemma_mask_of(side_pred(board, false), 64, i);
    }
    assert forall|i: int| 0 <= i < 64 implies #[trigger] bit(pawn_mask_of(board), i) == (board[i] is Pawn) by {
        lemma_mask_of(pawn_pred(board), 64, i);
    }
    assert forall|i: int| 0 <= i < 64 implies #[trigger] bit(king_mask_of(board), i) == (board[i] is King) by {
        lemma_mask_of(king_pred(board), 64, i);
    }
    assert forall|i: int| 0 <= i < 64 implies #[trigger] bit(w | b, i) == (board[i] != Piece::Nil) by {
        lemma_bit_or(w, b, i);
    }
    if w & b != 0 {
        crate::bits::lemma_nonzero_bit(w & b);
        let i = choose|i: int| bit(w & b, i);
        lemma_bit_and(w, b, i);
        lemma_mask_of(side_pred(board, true), 64, i);
        lemma_mask_of(side_pred(board, false), 64, i);
    }
}

/// The bitboards of the white and of the black pieces.
pub fn board2bm(board: &[Piece; 64]) -> (wb: (u64, u64))
    ensures
        wb.0 == side_mask(board@, true),
        wb.1 == side_mask(board@, false),
        is_side_map(wb.0, board@, true),
        is_side_map(wb.1, board@, false),
{
    let mut w: u64 = 0;
    let mut b: u64 = 0;
    let mut i: usize = 0;
    while i < 64
        invariant
            i <= 64,
            w == mask_of(side_pred(board@, true), i as int),
            b == mask_of(side_pred(board@, false), i as int),
        decreases 64 - i,
    {
        match board[i].colour() {
            Some(true) => { w = set_bit(w, i); },
            Some(false) => { b = set_bit(b, i); },
            None => {},
        }
        i = i + 1;
    }
    proof {
        lemma_board_masks(board@);
    }
    (w, b)
}

/// The bitboard of the pawns of both colours.
pub fn board2bm_pawns(board: &[Piece; 64]) -> (bm: u64)
    ensures
        bm == pawn_mask_of(board@),
        is_pawn_map(bm, board@),
{
    let mut bm: u64 = 0;
    let mut i: usize = 0;
    while i < 64
        invariant
            i <= 64,
            bm == mask_of(pawn_pred(board@), i as int),
        decreases 64 - i,
    {
        if let Piece::Pawn(_) = board[i] {
            bm = set_bit(bm, i);
        }
        i = i + 1;
    }
    proof {
        lemma_board_masks(board@);
    }
    bm
}

/// The bitboard of the kings of both colours.
pub fn board2bm_kings(board: &[Piece; 64]) -> (bm: u64)
    ensures
        bm == king_mask_of(board@),
        is_king_map(bm, board@),
{
    let mut bm: u64 = 0;
    let mut i: usize = 0;
    while i < 64
        invariant
            i <= 64,
            bm == mask_of(king_pred(board@), i as int),
        decreases 64 - i,
    {
        if let Piece::King(_) = board[i] {
            bm = set_bit(bm, i);
        }
        i = i + 1;
    }
    proof {
        lemma_board_masks(board@);
    }
    bm
}

/// The four bitboards of a board in one sweep: the white pieces, the black pieces, the pawns
/// and the kings.
pub fn board2bm_all(board: &[Piece; 64]) -> (bm: (u64, u64, u64, u64))
    ensures
        bm.0 == side_mask(board@, true),
        bm.1 == side_mask(board@, false),
        bm.2 == pawn_mask_of(board@),
        bm.3 == king_mask_of(board@),
{
    let mut w: u64 = 0;
    let mut b: u64 = 0;
    let mut p: u64 = 0;
    let mut k: u64 = 0;
    let mut i: usize = 0;
    while i < 64
        invariant
            i <= 64,
            w == mask_of(side_pred(board@, true), i as int),
            b == mask_of(side_pred(board@, false), i as int),
            p == mask_of(pawn_pred(board@), i as int),
            k == mask_of(king_pred(board@), i as int),
        decreases 64 - i,
    {
        let piece = board[i];
        match piece {
            Piece::Nil => {},
            _ => {
                let bit = 1u64 << (i as u64);
                match piece.colour() {
                    Some(true) => { w = w | bit; },
                    _ => { b = b | bit; },
                }
                match piece {
                    Piece::Pawn(_) => { p = p | bit; },
                    Piece::King(_) => { k = k | bit; },
                    _ => {},
                }
            },
        }
        i = i + 1;
    }
    (w, b, p, k)
}

/// The squares that a sliding piece on `frm` attacks along the lines `rays`: those of its
/// lines without what lies behind the first occupied square of each.
fn ray_targets(tables: &Tables, board: &[Piece; 64], frm: usize, rays: Reach, bm_board: u64) -> (bm:
    u64)
    requires
        tables.wf(),
        frm < 64,
        is_occupancy(bm_board, board@),
    ensures
        forall|t: int| #[trigger]
            bit(bm, t) == (reach(rays, frm as int, t) && !blocked(board@, rays, frm as int, t)),
{
    let lines = tables.mask(rays, frm);
    let mut blockers: u64 = lines & bm_board;
    let mut shade: u64 = 0;
    proof {
        assert forall|j: int| #[trigger]
            bit(blockers, j) == (reach(rays, frm as int, j) && board@[j] != Piece::Nil) by {
            lemma_bit_and(lines, bm_board, j);
        }
        assert forall|t: int| !bit(0u64, t) by {
            lemma_bit_zero(t);
        }
    }
    while blockers != 0
        invariant
            tables.wf(),
            frm < 64,
            forall|j: int| #[trigger]
                bit(blockers, j) ==> reach(rays, frm as int, j) && board@[j] != Piece::Nil,
            forall|t: int| #[trigger]
                bit(shade, t) == exists|b: int| #[trigger]
                    shades(board@, rays, frm as int, b, t) && !bit(blockers, b),
        decreases crate::bits::popcount(blockers),
    {
        let b: usize = lowest(blockers);
        let behind: u64 = tables.mask(Reach::Beyond(frm), b);
        let rest: u64 = clear_bit(blockers, b);
        let ghost old_shade = shade;
        shade = shade | behind;
        proof {
            crate::bits::lemma_count_without(blockers, rest, b as int, 64);
            crate::bits::lemma_count_bounds(rest, 64);
            assert forall|t: int| #[trigger]
                bit(shade, t) == exists|c: int| #[trigger]
                    shades(board@, rays, frm as int, c, t) && !bit(rest, c) by {
                lemma_bit_or(old_shade, behind, t);
                if bit(old_shade, t) {
                    let c = choose|c: int| #[trigger]
                        shades(board@, rays, frm as int, c, t) && !bit(blockers, c);
                    assert(shades(board@, rays, frm as int, c, t) && !bit(rest, c));
                } else if bit(behind, t) {
                    assert(shades(board@, rays, frm as int, b as int, t) && !bit(rest, b as int));
                } else {
                    assert forall|c: int| #[trigger]
                        shades(board@, rays, frm as int, c, t) implies bit(rest, c) by {
                        assert(bit(blockers, c));
                    }
                }
            }
        }
        blockers = rest;
    }
    let bm = lines & !shade;
    proof {
        assert forall|t: int| #[trigger]
            bit(bm, t) == (reach(rays, frm as int, t) && !blocked(board@, rays, frm as int, t)) by {
            lemma_bit_and(lines, !shade, t);
            lemma_bit_not(shade, t);
            if bit(shade, t) {
                let c = choose|c: int| #[trigger]
                    shades(board@, rays, frm as int, c, t) && !bit(blockers, c);
                assert(shades(board@, rays, frm as int, c, t));
            } else {
                assert forall|c: int| !#[trigger] shades(board@, rays, frm as int, c, t) by {
                    if shades(board@, rays, frm as int, c, t) {
                        lemma_bit_zero(c);
                    }
                }
            }
        }
    }
    bm
}

/// The squares that the piece on `frm` attacks.
fn attack_mask(tables: &Tables, board: &[Piece; 64], frm: usize, bm_board: u64) -> (bm: u64)
    requires
        tables.wf(),
        frm < 64,
        is_occupancy(bm_board, board@),
    ensures
        forall|t: int| #[trigger] bit(bm, t) == attacks(board@, frm as int, t),
{
    match board[frm] {
        Piece::Knight(_) => tables.mask(Reach::Knight, frm),
        Piece::King(_) => tables.mask(Reach::King, frm),
        Piece::Pawn(c) => tables.mask(Reach::PawnCapture(c), frm),
        Piece::Rook(_) => ray_targets(tables, board, frm, Reach::Rook, bm_board),
        Piece::Bishop(_) => ray_targets(tables, board, frm, Reach::Bishop, bm_board),
        Piece::Queen(_) => ray_targets(tables, board, frm, Reach::Queen, bm_board),
        Piece::Nil => {
            proof {
                assert forall|t: int| !bit(0u64, t) by {
                    lemma_bit_zero(t);
                }
            }
            0
        },
    }
}

/// Whether the sliding piece on `frm` attacks a square of `bm_king` along the lines `rays`.
fn ray_check(
    tables: &Tables,
    board: &[Piece; 64],
    frm: usize,
    rays: Reach,
    bm_board: u64,
    bm_king: u64,
) -> (r: bool)
    requires
        tables.wf(),
        frm < 64,
        is_occupancy(bm_board, board@),
    ensures
        r == exists|k: int|
            bit(bm_king, k) && reach(rays, frm as int, k) && !blocked(board@, rays, frm as int, k),
{
    if !meets(tables.mask(rays, frm), bm_king) {
        return false;
    }
    let targets = ray_targets(tables, board, frm, rays, bm_board);
    meets(targets, bm_king)
}

/// Whether the side `colour` is in check: whether a piece of the other side attacks its king.
/// `bm_king` holds the square of that king, `bm_board` every occupied square and `bm_opp` the
/// squares of the pieces of the other side.
pub fn in_check(
    tables: &Tables,
    board: &[Piece; 64],
    colour: bool,
    bm_king: u64,
    bm_board: u64,
    bm_opp: u64,
) -> (r: bool)
    requires
        tables.wf(),
        is_king_of(bm_king, board@, colour),
        is_occupancy(bm_board, board@),
        is_side_map(bm_opp, board@, !colour),
    ensures
        r == spec_in_check(board@, colour),
{
    let mut rest: u64 = bm_opp;
    let ghost mut done: int = 0;
    while rest != 0
        invariant
            0 <= done <= 64,
            tables.wf(),
            is_king_of(bm_king, board@, colour),
            is_occupancy(bm_board, board@),
            is_side_map(bm_opp, board@, !colour),
            forall|t: int| #[trigger] bit(rest, t) ==> bit(bm_opp, t) && t >= done,
            forall|t: int| done <= t && #[trigger] bit(bm_opp, t) ==> bit(rest, t),
            forall|j: int| 0 <= j < done ==> !#[trigger] checks(board@, colour, j),
        decreases crate::bits::popcount(rest),
    {
        let frm: usize = lowest(rest);
        let next: u64 = clear_bit(rest, frm);
        proof {
            crate::bits::lemma_count_without(rest, next, frm as int, 64);
            crate::bits::lemma_count_bounds(next, 64);
            assert forall|j: int| done <= j < frm implies !#[trigger] checks(board@, colour, j) by {
                if bit(bm_opp, j) {
                    assert(bit(rest, j));
                }
            }
        }
        let hit = match board[frm] {
            Piece::Rook(_) => ray_check(tables, board, frm, Reach::Rook, bm_board, bm_king),
            Piece::Bishop(_) => ray_check(tables, board, frm, Reach::Bishop, bm_board, bm_king),
            Piece::Queen(_) => ray_check(tables, board, frm, Reach::Queen, bm_board, bm_king),
            _ => meets(attack_mask(tables, board, frm, bm_board), bm_king),
        };
        proof {
            assert(bit(bm_opp, frm as int));
            if hit {
                let k = choose|k: int| bit(bm_king, k) && attacks(board@, frm as int, k);
                assert(attacks(board@, frm as int, k));
                assert(checks(board@, colour, frm as int));
            } else {
                assert forall|k: int|
                    0 <= k < 64 && board@[k] == Piece::King(colour) implies !#[trigger] attacks(
                    board@,
                    frm as int,
                    k,
                ) by {
                    assert(bit(bm_king, k));
                }
            }
        }
        if hit {
            return true;
        }
        rest = next;
        proof {
            done = frm + 1;
        }
    }
    proof {
        assert forall|j: int| !#[trigger] checks(board@, colour, j) by {
            if done <= j < 64 && bit(bm_opp, j) {
                assert(bit(rest, j));
                lemma_bit_zero(j);
            }
        }
    }
    false
}

/// Whether a pawn of colour `c` on `from` may move to `t`, en passant aside: a capture of a
/// piece of the other colour, a step to an empty square, or a double step from the home rank
/// over an empty square to an empty square.
pub open spec fn pawn_target(board: Seq<Piece>, c: bool, from: int, t: int) -> bool {
    ||| reach(Reach::PawnCapture(c), from, t) && board[t].is_side(!c)
    ||| reach(Reach::PawnStep1(c), from, t) && board[t] == Piece::Nil
    ||| reach(Reach::PawnStep2(c), from, t) && board[t] == Piece::Nil && board[from + forward(c)]
        == Piece::Nil
}

/// Whether the piece on `from` may move to `t`, castling and en passant aside: a pawn by the
/// pawn's rules, any other piece to a square that it attacks and that holds no piece of its own
/// colour.
pub open spec fn target(board: Seq<Piece>, from: int, t: int) -> bool {
    match board[from] {
        Piece::Nil => false,
        Piece::Pawn(c) => pawn_target(board, c, from, t),
        p => attacks(board, from, t) && board[t].side() != p.side(),
    }
}

/// Number of squares below `n` to which the piece on `from` may move.
pub open spec fn count_targets(board: Seq<Piece>, from: int, n: int) -> int
    decreases n,
{
    if n <= 0 {
        0
    } else {
        count_targets(board, from, n - 1) + if target(board, from, n - 1) {
            1int
        } else {
            0int
        }
    }
}

/// Number of moves of the pieces of `colour` that stand on the squares below `n`, castling and
/// en passant aside and whoever is to move.
pub open spec fn mobility_below(board: Seq<Piece>, colour: bool, n: int) -> int
    decreases n,
{
    if n <= 0 {
        0
    } else {
        mobility_below(board, colour, n - 1) + if board[n - 1].is_side(colour) {
            count_targets(board, n - 1, 64)
        } else {
            0
        }
    }
}

/// A bitboard of the squares to which a piece may move counts as many squares as there are.
pub proof fn lemma_count_targets(bm: u64, board: Seq<Piece>, from: int, n: int)
    requires
        0 <= n <= 64,
        forall|t: int| #[trigger] bit(bm, t) == target(board, from, t),
    ensures
        count_below(bm, n) == count_targets(board, from, n),
        0 <= count_targets(board, from, n) <= n,
    decreases n,
{
    if n > 0 {
        lemma_count_targets(bm, board, from, n - 1);
    }
}

/// The squares to which a pawn of colour `colour` on `frm` may move, en passant aside.
fn pawn_mask(
    tables: &Tables,
    board: &[Piece; 64],
    frm: usize,
    bm_opp: u64,
    bm_board: u64,
    colour: bool,
) -> (bm: u64)
    requires
        tables.wf(),
        frm < 64,
        is_occupancy(bm_board, board@),
        is_side_map(bm_opp, board@, !colour),
    ensures
        forall|t: int| #[trigger] bit(bm, t) == pawn_target(board@, colour, frm as int, t),
{
    let attacked = tables.mask(Reach::PawnCapture(colour), frm);
    let ahead = tables.mask(Reach::PawnStep1(colour), frm);
    let ahead2 = tables.mask(Reach::PawnStep2(colour), frm);
    let captures = attacked & bm_opp;
    let step1 = ahead & !bm_board;
    let shifted = if colour {
        step1 << 1u64
    } else {
        step1 >> 1u64
    };
    let step2 = shifted & ahead2 & !bm_board;
    let bm = captures | step1 | step2;
    proof {
        assert forall|t: int| #[trigger]
            bit(bm, t) == pawn_target(board@, colour, frm as int, t) by {
            lemma_bit_or(captures | step1, step2, t);
            lemma_bit_or(captures, step1, t);
            lemma_bit_and(attacked, bm_opp, t);
            lemma_bit_and(ahead, !bm_board, t);
            lemma_bit_not(bm_board, t);
            lemma_bit_and(shifted & ahead2, !bm_board, t);
            lemma_bit_and(shifted, ahead2, t);
            let front = frm as int + forward(colour);
            if colour {
                lemma_bit_shl1(step1, t);
            } else {
                lemma_bit_shr1(step1, t);
            }
            lemma_bit_and(ahead, !bm_board, front);
            lemma_bit_not(bm_board, front);
            if reach(Reach::PawnStep2(colour), frm as int, t) {
                assert(reach(Reach::PawnStep1(colour), frm as int, front));
                assert(t - forward(colour) == front);
            }
        }
    }
    bm
}

/// The squares to which the piece on `frm` may move, castling and en passant aside.
fn target_mask(
    tables: &Tables,
    board: &[Piece; 64],
    frm: usize,
    bm_own: u64,
    bm_opp: u64,
    bm_board: u64,
) -> (bm: u64)
    requires
        tables.wf(),
        frm < 64,
        board@[frm as int] != Piece::Nil,
        is_occupancy(bm_board, board@),
        is_side_map(bm_own, board@, board@[frm as int].side()->0),
        is_side_map(bm_opp, board@, !board@[frm as int].side()->0),
    ensures
        forall|t: int| #[trigger] bit(bm, t) == target(board@, frm as int, t),
{
    match board[frm] {
        Piece::Pawn(c) => pawn_mask(tables, board, frm, bm_opp, bm_board, c),
        _ => {
            let reached = attack_mask(tables, board, frm, bm_board);
            let bm = reached & !bm_own;
            proof {
                assert forall|t: int| #[trigger] bit(bm, t) == target(board@, frm as int, t) by {
                    lemma_bit_and(reached, !bm_own, t);
                    lemma_bit_not(bm_own, t);
                }
            }
            bm
        },
    }
}

/// Number of moves of the side `colour`, castling and en passant aside and whoever is to move.
pub fn count_moves(
    tables: &Tables,
    board: &[Piece; 64],
    colour: bool,
    bm_white: u64,
    bm_black: u64,
) -> (n: u32)
    requires
        tables.wf(),
        is_side_map(bm_white, board@, true),
        is_side_map(bm_black, board@, false),
    ensures
        n == mobility_below(board@, colour, 64),
        n <= 4096,
{
    let (bm_own, bm_opp) = if colour {
        (bm_white, bm_black)
    } else {
        (bm_black, bm_white)
    };
    let bm_board = bm_white | bm_black;
    proof {
        assert forall|i: int| 0 <= i < 64 implies #[trigger] bit(bm_board, i) == (board@[i]
            != Piece::Nil) by {
            lemma_bit_or(bm_white, bm_black, i);
        }
    }
    let mut n: u32 = 0;
    let mut frm: usize = 0;
    while frm < 64
        invariant
            frm <= 64,
            tables.wf(),
            is_occupancy(bm_board, board@),
            is_side_map(bm_own, board@, colour),
            is_side_map(bm_opp, board@, !colour),
            n == mobility_below(board@, colour, frm as int),
            n <= 64 * frm,
        decreases 64 - frm,
    {
        if board[frm].is_colour(colour) {
            let bm = target_mask(tables, board, frm, bm_own, bm_opp, bm_board);
            proof {
                lemma_count_targets(bm, board@, frm as int, 64);
            }
            n = n + count_bits(bm);
        }
        frm = frm + 1;
    }
    n
}

/// The castling rights that are left: White's short and long, Black's short and long.
#[derive(Clone, Copy, Debug, PartialEq, Eq, Structural)]
pub struct Castling {
    pub white_short: bool,
    pub white_long: bool,
    pub black_short: bool,
    pub black_long: bool,
}

/// The move of the piece on `frm` to `to` that captures what stands there. Its value is what
/// the piece gains by the change of square, less the value of what it captures.
pub open spec fn plain_move(board: Seq<Piece>, end_game: bool, frm: int, to: int) -> Move {
    Move {
        data: spec_pack(false, false, Piece::Nil, frm, to),
        val: (board[frm].spec_val(to, end_game) - board[frm].spec_val(frm, end_game)
            - board[to].spec_val(to, end_game)) as i16,
    }
}

/// The move of the pawn on `frm` to `to` that promotes it to `q`.
pub open spec fn promo_move(board: Seq<Piece>, end_game: bool, frm: int, to: int, q: Piece) -> Move {
    Move {
        data: spec_pack(false, false, q, frm, to),
        val: (q.spec_val(to, end_game) - board[frm].spec_val(frm, end_game) - board[to].spec_val(
            to,
            end_game,
        )) as i16,
    }
}

/// The move of the pawn on `frm` to the empty square `to` that captures the pawn on `victim`.
pub open spec fn ep_move(board: Seq<Piece>, end_game: bool, frm: int, to: int, victim: int) -> Move {
    Move {
        data: spec_pack(false, true, Piece::Nil, frm, to),
        val: (board[frm].spec_val(to, end_game) - board[frm].spec_val(frm, end_game)
            - board[victim].spec_val(victim, end_game)) as i16,
    }
}

/// Square of the king before castling number `k`: 0 and 1 are White's short and long castling,
/// 2 and 3 Black's.
pub open spec fn castle_king_from(k: int) -> int {
    if k < 2 {
        24
    } else {
        31
    }
}

/// Square of the king after castling number `k`.
pub open spec fn castle_king_to(k: int) -> int {
    if k == 0 {
        8
    } else if k == 1 {
        40
    } else if k == 2 {
        15
    } else {
        47
    }
}

/// Square of the rook before castling number `k`.
pub open spec fn castle_rook_from(k: int) -> int {
    if k == 0 {
        0
    } else if k == 1 {
        56
    } else if k == 2 {
        7
    } else {
        63
    }
}

/// Square of the rook after castling number `k`.
pub open spec fn castle_rook_to(k: int) -> int {
    if k == 0 {
        16
    } else if k == 1 {
        32
    } else if k == 2 {
        23
    } else {
        39
    }
}

/// Whether the right to castling number `k` is left.
pub open spec fn castle_right(castling: Castling, k: int) -> bool {
    if k == 0 {
        castling.white_short
    } else if k == 1 {
        castling.white_long
    } else if k == 2 {
        castling.black_short
    } else {
        castling.black_long
    }
}

/// Whether the squares between king and rook of castling number `k` are empty.
pub open spec fn castle_clear(board: Seq<Piece>, k: int) -> bool {
    if k == 0 {
        board[8] == Piece::Nil && board[16] == Piece::Nil
    } else if k == 1 {
        board[32] == Piece::Nil && board[40] == Piece::Nil && board[48] == Piece::Nil
    } else if k == 2 {
        board[15] == Piece::Nil && board[23] == Piece::Nil
    } else {
        board[39] == Piece::Nil && board[47] == Piece::Nil && board[55] == Piece::Nil
    }
}

/// Whether castling number `k` may be played: the right is left, king and rook stand on their
/// home squares, the king is not in check and the squares between them are empty.
pub open spec fn castle_ok(board: Seq<Piece>, castling: Castling, in_check: bool, k: int) -> bool {
    &&& castle_right(castling, k)
    &&& board[castle_king_from(k)] == Piece::King(k < 2)
    &&& !in_check
    &&& board[castle_rook_from(k)] == Piece::Rook(k < 2)
    &&& castle_clear(board, k)
}

/// The move that is castling number `k`. Its value is what king and rook gain by their
/// changes of square.
pub open spec fn castle_move(board: Seq<Piece>, end_game: bool, k: int) -> Move {
    let king = Piece::King(k < 2);
    let rook = Piece::Rook(k < 2);
    Move {
        data: spec_pack(true, false, Piece::Nil, castle_king_from(k), castle_king_to(k)),
        val: (king.spec_val(castle_king_to(k), end_game) - king.spec_val(
            castle_king_from(k),
            end_game,
        ) + rook.spec_val(castle_rook_to(k), end_game) - rook.spec_val(
            castle_rook_from(k),
            end_game,
        )) as i16,
    }
}

/// Whether `m` is castling number `k` and the side `colour` may play it.
pub open spec fn castle_at(
    board: Seq<Piece>,
    colour: bool,
    end_game: bool,
    castling: Castling,
    in_check: bool,
    k: int,
    m: Move,
) -> bool {
    colour == (k < 2) && castle_ok(board, castling, in_check, k) && m == castle_move(
        board,
        end_game,
        k,
    )
}

/// Whether a pawn that arrives on `to` is promoted.
pub open spec fn promotes(to: int) -> bool {
    to % 8 == 0 || to % 8 == 7
}

/// Whether `m` is a move of the piece on `frm` to its target `to`: for a pawn that reaches the
/// last rank one of the four promotions, else the plain move.
pub open spec fn steps(board: Seq<Piece>, end_game: bool, frm: int, to: int, m: Move) -> bool {
    if board[frm] is Pawn && promotes(to) {
        let c = board[frm]->Pawn_0;
        ||| m == promo_move(board, end_game, frm, to, Piece::Queen(c))
        ||| m == promo_move(board, end_game, frm, to, Piece::Rook(c))
        ||| m == promo_move(board, end_game, frm, to, Piece::Knight(c))
        ||| m == promo_move(board, end_game, frm, to, Piece::Bishop(c))
    } else {
        m == plain_move(board, end_game, frm, to)
    }
}

/// The square on which the side `colour` may capture en passant after the move `last`: where
/// `last` was the double step of a pawn of the other side from its home rank, the empty square
/// that this pawn passed over.
pub open spec fn ep_square(board: Seq<Piece>, colour: bool, last: Move) -> Option<int> {
    let lf = last.spec_frm();
    let lt = last.spec_to();
    if board[lt] == Piece::Pawn(!colour) && reach(Reach::PawnStep2(!colour), lf, lt) && board[lf
        + forward(!colour)] == Piece::Nil {
        Some(lf + forward(!colour))
    } else {
        None
    }
}

/// Whether `m` is a capture en passant of the pawn of `colour` on `frm` after the move `last`.
pub open spec fn ep_at(board: Seq<Piece>, colour: bool, end_game: bool, last: Move, m: Move) -> bool {
    let frm = m.spec_frm();
    let to = m.spec_to();
    &&& board[frm] == Piece::Pawn(colour)
    &&& ep_square(board, colour, last) == Some(to)
    &&& reach(Reach::PawnCapture(colour), frm, to)
    &&& m == ep_move(board, end_game, frm, to, last.spec_to())
}

/// Whether `m` is a pseudo-legal move of the side `colour`: a move of one of its pieces to a
/// square that the piece may reach, a capture en passant, or castling. `in_check` says whether
/// that side is in check, `last` is the move played before.
pub open spec fn pseudo_legal(
    board: Seq<Piece>,
    colour: bool,
    end_game: bool,
    castling: Castling,
    in_check: bool,
    last: Move,
    m: Move,
) -> bool {
    let frm = m.spec_frm();
    let to = m.spec_to();
    &&& board[frm].is_side(colour)
    &&& {
        ||| target(board, frm, to) && steps(board, end_game, frm, to, m)
        ||| ep_at(board, colour, end_game, last, m)
        ||| castle_at(board, colour, end_game, castling, in_check, 0, m)
        ||| castle_at(board, colour, end_game, castling, in_check, 1, m)
        ||| castle_at(board, colour, end_game, castling, in_check, 2, m)
        ||| castle_at(board, colour, end_game, castling, in_check, 3, m)
    }
}

/// Appends a move that the list does not hold yet.
fn push_move(v: &mut Vec<Move>, m: Move)
    requires
        !old(v)@.contains(m),
        old(v)@.no_duplicates(),
    ensures
        final(v)@ == old(v)@.push(m),
        final(v)@.no_duplicates(),
        forall|x: Move| #[trigger] final(v)@.contains(x) <==> old(v)@.contains(x) || x == m,
{
    v.push(m);
    proof {
        let s = old(v)@;
        let t = v@;
        assert forall|x: Move| #[trigger] t.contains(x) <==> s.contains(x) || x == m by {
            if t.contains(x) {
                let i = choose|i: int| 0 <= i < t.len() && t[i] == x;
                if i < s.len() {
                    assert(s[i] == x);
                }
            }
            if s.contains(x) {
                let i = choose|i: int| 0 <= i < s.len() && s[i] == x;
                assert(t[i] == x);
            }
            if x == m {
                assert(t[s.len() as int] == x);
            }
        }
        assert forall|i: int, j: int| 0 <= i < t.len() && 0 <= j < t.len() && i != j implies t[i]
            != t[j] by {
            if i < s.len() && j < s.len() {
                assert(s[i] != s[j]);
            } else if i < s.len() {
                assert(s.contains(s[i]));
            } else {
                assert(s.contains(s[j]));
            }
        }
    }
}

/// The plain move of the piece on `frm` to `to`; `here` is the value of the piece on `frm`.
fn make_plain(board: &[Piece; 64], end_game: bool, frm: usize, to: usize, here: i16) -> (m: Move)
    requires
        frm < 64,
        to < 64,
        here == board@[frm as int].spec_val(frm as int, end_game),
    ensures
        m == plain_move(board@, end_game, frm as int, to as int),
{
    proof {
        crate::val::lemma_val_bounds(board@[frm as int], frm as int, end_game);
    }
    Move {
        data: pack_data(false, false, Piece::Nil, frm, to),
        val: board[frm].val_in(to, end_game) - here - board[to].val_in(to, end_game),
    }
}

/// The move of the pawn on `frm` to `to` that promotes it to `q`.
fn make_promo(board: &[Piece; 64], end_game: bool, frm: usize, to: usize, q: Piece) -> (m: Move)
    requires
        frm < 64,
        to < 64,
    ensures
        m == promo_move(board@, end_game, frm as int, to as int, q),
{
    Move {
        data: pack_data(false, false, q, frm, to),
        val: q.val_in(to, end_game) - board[frm].val_in(frm, end_game) - board[to].val_in(
            to,
            end_game,
        ),
    }
}

/// Whether `m` is a move of the piece on `frm` to one of its targets.
pub open spec fn steps_from(board: Seq<Piece>, end_game: bool, frm: int, m: Move) -> bool {
    m.spec_frm() == frm && target(board, frm, m.spec_to()) && steps(
        board,
        end_game,
        frm,
        m.spec_to(),
        m,
    )
}

/// The moves of the piece on `frm` to its target `to`: for a pawn that reaches the last rank
/// the promotions to queen, rook, knight and bishop, else the plain move.
pub open spec fn moves_to(board: Seq<Piece>, end_game: bool, frm: int, to: int) -> Seq<Move> {
    if board[frm] is Pawn && promotes(to) {
        let c = board[frm]->Pawn_0;
        seq![
            promo_move(board, end_game, frm, to, Piece::Queen(c)),
            promo_move(board, end_game, frm, to, Piece::Rook(c)),
            promo_move(board, end_game, frm, to, Piece::Knight(c)),
            promo_move(board, end_game, frm, to, Piece::Bishop(c)),
        ]
    } else {
        seq![plain_move(board, end_game, frm, to)]
    }
}

/// The moves of the piece on `frm` to its targets below `n`, in the order of the targets.
pub open spec fn target_moves(board: Seq<Piece>, end_game: bool, frm: int, n: int) -> Seq<Move>
    decreases n,
{
    if n <= 0 {
        Seq::<Move>::empty()
    } else if target(board, frm, n - 1) {
        target_moves(board, end_game, frm, n - 1) + moves_to(board, end_game, frm, n - 1)
    } else {
        target_moves(board, end_game, frm, n - 1)
    }
}

/// Squares that are no targets add no moves.
pub proof fn lemma_no_targets(board: Seq<Piece>, end_game: bool, frm: int, a: int, b: int)
    requires
        0 <= a <= b,
        forall|t: int| a <= t < b ==> !target(board, frm, t),
    ensures
        target_moves(board, end_game, frm, b) == target_moves(board, end_game, frm, a),
    decreases b - a,
{
    if a < b {
        lemma_no_targets(board, end_game, frm, a, b - 1);
    }
}

/// Appends the moves of the piece on `frm` to the squares of `mask`, its targets.
fn push_targets(v: &mut Vec<Move>, board: &[Piece; 64], end_game: bool, frm: usize, mask: u64)
    requires
        frm < 64,
        old(v)@.no_duplicates(),
        forall|m: Move| #[trigger] old(v)@.contains(m) ==> m.spec_frm() != frm,
        forall|t: int| #[trigger] bit(mask, t) == target(board@, frm as int, t),
    ensures
        final(v)@.no_duplicates(),
        forall|m: Move| #[trigger]
            final(v)@.contains(m) <==> old(v)@.contains(m) || steps_from(
                board@,
                end_game,
                frm as int,
                m,
            ),
        final(v)@ == old(v)@ + target_moves(board@, end_game, frm as int, 64),
{
    let mut rest: u64 = mask;
    let ghost v0 = v@;
    let ghost mut done: int = 0;
    let here = board[frm].val_in(frm, end_game);
    proof {
        assert(v@ =~= v0 + target_moves(board@, end_game, frm as int, 0));
    }
    while rest != 0
        invariant
            frm < 64,
            here == board@[frm as int].spec_val(frm as int, end_game),
            0 <= done <= 64,
            forall|t: int| #[trigger] bit(rest, t) ==> t >= done,
            forall|t: int| done <= t && #[trigger] bit(mask, t) ==> bit(rest, t),
            v@ == v0 + target_moves(board@, end_game, frm as int, done),
            forall|t: int| #[trigger] bit(rest, t) ==> bit(mask, t),
            forall|t: int| #[trigger] bit(mask, t) == target(board@, frm as int, t),
            v@.no_duplicates(),
            forall|m: Move| #[trigger] v0.contains(m) ==> m.spec_frm() != frm,
            forall|m: Move| #[trigger]
                v@.contains(m) <==> v0.contains(m) || (steps_from(board@, end_game, frm as int, m)
                    && !bit(rest, m.spec_to())),
        decreases crate::bits::popcount(rest),
    {
        let to: usize = lowest(rest);
        let next: u64 = clear_bit(rest, to);
        let ghost v1 = v@;
        proof {
            crate::bits::lemma_count_without(rest, next, to as int, 64);
            crate::bits::lemma_count_bounds(next, 64);
            assert forall|t: int| done <= t < to implies !target(board@, frm as int, t) by {
                if bit(mask, t) {
                    assert(bit(rest, t));
                }
            }
            lemma_no_targets(board@, end_game, frm as int, done, to as int);
            assert(bit(mask, to as int));
        }
        let promoted: Option<bool> = match board[frm] {
            Piece::Pawn(c) => if to % 8 == 0 || to % 8 == 7 {
                Some(c)
            } else {
                None
            },
            _ => None,
        };
        match promoted {
            Some(c) => {
                let q = make_promo(board, end_game, frm, to, Piece::Queen(c));
                let r = make_promo(board, end_game, frm, to, Piece::Rook(c));
                let n = make_promo(board, end_game, frm, to, Piece::Knight(c));
                let b = make_promo(board, end_game, frm, to, Piece::Bishop(c));
                proof {
                    lemma_promo_distinct(c, frm as int, to as int);
                    lemma_pack_fields(false, false, Piece::Queen(c), frm as int, to as int);
                    lemma_pack_fields(false, false, Piece::Rook(c), frm as int, to as int);
                    lemma_pack_fields(false, false, Piece::Knight(c), frm as int, to as int);
                    lemma_pack_fields(false, false, Piece::Bishop(c), frm as int, to as int);
                    assert(q.spec_frm() == frm && q.spec_to() == to);
                    assert(r.spec_frm() == frm && r.spec_to() == to);
                    assert(n.spec_frm() == frm && n.spec_to() == to);
                    assert(b.spec_frm() == frm && b.spec_to() == to);
                    assert(!v1.contains(q) && !v1.contains(r) && !v1.contains(n) && !v1.contains(b));
                }
                push_move(v, q);
                push_move(v, r);
                push_move(v, n);
                push_move(v, b);
                proof {
                    assert(v@ =~= v1 + moves_to(board@, end_game, frm as int, to as int));
                    assert(v@ =~= v0 + target_moves(board@, end_game, frm as int, to + 1));
                    assert forall|m: Move| #[trigger]
                        v@.contains(m) <==> v0.contains(m) || (steps_from(
                            board@,
                            end_game,
                            frm as int,
                            m,
                        ) && !bit(next, m.spec_to())) by {
                        assert(v@.contains(m) <==> v1.contains(m) || m == q || m == r || m == n || m
                            == b);
                    }
                }
            },
            None => {
                let mv = make_plain(board, end_game, frm, to, here);
                proof {
                    lemma_pack_fields(false, false, Piece::Nil, frm as int, to as int);
                    assert(mv.spec_frm() == frm && mv.spec_to() == to);
                    assert(!v1.contains(mv));
                }
                push_move(v, mv);
                proof {
                    assert(v@ =~= v1 + moves_to(board@, end_game, frm as int, to as int));
                    assert(v@ =~= v0 + target_moves(board@, end_game, frm as int, to + 1));
                    assert forall|m: Move| #[trigger]
                        v@.contains(m) <==> v0.contains(m) || (steps_from(
                            board@,
                            end_game,
                            frm as int,
                            m,
                        ) && !bit(next, m.spec_to())) by {
                        assert(v@.contains(m) <==> v1.contains(m) || m == mv);
                    }
                }
            },
        }
        rest = next;
        proof {
            done = to + 1;
        }
    }
    proof {
        assert forall|m: Move| #[trigger]
            v@.contains(m) <==> v0.contains(m) || steps_from(board@, end_game, frm as int, m) by {
            lemma_bit_zero(m.spec_to());
        }
        assert forall|t: int| done <= t < 64 implies !target(board@, frm as int, t) by {
            lemma_bit_zero(t);
            if bit(mask, t) {
                assert(bit(rest, t));
            }
        }
        lemma_no_targets(board@, end_game, frm as int, done, 64);
    }
}

/// The four promotions of one pawn to one square are four different moves.
pub proof fn lemma_promo_distinct(c: bool, frm: int, to: int)
    requires
        0 <= frm < 64,
        0 <= to < 64,
    ensures
        spec_pack(false, false, Piece::Queen(c), frm, to) != spec_pack(
            false,
            false,
            Piece::Rook(c),
            frm,
            to,
        ),
        spec_pack(false, false, Piece::Queen(c), frm, to) != spec_pack(
            false,
            false,
            Piece::Knight(c),
            frm,
            to,
        ),
        spec_pack(false, false, Piece::Queen(c), frm, to) != spec_pack(
            false,
            false,
            Piece::Bishop(c),
            frm,
            to,
        ),
        spec_pack(false, false, Piece::Rook(c), frm, to) != spec_pack(
            false,
            false,
            Piece::Knight(c),
            frm,
            to,
        ),
        spec_pack(false, false, Piece::Rook(c), frm, to) != spec_pack(
            false,
            false,
            Piece::Bishop(c),
            frm,
            to,
        ),
        spec_pack(false, false, Piece::Knight(c), frm, to) != spec_pack(
            false,
            false,
            Piece::Bishop(c),
            frm,
            to,
        ),
{
    let q = Move { data: spec_pack(false, false, Piece::Queen(c), frm, to), val: 0 };
    let r = Move { data: spec_pack(false, false, Piece::Rook(c), frm, to), val: 0 };
    let n = Move { data: spec_pack(false, false, Piece::Knight(c), frm, to), val: 0 };
    let b = Move { data: spec_pack(false, false, Piece::Bishop(c), frm, to), val: 0 };
    lemma_pack_fields(false, false, Piece::Queen(c), frm, to);
    lemma_pack_fields(false, false, Piece::Rook(c), frm, to);
    lemma_pack_fields(false, false, Piece::Knight(c), frm, to);
    lemma_pack_fields(false, false, Piece::Bishop(c), frm, to);
    assert(promo_bits(q.spec_ptransform(c)) == promo_bits(Piece::Queen(c)));
    assert(promo_bits(r.spec_ptransform(c)) == promo_bits(Piece::Rook(c)));
    assert(promo_bits(n.spec_ptransform(c)) == promo_bits(Piece::Knight(c)));
    assert(promo_bits(b.spec_ptransform(c)) == promo_bits(Piece::Bishop(c)));
}

/// Whether `m` is a pseudo-legal move of the piece on `frm`.
pub open spec fn legal_from(
    board: Seq<Piece>,
    colour: bool,
    end_game: bool,
    castling: Castling,
    in_check: bool,
    last: Move,
    frm: int,
    m: Move,
) -> bool {
    m.spec_frm() == frm && pseudo_legal(board, colour, end_game, castling, in_check, last, m)
}

/// What the fields of a move to a target read back: it neither castles nor captures en passant,
/// and it promotes where a pawn reaches the last rank.
pub proof fn lemma_steps_fields(board: Seq<Piece>, end_game: bool, frm: int, to: int, m: Move)
    requires
        0 <= frm < 64,
        0 <= to < 64,
        steps(board, end_game, frm, to, m),
    ensures
        m.spec_frm() == frm,
        m.spec_to() == to,
        !m.spec_castle(),
        !m.spec_en_passant(),
        m.spec_transform() == (board[frm] is Pawn && promotes(to)),
        m.spec_transform() ==> m.spec_ptransform(board[frm]->Pawn_0).side() == board[frm].side(),
{
    lemma_pack_fields(false, false, Piece::Nil, frm, to);
    if board[frm] is Pawn {
        let c = board[frm]->Pawn_0;
        lemma_pack_fields(false, false, Piece::Queen(c), frm, to);
        lemma_pack_fields(false, false, Piece::Rook(c), frm, to);
        lemma_pack_fields(false, false, Piece::Knight(c), frm, to);
        lemma_pack_fields(false, false, Piece::Bishop(c), frm, to);
    }
}

/// What the fields of a castling move read back.
pub proof fn lemma_castle_fields(board: Seq<Piece>, end_game: bool, k: int)
    requires
        0 <= k < 4,
    ensures
        castle_move(board, end_game, k).spec_frm() == castle_king_from(k),
        castle_move(board, end_game, k).spec_to() == castle_king_to(k),
        castle_move(board, end_game, k).spec_castle(),
        !castle_move(board, end_game, k).spec_en_passant(),
        !castle_move(board, end_game, k).spec_transform(),
{
    lemma_pack_fields(true, false, Piece::Nil, castle_king_from(k), castle_king_to(k));
}

/// What the fields of a capture en passant read back.
pub proof fn lemma_ep_fields(board: Seq<Piece>, end_game: bool, frm: int, to: int, victim: int)
    requires
        0 <= frm < 64,
        0 <= to < 64,
    ensures
        ep_move(board, end_game, frm, to, victim).spec_frm() == frm,
        ep_move(board, end_game, frm, to, victim).spec_to() == to,
        !ep_move(board, end_game, frm, to, victim).spec_castle(),
        ep_move(board, end_game, frm, to, victim).spec_en_passant(),
        !ep_move(board, end_game, frm, to, victim).spec_transform(),
{
    lemma_pack_fields(false, true, Piece::Nil, frm, to);
}

/// A piece that is neither pawn nor king has no other pseudo-legal moves than those to its
/// targets; a pawn has its captures en passant besides, a king its castlings.
pub proof fn lemma_legal_from(
    board: Seq<Piece>,
    colour: bool,
    end_game: bool,
    castling: Castling,
    in_check: bool,
    last: Move,
    frm: int,
    m: Move,
)
    requires
        0 <= frm < 64,
        board.len() == 64,
        board[frm].is_side(colour),
    ensures
        legal_from(board, colour, end_game, castling, in_check, last, frm, m) <==> {
            ||| steps_from(board, end_game, frm, m)
            ||| m.spec_frm() == frm && ep_at(board, colour, end_game, last, m)
            ||| m.spec_frm() == frm && board[frm] is King && (castle_at(
                board,
                colour,
                end_game,
                castling,
                in_check,
                0,
                m,
            ) || castle_at(board, colour, end_game, castling, in_check, 1, m) || castle_at(
                board,
                colour,
                end_game,
                castling,
                in_check,
                2,
                m,
            ) || castle_at(board, colour, end_game, castling, in_check, 3, m))
        },
        !(board[frm] is Pawn) ==> !(m.spec_frm() == frm && ep_at(board, colour, end_game, last, m)),
{
    lemma_castle_fields(board, end_game, 0);
    lemma_castle_fields(board, end_game, 1);
    lemma_castle_fields(board, end_game, 2);
    lemma_castle_fields(board, end_game, 3);
}

/// The capture en passant of the pawn of `colour` on `frm` after the move `last`, if there is
/// one.
pub open spec fn ep_moves(board: Seq<Piece>, colour: bool, end_game: bool, last: Move, frm: int) -> Seq<
    Move,
> {
    match ep_square(board, colour, last) {
        Some(t) => if reach(Reach::PawnCapture(colour), frm, t) {
            seq![ep_move(board, end_game, frm, t, last.spec_to())]
        } else {
            Seq::<Move>::empty()
        },
        None => Seq::<Move>::empty(),
    }
}

/// The castling of the side `colour` to the side given, if it may be played with the king
/// on `frm`.
pub open spec fn castle_on(
    board: Seq<Piece>,
    colour: bool,
    end_game: bool,
    castling: Castling,
    in_check: bool,
    frm: int,
    long: bool,
) -> Seq<Move> {
    let k = (if colour {
        0int
    } else {
        2int
    }) + if long {
        1int
    } else {
        0int
    };
    if frm == castle_king_from(k) && castle_ok(board, castling, in_check, k) {
        seq![castle_move(board, end_game, k)]
    } else {
        Seq::<Move>::empty()
    }
}

/// The castlings of the king of `colour` on `frm`, the short one first.
pub open spec fn castle_moves(
    board: Seq<Piece>,
    colour: bool,
    end_game: bool,
    castling: Castling,
    in_check: bool,
    frm: int,
) -> Seq<Move> {
    castle_on(board, colour, end_game, castling, in_check, frm, false) + castle_on(
        board,
        colour,
        end_game,
        castling,
        in_check,
        frm,
        true,
    )
}

/// The pseudo-legal moves of the piece of `colour` on `frm` in the order in which they are
/// generated: the moves to its targets in the order of the squares, then a pawn's capture en
/// passant or a king's castlings.
pub open spec fn piece_moves(
    board: Seq<Piece>,
    colour: bool,
    end_game: bool,
    castling: Castling,
    in_check: bool,
    last: Move,
    frm: int,
) -> Seq<Move> {
    target_moves(board, end_game, frm, 64) + match board[frm] {
        Piece::Pawn(_) => ep_moves(board, colour, end_game, last, frm),
        Piece::King(_) => castle_moves(board, colour, end_game, castling, in_check, frm),
        _ => Seq::<Move>::empty(),
    }
}

/// The pseudo-legal moves of the pieces of `colour` on the squares below `n` in the order in
/// which they are generated: piece by piece in the order of the squares.
pub open spec fn all_moves(
    board: Seq<Piece>,
    colour: bool,
    end_game: bool,
    castling: Castling,
    in_check: bool,
    last: Move,
    n: int,
) -> Seq<Move>
    decreases n,
{
    if n <= 0 {
        Seq::<Move>::empty()
    } else if board[n - 1].is_side(colour) {
        all_moves(board, colour, end_game, castling, in_check, last, n - 1) + piece_moves(
            board,
            colour,
            end_game,
            castling,
            in_check,
            last,
            n - 1,
        )
    } else {
        all_moves(board, colour, end_game, castling, in_check, last, n - 1)
    }
}

/// Appends the moves of the knight on `frm`.
fn knight_moves(
    v: &mut Vec<Move>,
    tables: &Tables,
    board: &[Piece; 64],
    frm: usize,
    end_game: bool,
    bm_own: u64,
    bm_opp: u64,
    bm_board: u64,
)
    requires
        tables.wf(),
        frm < 64,
        board@[frm as int] is Knight,
        is_occupancy(bm_board, board@),
        is_side_map(bm_own, board@, board@[frm as int].side()->0),
        is_side_map(bm_opp, board@, !board@[frm as int].side()->0),
        old(v)@.no_duplicates(),
        forall|m: Move| #[trigger] old(v)@.contains(m) ==> m.spec_frm() != frm,
    ensures
        final(v)@.no_duplicates(),
        forall|m: Move| #[trigger]
            final(v)@.contains(m) <==> old(v)@.contains(m) || steps_from(
                board@,
                end_game,
                frm as int,
                m,
            ),
        final(v)@ == old(v)@ + target_moves(board@, end_game, frm as int, 64),
{
    let mask = target_mask(tables, board, frm, bm_own, bm_opp, bm_board);
    push_targets(v, board, end_game, frm, mask);
}

/// Appends the moves of the rook, bishop or queen on `frm`.
fn ray_moves(
    v: &mut Vec<Move>,
    tables: &Tables,
    board: &[Piece; 64],
    frm: usize,
    end_game: bool,
    bm_own: u64,
    bm_opp: u64,
    bm_board: u64,
)
    requires
        tables.wf(),
        frm < 64,
        rays_of(board@[frm as int]) is Some,
        is_occupancy(bm_board, board@),
        is_side_map(bm_own, board@, board@[frm as int].side()->0),
        is_side_map(bm_opp, board@, !board@[frm as int].side()->0),
        old(v)@.no_duplicates(),
        forall|m: Move| #[trigger] old(v)@.contains(m) ==> m.spec_frm() != frm,
    ensures
        final(v)@.no_duplicates(),
        forall|m: Move| #[trigger]
            final(v)@.contains(m) <==> old(v)@.contains(m) || steps_from(
                board@,
                end_game,
                frm as int,
                m,
            ),
        final(v)@ == old(v)@ + target_moves(board@, end_game, frm as int, 64),
{
    let mask = target_mask(tables, board, frm, bm_own, bm_opp, bm_board);
    push_targets(v, board, end_game, frm, mask);
}

/// The square on which the side `colour` may capture en passant after the move `last`.
pub fn en_passant_square(board: &[Piece; 64], colour: bool, last: &Move) -> (sq: Option<usize>)
    ensures
        match sq {
            Some(t) => t < 64 && ep_square(board@, colour, *last) == Some(t as int),
            None => ep_square(board@, colour, *last) is None,
        },
{
    let lf = last.frm();
    let lt = last.to();
    match board[lt] {
        Piece::Pawn(c) => {
            if c != colour && reaches(Reach::PawnStep2(!colour), lf, lt) {
                let passed: usize = if colour {
                    (lf - 1) as usize
                } else {
                    lf + 1
                };
                if board[passed].is_nil() {
                    Some(passed)
                } else {
                    None
                }
            } else {
                None
            }
        },
        _ => None,
    }
}

/// Appends the moves of the pawn of `colour` on `frm`: its steps and captures, each as four
/// promotions where it reaches the last rank, and its capture en passant after `last`.
fn pawn_moves(
    v: &mut Vec<Move>,
    tables: &Tables,
    board: &[Piece; 64],
    frm: usize,
    end_game: bool,
    last: &Move,
    bm_own: u64,
    bm_opp: u64,
    bm_board: u64,
    colour: bool,
)
    requires
        tables.wf(),
        frm < 64,
        board@[frm as int] == Piece::Pawn(colour),
        is_occupancy(bm_board, board@),
        is_side_map(bm_own, board@, colour),
        is_side_map(bm_opp, board@, !colour),
        old(v)@.no_duplicates(),
        forall|m: Move| #[trigger] old(v)@.contains(m) ==> m.spec_frm() != frm,
    ensures
        final(v)@.no_duplicates(),
        forall|m: Move| #[trigger]
            final(v)@.contains(m) <==> old(v)@.contains(m) || steps_from(
                board@,
                end_game,
                frm as int,
                m,
            ) || (m.spec_frm() == frm && ep_at(board@, colour, end_game, *last, m)),
        final(v)@ == old(v)@ + target_moves(board@, end_game, frm as int, 64) + ep_moves(
            board@,
            colour,
            end_game,
            *last,
            frm as int,
        ),
{
    let mask = target_mask(tables, board, frm, bm_own, bm_opp, bm_board);
    push_targets(v, board, end_game, frm, mask);
    let ghost v1 = v@;
    let mut taken = false;
    if let Some(to) = en_passant_square(board, colour, last) {
        if reaches(Reach::PawnCapture(colour), frm, to) {
            let victim = last.to();
            let p = board[frm];
            let mv = Move {
                data: pack_data(false, true, Piece::Nil, frm, to),
                val: p.val_in(to, end_game) - p.val_in(frm, end_game) - board[victim].val_in(
                    victim,
                    end_game,
                ),
            };
            proof {
                lemma_ep_fields(board@, end_game, frm as int, to as int, victim as int);
                assert(mv == ep_move(board@, end_game, frm as int, to as int, victim as int));
                if v1.contains(mv) {
                    lemma_steps_fields(board@, end_game, frm as int, mv.spec_to(), mv);
                }
            }
            push_move(v, mv);
            taken = true;
            proof {
                assert(v@ =~= v1 + ep_moves(board@, colour, end_game, *last, frm as int));
                assert forall|m: Move| #[trigger]
                    v@.contains(m) <==> old(v)@.contains(m) || steps_from(
                        board@,
                        end_game,
                        frm as int,
                        m,
                    ) || (m.spec_frm() == frm && ep_at(board@, colour, end_game, *last, m)) by {
                    assert(v@.contains(m) <==> v1.contains(m) || m == mv);
                }
            }
        }
    }
    proof {
        if !taken {
            assert(v@ =~= v1 + ep_moves(board@, colour, end_game, *last, frm as int));
            assert forall|m: Move| #[trigger]
                v@.contains(m) <==> old(v)@.contains(m) || steps_from(
                    board@,
                    end_game,
                    frm as int,
                    m,
                ) || (m.spec_frm() == frm && ep_at(board@, colour, end_game, *last, m)) by {
                assert(v@.contains(m) <==> v1.contains(m));
            }
        }
    }
}

/// Whether castling number `k` may be played.
fn castle_allowed(board: &[Piece; 64], can_castle: &Castling, in_check: bool, k: usize) -> (r: bool)
    requires
        k < 4,
    ensures
        r == castle_ok(board@, *can_castle, in_check, k as int),
{
    if in_check {
        return false;
    }
    if k == 0 {
        can_castle.white_short && board[24] == Piece::King(true) && board[0] == Piece::Rook(true)
            && board[8].is_nil() && board[16].is_nil()
    } else if k == 1 {
        can_castle.white_long && board[24] == Piece::King(true) && board[56] == Piece::Rook(true)
            && board[32].is_nil() && board[40].is_nil() && board[48].is_nil()
    } else if k == 2 {
        can_castle.black_short && board[31] == Piece::King(false) && board[7] == Piece::Rook(false)
            && board[15].is_nil() && board[23].is_nil()
    } else {
        can_castle.black_long && board[31] == Piece::King(false) && board[63] == Piece::Rook(
            false,
        ) && board[39].is_nil() && board[47].is_nil() && board[55].is_nil()
    }
}

/// The move that is castling number `k`.
fn make_castle(board: &[Piece; 64], end_game: bool, k: usize) -> (m: Move)
    requires
        k < 4,
    ensures
        m == castle_move(board@, end_game, k as int),
{
    let white = k < 2;
    let king = Piece::King(white);
    let rook = Piece::Rook(white);
    let frm: usize = if white { 24 } else { 31 };
    let to: usize = if k == 0 { 8 } else if k == 1 { 40 } else if k == 2 { 15 } else { 47 };
    let rfrm: usize = if k == 0 { 0 } else if k == 1 { 56 } else if k == 2 { 7 } else { 63 };
    let rto: usize = if k == 0 { 16 } else if k == 1 { 32 } else if k == 2 { 23 } else { 39 };
    Move {
        data: pack_data(true, false, Piece::Nil, frm, to),
        val: king.val_in(to, end_game) - king.val_in(frm, end_game) + rook.val_in(rto, end_game)
            - rook.val_in(rfrm, end_game),
    }
}

/// Whether `m` is one of the castlings that the side `colour` may play.
pub open spec fn castles(
    board: Seq<Piece>,
    colour: bool,
    end_game: bool,
    castling: Castling,
    in_check: bool,
    m: Move,
) -> bool {
    ||| castle_at(board, colour, end_game, castling, in_check, 0, m)
    ||| castle_at(board, colour, end_game, castling, in_check, 1, m)
    ||| castle_at(board, colour, end_game, castling, in_check, 2, m)
    ||| castle_at(board, colour, end_game, castling, in_check, 3, m)
}

/// Appends the moves of the king on `frm`: its steps and, from its home square, the castlings
/// that `can_castle` still allows.
fn king_moves(
    v: &mut Vec<Move>,
    tables: &Tables,
    board: &[Piece; 64],
    frm: usize,
    end_game: bool,
    can_castle: &Castling,
    in_check: bool,
    bm_own: u64,
    bm_opp: u64,
    bm_board: u64,
    colour: bool,
)
    requires
        tables.wf(),
        frm < 64,
        board@[frm as int] == Piece::King(colour),
        is_occupancy(bm_board, board@),
        is_side_map(bm_own, board@, colour),
        is_side_map(bm_opp, board@, !colour),
        old(v)@.no_duplicates(),
        forall|m: Move| #[trigger] old(v)@.contains(m) ==> m.spec_frm() != frm,
    ensures
        final(v)@.no_duplicates(),
        forall|m: Move| #[trigger]
            final(v)@.contains(m) <==> old(v)@.contains(m) || steps_from(
                board@,
                end_game,
                frm as int,
                m,
            ) || (m.spec_frm() == frm && castles(
                board@,
                colour,
                end_game,
                *can_castle,
                in_check,
                m,
            )),
        final(v)@ == old(v)@ + target_moves(board@, end_game, frm as int, 64) + castle_moves(
            board@,
            colour,
            end_game,
            *can_castle,
            in_check,
            frm as int,
        ),
{
    let mask = target_mask(tables, board, frm, bm_own, bm_opp, bm_board);
    push_targets(v, board, end_game, frm, mask);
    let ghost v1 = v@;
    let first: usize = if colour { 0 } else { 2 };
    let home: usize = if colour { 24 } else { 31 };
    let short = frm == home && castle_allowed(board, can_castle, in_check, first);
    let long = frm == home && castle_allowed(board, can_castle, in_check, first + 1);
    proof {
        lemma_castle_fields(board@, end_game, 0);
        lemma_castle_fields(board@, end_game, 1);
        lemma_castle_fields(board@, end_game, 2);
        lemma_castle_fields(board@, end_game, 3);
        assert forall|m: Move| #[trigger] v1.contains(m) && m.spec_frm() == frm implies
            !m.spec_castle() by {
            if steps_from(board@, end_game, frm as int, m) {
                lemma_steps_fields(board@, end_game, frm as int, m.spec_to(), m);
            }
        }
    }
    if short {
        push_move(v, make_castle(board, end_game, first));
    }
    let ghost v2 = v@;
    if long {
        push_move(v, make_castle(board, end_game, first + 1));
    }
    proof {
        let s = castle_move(board@, end_game, first as int);
        let l = castle_move(board@, end_game, first as int + 1);
        assert(v2 =~= v1 + castle_on(
            board@,
            colour,
            end_game,
            *can_castle,
            in_check,
            frm as int,
            false,
        ));
        assert(v@ =~= v2 + castle_on(
            board@,
            colour,
            end_game,
            *can_castle,
            in_check,
            frm as int,
            true,
        ));
        assert(v@ =~= v1 + castle_moves(
            board@,
            colour,
            end_game,
            *can_castle,
            in_check,
            frm as int,
        ));
        assert forall|m: Move| #[trigger]
            v@.contains(m) <==> old(v)@.contains(m) || steps_from(board@, end_game, frm as int, m)
                || (m.spec_frm() == frm && castles(
                board@,
                colour,
                end_game,
                *can_castle,
                in_check,
                m,
            )) by {
            assert(v2.contains(m) <==> v1.contains(m) || (short && m == s));
            assert(v@.contains(m) <==> v2.contains(m) || (long && m == l));
        }
    }
}

/// The move before, or the move that stands for none.
pub open spec fn last_or_null(last: Option<&Move>) -> Move {
    match last {
        Some(m) => *m,
        None => spec_null_move(),
    }
}

/// The pseudo-legal moves of the side `colour`: every move of one of its pieces to a square
/// that the piece may reach, every capture en passant after `last`, and every castling that
/// `can_castle` allows while `in_check` is false. No move occurs twice.
pub fn moves(
    tables: &Tables,
    board: &[Piece; 64],
    colour: bool,
    in_check: bool,
    end_game: bool,
    can_castle: &Castling,
    last: Option<&Move>,
    bm_white: u64,
    bm_black: u64,
) -> (v: Vec<Move>)
    requires
        tables.wf(),
        is_side_map(bm_white, board@, true),
        is_side_map(bm_black, board@, false),
    ensures
        v@.no_duplicates(),
        forall|m: Move| #[trigger]
            v@.contains(m) <==> pseudo_legal(
                board@,
                colour,
                end_game,
                *can_castle,
                in_check,
                last_or_null(last),
                m,
            ),
        v@ == all_moves(
            board@,
            colour,
            end_game,
            *can_castle,
            in_check,
            last_or_null(last),
            64,
        ),
{
    let (bm_own, bm_opp) = if colour {
        (bm_white, bm_black)
    } else {
        (bm_black, bm_white)
    };
    let bm_board = bm_white | bm_black;
    proof {
        assert forall|i: int| 0 <= i < 64 implies #[trigger] bit(bm_board, i) == (board@[i]
            != Piece::Nil) by {
            lemma_bit_or(bm_white, bm_black, i);
        }
    }
    let none = null_move();
    let last: &Move = match last {
        Some(m) => m,
        None => &none,
    };
    let mut v: Vec<Move> = Vec::with_capacity(50);
    let mut frm: usize = 0;
    while frm < 64
        invariant
            frm <= 64,
            tables.wf(),
            is_occupancy(bm_board, board@),
            is_side_map(bm_own, board@, colour),
            is_side_map(bm_opp, board@, !colour),
            v@.no_duplicates(),
            v@ == all_moves(board@, colour, end_game, *can_castle, in_check, *last, frm as int),
            forall|m: Move| #[trigger]
                v@.contains(m) <==> m.spec_frm() < frm && pseudo_legal(
                    board@,
                    colour,
                    end_game,
                    *can_castle,
                    in_check,
                    *last,
                    m,
                ),
        decreases 64 - frm,
    {
        let ghost v0 = v@;
        if board[frm].is_colour(colour) {
            match board[frm] {
                Piece::Knight(_) => knight_moves(
                    &mut v,
                    tables,
                    board,
                    frm,
                    end_game,
                    bm_own,
                    bm_opp,
                    bm_board,
                ),
                Piece::King(_) => king_moves(
                    &mut v,
                    tables,
                    board,
                    frm,
                    end_game,
                    can_castle,
                    in_check,
                    bm_own,
                    bm_opp,
                    bm_board,
                    colour,
                ),
                Piece::Pawn(_) => pawn_moves(
                    &mut v,
                    tables,
                    board,
                    frm,
                    end_game,
                    last,
                    bm_own,
                    bm_opp,
                    bm_board,
                    colour,
                ),
                _ => ray_moves(&mut v, tables, board, frm, end_game, bm_own, bm_opp, bm_board),
            }
        }
        proof {
            assert(v@ =~= all_moves(
                board@,
                colour,
                end_game,
                *can_castle,
                in_check,
                *last,
                frm + 1,
            ));
            assert forall|m: Move| #[trigger]
                v@.contains(m) <==> m.spec_frm() < frm + 1 && pseudo_legal(
                    board@,
                    colour,
                    end_game,
                    *can_castle,
                    in_check,
                    *last,
                    m,
                ) by {
                lemma_move_range(m);
                if board@[frm as int].is_side(colour) {
                    lemma_legal_from(
                        board@,
                        colour,
                        end_game,
                        *can_castle,
                        in_check,
                        *last,
                        frm as int,
                        m,
                    );
                } else {
                    assert(v@.contains(m) <==> v0.contains(m));
                }
            }
        }
        frm = frm + 1;
    }
    proof {
        assert forall|m: Move| #[trigger]
            v@.contains(m) <==> pseudo_legal(
                board@,
                colour,
                end_game,
                *can_castle,
                in_check,
                *last,
                m,
            ) by {
            lemma_move_range(m);
        }
    }
    v
}

} // verus!
