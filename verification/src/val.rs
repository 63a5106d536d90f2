//! Pieces, colours and piece-square values.
//!
//! A square index is `(7 - file) * 8 + rank`, with file `0..8` for a..h and rank `0..8` for 1..8.

use vstd::prelude::*;

verus! {

pub const WHITE: bool = true;

pub const BLACK: bool = false;

/// A piece with its colour (`true` for White), or the empty square.
#[derive(Clone, Copy, Debug, PartialEq, Eq, Structural)]
pub enum Piece {
    Rook(bool),
    Knight(bool),
    Bishop(bool),
    Queen(bool),
    King(bool),
    Pawn(bool),
    Nil,
}

/// Largest magnitude of any piece-square value. A sum over all 64 squares stays inside `i16`.
pub const MAX_VAL: i16 = 500;

/// Total absolute material of the starting position. Below a third of it the end game begins.
pub const END_GAME_MATERIAL: i16 = 4006;

/// File of a square, 0 for the a-file.
pub open spec fn file_of(sq: int) -> int {
    7 - sq / 8
}

/// Rank of a square, 0 for the first rank.
pub open spec fn rank_of(sq: int) -> int {
    sq % 8
}

/// Distance of a coordinate from the nearer edge of the board: 0 at the edge, 3 in the centre.
pub open spec fn edge_dist(x: int) -> int {
    if x <= 3 {
        x
    } else {
        7 - x
    }
}

/// What a pawn gains from its file. The d- and e-files count most, the e-file a little more.
pub open spec fn pawn_file_bonus(file: int) -> int {
    if file == 1 || file == 6 {
        1
    } else if file == 2 || file == 5 {
        2
    } else if file == 3 {
        6
    } else if file == 4 {
        7
    } else {
        0
    }
}

/// What a king gains from its file. The castled squares count most, the king's side more.
pub open spec fn king_file_bonus(file: int) -> int {
    if file == 0 || file == 7 {
        10
    } else if file == 1 {
        15
    } else if file == 2 || file == 5 {
        5
    } else if file == 6 {
        20
    } else {
        0
    }
}

/// Value of a piece of the given kind for its owner, on `file` and on the rank `rel_rank` counted
/// from the owner's back rank. A king is valued by the rank counted from `king_rank` instead,
/// which in the end game is counted from the other side.
pub open spec fn worth(p: Piece, file: int, rel_rank: int, king_rank: int) -> int {
    let centre = edge_dist(file) + edge_dist(rel_rank);
    match p {
        Piece::Pawn(_) => 50 + 4 * rel_rank + pawn_file_bonus(file),
        Piece::Knight(_) => 135 + 5 * centre,
        Piece::Bishop(_) => 150 + 4 * centre,
        Piece::Rook(_) => 250 + (if rel_rank == 6 {
            10int
        } else {
            0int
        }) + (if edge_dist(file) == 3 {
            4int
        } else {
            0int
        }),
        Piece::Queen(_) => 450 + 2 * centre,
        Piece::King(_) => king_file_bonus(file) - 10 * king_rank,
        Piece::Nil => 0,
    }
}

impl Piece {
    /// Colour of a piece; `None` for the empty square.
    pub open spec fn side(self) -> Option<bool> {
        match self {
            Piece::Rook(c) | Piece::Knight(c) | Piece::Bishop(c) | Piece::Queen(c) | Piece::King(
                c,
            ) | Piece::Pawn(c) => Some(c),
            Piece::Nil => None,
        }
    }

    /// Whether this is a piece of colour `c`.
    pub open spec fn is_side(self, c: bool) -> bool {
        self.side() == Some(c)
    }

    /// Piece-square value at `sq`, positive for White and negative for Black. In the end game a
    /// king is valued by the table of the other colour's king.
    pub open spec fn spec_val(self, sq: int, end_game: bool) -> int {
        match self.side() {
            None => 0,
            Some(c) => {
                let rel = if c {
                    rank_of(sq)
                } else {
                    7 - rank_of(sq)
                };
                let king_rank = if end_game {
                    7 - rel
                } else {
                    rel
                };
                let w = worth(self, file_of(sq), rel, king_rank);
                if c {
                    w
                } else {
                    -w
                }
            },
        }
    }

    /// The FEN letter of a piece: upper case for White, lower case for Black; `'.'` for no piece.
    pub open spec fn spec_ascii(self) -> char {
        match self {
            Piece::Rook(c) => if c { 'R' } else { 'r' },
            Piece::Knight(c) => if c { 'N' } else { 'n' },
            Piece::Bishop(c) => if c { 'B' } else { 'b' },
            Piece::Queen(c) => if c { 'Q' } else { 'q' },
            Piece::King(c) => if c { 'K' } else { 'k' },
            Piece::Pawn(c) => if c { 'P' } else { 'p' },
            Piece::Nil => '.',
        }
    }

    /// The chess symbol of a piece; a space for no piece.
    pub open spec fn spec_unicode(self) -> char {
        match self {
            Piece::King(c) => if c { '\u{2654}' } else { '\u{265A}' },
            Piece::Queen(c) => if c { '\u{2655}' } else { '\u{265B}' },
            Piece::Rook(c) => if c { '\u{2656}' } else { '\u{265C}' },
            Piece::Bishop(c) => if c { '\u{2657}' } else { '\u{265D}' },
            Piece::Knight(c) => if c { '\u{2658}' } else { '\u{265E}' },
            Piece::Pawn(c) => if c { '\u{2659}' } else { '\u{265F}' },
            Piece::Nil => ' ',
        }
    }

    /// The piece that a FEN letter stands for.
    pub open spec fn spec_from_ascii(c: char) -> Option<Piece> {
        if c == 'R' {
            Some(Piece::Rook(true))
        } else if c == 'r' {
            Some(Piece::Rook(false))
        } else if c == 'N' {
            Some(Piece::Knight(true))
        } else if c == 'n' {
            Some(Piece::Knight(false))
        } else if c == 'B' {
            Some(Piece::Bishop(true))
        } else if c == 'b' {
            Some(Piece::Bishop(false))
        } else if c == 'Q' {
            Some(Piece::Queen(true))
        } else if c == 'q' {
            Some(Piece::Queen(false))
        } else if c == 'K' {
            Some(Piece::King(true))
        } else if c == 'k' {
            Some(Piece::King(false))
        } else if c == 'P' {
            Some(Piece::Pawn(true))
        } else if c == 'p' {
            Some(Piece::Pawn(false))
        } else {
            None
        }
    }

    /// Colour of a piece; `None` for the empty square.
    pub fn colour(&self) -> (r: Option<bool>)
        ensures
            r == self.side(),
    {
        match self {
            Piece::Rook(c) | Piece::Knight(c) | Piece::Bishop(c) | Piece::Queen(c) | Piece::King(
                c,
            ) | Piece::Pawn(c) => Some(*c),
            Piece::Nil => None,
        }
    }

    /// Whether this is a white piece.
    pub fn is_white(&self) -> (r: bool)
        ensures
            r == self.is_side(true),
    {
        match self.colour() {
            Some(c) => c,
            None => false,
        }
    }

    /// Whether this is a piece of colour `c`.
    pub fn is_colour(&self, c: bool) -> (r: bool)
        ensures
            r == self.is_side(c),
    {
        match self.colour() {
            Some(d) => c == d,
            None => false,
        }
    }

    /// Whether the square is empty.
    pub fn is_nil(&self) -> (r: bool)
        ensures
            r == (*self == Piece::Nil),
            r == (self.side() is None),
    {
        match self {
            Piece::Nil => true,
            _ => false,
        }
    }

    /// Value of this piece for its owner; see [`worth`].
    fn worth_at(&self, file: i16, rel: i16, king_rank: i16) -> (w: i16)
        requires
            0 <= file < 8,
            0 <= rel < 8,
            0 <= king_rank < 8,
        ensures
            w == worth(*self, file as int, rel as int, king_rank as int),
            -MAX_VAL <= w <= MAX_VAL,
    {
        let fd: i16 = if file <= 3 { file } else { 7 - file };
        let rd: i16 = if rel <= 3 { rel } else { 7 - rel };
        let centre: i16 = fd + rd;
        match self {
            Piece::Pawn(_) => {
                let bonus: i16 = if file == 1 || file == 6 {
                    1
                } else if file == 2 || file == 5 {
                    2
                } else if file == 3 {
                    6
                } else if file == 4 {
                    7
                } else {
                    0
                };
                50 + 4 * rel + bonus
            },
            Piece::Knight(_) => 135 + 5 * centre,
            Piece::Bishop(_) => 150 + 4 * centre,
            Piece::Rook(_) => {
                let seventh: i16 = if rel == 6 { 10 } else { 0 };
                let middle: i16 = if fd == 3 { 4 } else { 0 };
                250 + seventh + middle
            },
            Piece::Queen(_) => 450 + 2 * centre,
            Piece::King(_) => {
                let bonus: i16 = if file == 0 || file == 7 {
                    10
                } else if file == 1 {
                    15
                } else if file == 2 || file == 5 {
                    5
                } else if file == 6 {
                    20
                } else {
                    0
                };
                bonus - 10 * king_rank
            },
            Piece::Nil => 0,
        }
    }

    /// Piece-square value at `pos` with the end game's king table or without it.
    pub fn val_in(&self, pos: usize, end_game: bool) -> (v: i16)
        requires
            pos < 64,
        ensures
            v == self.spec_val(pos as int, end_game),
            -MAX_VAL <= v <= MAX_VAL,
    {
        match self.colour() {
            None => 0,
            Some(c) => {
                let file: i16 = 7 - (pos / 8) as i16;
                let rank: i16 = (pos % 8) as i16;
                let rel: i16 = if c { rank } else { 7 - rank };
                let king_rank: i16 = if end_game { 7 - rel } else { rel };
                let w: i16 = self.worth_at(file, rel, king_rank);
                if c {
                    w
                } else {
                    -w
                }
            },
        }
    }

    /// Piece-square value at `pos`, positive for White and negative for Black.
    pub fn val(&self, pos: usize) -> (v: i16)
        requires
            pos < 64,
        ensures
            v == self.spec_val(pos as int, false),
            -MAX_VAL <= v <= MAX_VAL,
    {
        self.val_in(pos, false)
    }

    /// The FEN letter of a piece: upper case for White, lower case for Black; `'.'` for no piece.
    pub fn to_ascii(&self) -> (c: char)
        ensures
            c == self.spec_ascii(),
    {
        match self {
            Piece::Rook(c) => if *c { 'R' } else { 'r' },
            Piece::Knight(c) => if *c { 'N' } else { 'n' },
            Piece::Bishop(c) => if *c { 'B' } else { 'b' },
            Piece::Queen(c) => if *c { 'Q' } else { 'q' },
            Piece::King(c) => if *c { 'K' } else { 'k' },
            Piece::Pawn(c) => if *c { 'P' } else { 'p' },
            Piece::Nil => '.',
        }
    }

    /// The chess symbol of a piece; a space for no piece.
    pub fn to_unicode(&self) -> (c: char)
        ensures
            c == self.spec_unicode(),
    {
        match self {
            Piece::King(c) => if *c { '\u{2654}' } else { '\u{265A}' },
            Piece::Queen(c) => if *c { '\u{2655}' } else { '\u{265B}' },
            Piece::Rook(c) => if *c { '\u{2656}' } else { '\u{265C}' },
            Piece::Bishop(c) => if *c { '\u{2657}' } else { '\u{265D}' },
            Piece::Knight(c) => if *c { '\u{2658}' } else { '\u{265E}' },
            Piece::Pawn(c) => if *c { '\u{2659}' } else { '\u{265F}' },
            Piece::Nil => ' ',
        }
    }

    /// The piece that a FEN letter stands for; `None` for any other character.
    pub fn from_ascii(c: char) -> (r: Option<Piece>)
        ensures
            r == Piece::spec_from_ascii(c),
    {
        if c == 'R' {
            Some(Piece::Rook(true))
        } else if c == 'r' {
            Some(Piece::Rook(false))
        } else if c == 'N' {
            Some(Piece::Knight(true))
        } else if c == 'n' {
            Some(Piece::Knight(false))
        } else if c == 'B' {
            Some(Piece::Bishop(true))
        } else if c == 'b' {
            Some(Piece::Bishop(false))
        } else if c == 'Q' {
            Some(Piece::Queen(true))
        } else if c == 'q' {
            Some(Piece::Queen(false))
        } else if c == 'K' {
            Some(Piece::King(true))
        } else if c == 'k' {
            Some(Piece::King(false))
        } else if c == 'P' {
            Some(Piece::Pawn(true))
        } else if c == 'p' {
            Some(Piece::Pawn(false))
        } else {
            None
        }
    }
}

/// Every value of a piece for its owner is small.
pub proof fn lemma_worth_bounds(p: Piece, file: int, rel: int, king_rank: int)
    requires
        0 <= file < 8,
        0 <= rel < 8,
        0 <= king_rank < 8,
    ensures
        -MAX_VAL <= worth(p, file, rel, king_rank) <= MAX_VAL,
{
}

/// Every piece-square value is small, that of the empty square is zero, and the end game changes
/// the value of kings alone.
pub proof fn lemma_val_bounds(p: Piece, sq: int, end_game: bool)
    requires
        0 <= sq < 64,
    ensures
        -MAX_VAL <= p.spec_val(sq, end_game) <= MAX_VAL,
        p == Piece::Nil ==> p.spec_val(sq, end_game) == 0,
        !(p is King) ==> p.spec_val(sq, end_game) == p.spec_val(sq, false),
{
    let file = file_of(sq);
    let rank = rank_of(sq);
    lemma_worth_bounds(p, file, rank, rank);
    lemma_worth_bounds(p, file, rank, 7 - rank);
    lemma_worth_bounds(p, file, 7 - rank, rank);
    lemma_worth_bounds(p, file, 7 - rank, 7 - rank);
}

/// A FEN letter read back gives the piece that wrote it.
pub proof fn lemma_ascii_round_trip(p: Piece)
    requires
        p != Piece::Nil,
    ensures
        Piece::spec_from_ascii(p.spec_ascii()) == Some(p),
{
}

/// A letter that stands for a piece is the letter that this piece writes.
pub proof fn lemma_from_ascii_inverse(c: char)
    requires
        Piece::spec_from_ascii(c) is Some,
    ensures
        Piece::spec_from_ascii(c)->0.spec_ascii() == c,
        Piece::spec_from_ascii(c)->0 != Piece::Nil,
{
}

/// Sum of `f(piece, square)` over the squares below `n`.
pub open spec fn board_sum(board: Seq<Piece>, f: spec_fn(Piece, int) -> int, n: int) -> int
    decreases n,
{
    if n <= 0 {
        0
    } else {
        board_sum(board, f, n - 1) + f(board[n - 1], n - 1)
    }
}

/// The piece-square value as a function of piece and square.
pub open spec fn val_fn(end_game: bool) -> spec_fn(Piece, int) -> int {
    |p: Piece, i: int| p.spec_val(i, end_game)
}

/// The magnitude of the piece-square value as a function of piece and square.
pub open spec fn abs_val_fn() -> spec_fn(Piece, int) -> int {
    |p: Piece, i: int|
        if p.spec_val(i, false) < 0 {
            -p.spec_val(i, false)
        } else {
            p.spec_val(i, false)
        }
}

/// One for a piece, zero for the empty square.
pub open spec fn occupied_fn() -> spec_fn(Piece, int) -> int {
    |p: Piece, i: int|
        if p == Piece::Nil {
            0int
        } else {
            1int
        }
}

/// Material of a board: the sum of the piece-square values of all squares, White counted
/// positive and Black negative.
pub open spec fn spec_material(board: Seq<Piece>, end_game: bool) -> int {
    board_sum(board, val_fn(end_game), 64)
}

/// Absolute material of a board: the sum of the magnitudes of all piece-square values.
pub open spec fn spec_abs_material(board: Seq<Piece>) -> int {
    board_sum(board, abs_val_fn(), 64)
}

/// Number of pieces on a board.
pub open spec fn piece_count(board: Seq<Piece>) -> int {
    board_sum(board, occupied_fn(), 64)
}

/// Replacing the piece on one square changes a sum by the difference at that square.
pub proof fn lemma_board_sum_update(
    board: Seq<Piece>,
    f: spec_fn(Piece, int) -> int,
    n: int,
    i: int,
    p: Piece,
)
    requires
        0 <= n <= board.len(),
        0 <= i < board.len(),
    ensures
        board_sum(board.update(i, p), f, n) == board_sum(board, f, n) + if i < n {
            f(p, i) - f(board[i], i)
        } else {
            0
        },
    decreases n,
{
    if n > 0 {
        lemma_board_sum_update(board, f, n - 1, i, p);
    }
}

/// A sum of terms between `lo` and `hi` lies between `n` times `lo` and `n` times `hi`.
pub proof fn lemma_board_sum_bounds(
    board: Seq<Piece>,
    f: spec_fn(Piece, int) -> int,
    n: int,
    lo: int,
    hi: int,
)
    requires
        0 <= n <= 64,
        forall|p: Piece, i: int| 0 <= i < 64 ==> lo <= #[trigger] f(p, i) <= hi,
    ensures
        n * lo <= board_sum(board, f, n) <= n * hi,
    decreases n,
{
    if n > 0 {
        lemma_board_sum_bounds(board, f, n - 1, lo, hi);
        assert(lo <= f(board[n - 1], n - 1) <= hi);
        assert(n * lo == (n - 1) * lo + lo) by (nonlinear_arith);
        assert(n * hi == (n - 1) * hi + hi) by (nonlinear_arith);
    } else {
        assert(n * lo == 0 && n * hi == 0) by (nonlinear_arith)
            requires
                n == 0,
        ;
    }
}

/// The material of any board fits in an `i16`, and so does its absolute material.
pub proof fn lemma_material_bounds(board: Seq<Piece>, end_game: bool, n: int)
    requires
        0 <= n <= 64,
    ensures
        -MAX_VAL * n <= board_sum(board, val_fn(end_game), n) <= MAX_VAL * n,
        0 <= board_sum(board, abs_val_fn(), n) <= MAX_VAL * n,
        0 <= board_sum(board, occupied_fn(), n) <= n,
{
    assert forall|p: Piece, i: int| 0 <= i < 64 implies -500 <= #[trigger] val_fn(end_game)(p, i)
        <= 500 by {
        lemma_val_bounds(p, i, end_game);
    }
    assert forall|p: Piece, i: int| 0 <= i < 64 implies 0 <= #[trigger] abs_val_fn()(p, i)
        <= 500 by {
        lemma_val_bounds(p, i, false);
    }
    lemma_board_sum_bounds(board, val_fn(end_game), n, -500, 500);
    lemma_board_sum_bounds(board, abs_val_fn(), n, 0, 500);
    lemma_board_sum_bounds(board, occupied_fn(), n, 0, 1);
}

/// Material of a board with the end game's king table or without it.
pub fn material_in(board: &[Piece; 64], end_game: bool) -> (m: i16)
    ensures
        m == spec_material(board@, end_game),
{
    let mut m: i16 = 0;
    let mut i: usize = 0;
    while i < 64
        invariant
            i <= 64,
            m == board_sum(board@, val_fn(end_game), i as int),
        decreases 64 - i,
    {
        proof {
            lemma_material_bounds(board@, end_game, i as int);
        }
        m = m + board[i].val_in(i, end_game);
        i = i + 1;
    }
    m
}

/// Material of a board: the sum of the piece-square values of all squares.
pub fn material(board: &[Piece; 64]) -> (m: i16)
    ensures
        m == spec_material(board@, false),
{
    material_in(board, false)
}

/// Absolute material of a board: the sum of the magnitudes of all piece-square values.
pub fn abs_material(board: &[Piece; 64]) -> (m: i16)
    ensures
        m == spec_abs_material(board@),
{
    let mut m: i16 = 0;
    let mut i: usize = 0;
    while i < 64
        invariant
            i <= 64,
            m == board_sum(board@, abs_val_fn(), i as int),
        decreases 64 - i,
    {
        proof {
            lemma_material_bounds(board@, false, i as int);
        }
        let v: i16 = board[i].val(i);
        m = m + if v < 0 { -v } else { v };
        i = i + 1;
    }
    m
}

} // verus!
