//! Static evaluation: pawn structure. Material and mobility are kept and counted elsewhere.
//!
//! A column is one file of the board, the eight squares `8 * q .. 8 * q + 8` in the order of
//! their ranks.

use vstd::prelude::*;
use crate::val::Piece;

verus! {

/// Number of pawns of colour `c` on the ranks below `n` of column `q`.
pub open spec fn pawns_on(board: Seq<Piece>, q: int, c: bool, n: int) -> int
    decreases n,
{
    if n <= 0 {
        0
    } else {
        pawns_on(board, q, c, n - 1) + if board[8 * q + n - 1] == Piece::Pawn(c) {
            1int
        } else {
            0int
        }
    }
}

/// The highest rank below `n` of column `q` that holds a pawn of colour `c`; -1 if none does.
pub open spec fn top_pawn(board: Seq<Piece>, q: int, c: bool, n: int) -> int
    decreases n,
{
    if n <= 0 {
        -1
    } else if board[8 * q + n - 1] == Piece::Pawn(c) {
        n - 1
    } else {
        top_pawn(board, q, c, n - 1)
    }
}

/// The lowest rank below `n` of column `q` that holds a pawn of colour `c`; 8 if none does.
pub open spec fn low_pawn(board: Seq<Piece>, q: int, c: bool, n: int) -> int
    decreases n,
{
    if n <= 0 {
        8
    } else if low_pawn(board, q, c, n - 1) < 8 {
        low_pawn(board, q, c, n - 1)
    } else if board[8 * q + n - 1] == Piece::Pawn(c) {
        n - 1
    } else {
        8
    }
}

/// Whether column `q` holds a pawn of colour `c`. A column off the board holds none.
pub open spec fn has_pawn(board: Seq<Piece>, q: int, c: bool) -> bool {
    0 <= q < 8 && pawns_on(board, q, c, 8) > 0
}

/// Number of doubled pawns of colour `c` on column `q`: every pawn but the first.
pub open spec fn doubled(board: Seq<Piece>, q: int, c: bool) -> int {
    if pawns_on(board, q, c, 8) > 0 {
        pawns_on(board, q, c, 8) - 1
    } else {
        0
    }
}

/// Whether column `q` holds pawns of colour `c` and neither neighbour column does.
pub open spec fn isolated(board: Seq<Piece>, q: int, c: bool) -> bool {
    has_pawn(board, q, c) && !has_pawn(board, q - 1, c) && !has_pawn(board, q + 1, c)
}

/// What the pawns of colour `c` on column `q` lose: 20 for each doubled pawn and 4 for a
/// column that is isolated.
pub open spec fn penalty(board: Seq<Piece>, q: int, c: bool) -> int {
    20 * doubled(board, q, c) + if isolated(board, q, c) {
        4int
    } else {
        0int
    }
}

/// What White's passed pawn on column `q` earns: where White's foremost pawn of the column
/// stands before every black pawn of it, twice the square of its rank counted from White's
/// back rank.
pub open spec fn white_passed(board: Seq<Piece>, q: int) -> int {
    let w = top_pawn(board, q, true, 8);
    let b = top_pawn(board, q, false, 8);
    if w >= 0 && w > b {
        2 * (w * w)
    } else {
        0
    }
}

/// What Black's passed pawn on column `q` earns: where Black's foremost pawn of the column
/// stands before every white pawn of it, twice the square of its rank counted from Black's
/// back rank.
pub open spec fn black_passed(board: Seq<Piece>, q: int) -> int {
    let w = low_pawn(board, q, true, 8);
    let b = low_pawn(board, q, false, 8);
    if b < 8 && b < w {
        2 * ((7 - b) * (7 - b))
    } else {
        0
    }
}

/// Score of the pawns of column `q`, for White.
pub open spec fn column_score(board: Seq<Piece>, q: int) -> int {
    penalty(board, q, false) - penalty(board, q, true) + white_passed(board, q) - black_passed(
        board,
        q,
    )
}

/// Score of the pawns of the columns below `n`, for White.
pub open spec fn structure_below(board: Seq<Piece>, n: int) -> int
    decreases n,
{
    if n <= 0 {
        0
    } else {
        structure_below(board, n - 1) + column_score(board, n - 1)
    }
}

/// Score of the pawn structure, for White.
pub open spec fn spec_pawn_structure(board: Seq<Piece>) -> int {
    structure_below(board, 8)
}

/// What a column of pawns was found to hold.
#[derive(Clone, Copy, Debug)]
pub struct Column {
    /// Number of pawns.
    pub count: i16,
    /// Highest rank with a pawn, or -1.
    pub top: i16,
    /// Lowest rank with a pawn, or 8.
    pub low: i16,
}

/// The counts of a column lie within the column.
pub proof fn lemma_column_bounds(board: Seq<Piece>, q: int, c: bool, n: int)
    requires
        0 <= n <= 8,
    ensures
        0 <= pawns_on(board, q, c, n) <= n,
        -1 <= top_pawn(board, q, c, n) < n,
        0 <= low_pawn(board, q, c, n) <= 8,
        low_pawn(board, q, c, n) < 8 ==> low_pawn(board, q, c, n) < n,
        (pawns_on(board, q, c, n) > 0) == (top_pawn(board, q, c, n) >= 0),
        (pawns_on(board, q, c, n) > 0) == (low_pawn(board, q, c, n) < 8),
    decreases n,
{
    if n > 0 {
        lemma_column_bounds(board, q, c, n - 1);
    }
}

/// Counts the pawns of colour `c` on column `q` and finds the highest and the lowest.
pub fn scan_column(board: &[Piece; 64], q: usize, c: bool) -> (col: Column)
    requires
        q < 8,
    ensures
        col.count == pawns_on(board@, q as int, c, 8),
        col.top == top_pawn(board@, q as int, c, 8),
        col.low == low_pawn(board@, q as int, c, 8),
        0 <= col.count <= 8,
        -1 <= col.top < 8,
        0 <= col.low <= 8,
        (col.count > 0) == (col.top >= 0),
        (col.count > 0) == (col.low < 8),
{
    let mut count: i16 = 0;
    let mut top: i16 = -1;
    let mut low: i16 = 8;
    let mut r: usize = 0;
    while r < 8
        invariant
            r <= 8,
            q < 8,
            count == pawns_on(board@, q as int, c, r as int),
            top == top_pawn(board@, q as int, c, r as int),
            low == low_pawn(board@, q as int, c, r as int),
        decreases 8 - r,
    {
        proof {
            lemma_column_bounds(board@, q as int, c, r as int);
        }
        if board[8 * q + r] == Piece::Pawn(c) {
            count = count + 1;
            top = r as i16;
            if low == 8 {
                low = r as i16;
            }
        }
        r = r + 1;
    }
    proof {
        lemma_column_bounds(board@, q as int, c, 8);
    }
    Column { count, top, low }
}

/// Whether `cols` holds what the eight columns of the board hold of the pawns of colour `c`.
pub open spec fn columns_of(cols: Seq<Column>, board: Seq<Piece>, c: bool) -> bool {
    cols.len() == 8 && forall|q: int|
        0 <= q < 8 ==> {
            &&& (#[trigger] cols[q]).count == pawns_on(board, q, c, 8)
            &&& cols[q].top == top_pawn(board, q, c, 8)
            &&& cols[q].low == low_pawn(board, q, c, 8)
        }
}

/// What every column holds of the pawns of colour `c`.
fn scan_columns(board: &[Piece; 64], c: bool) -> (cols: [Column; 8])
    ensures
        columns_of(cols@, board@, c),
{
    let mut cols: [Column; 8] = [Column { count: 0, top: -1, low: 8 };8];
    let mut q: usize = 0;
    while q < 8
        invariant
            q <= 8,
            forall|j: int|
                0 <= j < q ==> {
                    &&& (#[trigger] cols@[j]).count == pawns_on(board@, j, c, 8)
                    &&& cols@[j].top == top_pawn(board@, j, c, 8)
                    &&& cols@[j].low == low_pawn(board@, j, c, 8)
                },
        decreases 8 - q,
    {
        cols[q] = scan_column(board, q, c);
        q = q + 1;
    }
    cols
}

/// What the pawns of colour `c` on column `q` lose.
fn column_penalty(cols: &[Column; 8], q: usize, Ghost(board): Ghost<Seq<Piece>>, Ghost(c): Ghost<bool>) -> (r:
    i16)
    requires
        q < 8,
        columns_of(cols@, board, c),
    ensures
        r == penalty(board, q as int, c),
        0 <= r <= 144,
{
    proof {
        lemma_column_bounds(board, q as int, c, 8);
        if q > 0 {
            lemma_column_bounds(board, q as int - 1, c, 8);
        }
        if q < 7 {
            lemma_column_bounds(board, q as int + 1, c, 8);
        }
    }
    let count = cols[q].count;
    let double: i16 = if count > 0 {
        count - 1
    } else {
        0
    };
    let left = q > 0 && cols[q - 1].count > 0;
    let right = q < 7 && cols[q + 1].count > 0;
    let alone = count > 0 && !left && !right;
    20 * double + if alone {
        4
    } else {
        0
    }
}

/// Score of the pawns of column `q`, for White.
fn score_column(white: &[Column; 8], black: &[Column; 8], q: usize, Ghost(board): Ghost<Seq<Piece>>) -> (r:
    i16)
    requires
        q < 8,
        columns_of(white@, board, true),
        columns_of(black@, board, false),
    ensures
        r == column_score(board, q as int),
        -250 <= r <= 250,
{
    proof {
        lemma_column_bounds(board, q as int, true, 8);
        lemma_column_bounds(board, q as int, false, 8);
    }
    let w = &white[q];
    let b = &black[q];
    let ahead: i16 = if w.top >= 0 && w.top > b.top {
        assert(0 <= w.top * w.top <= 49) by (nonlinear_arith)
            requires
                0 <= w.top <= 7,
        ;
        let square: i16 = w.top * w.top;
        2 * square
    } else {
        0
    };
    let behind: i16 = if b.low < 8 && b.low < w.low {
        let d: i16 = 7 - b.low;
        assert(0 <= d * d <= 49) by (nonlinear_arith)
            requires
                0 <= d <= 7,
        ;
        let square: i16 = d * d;
        2 * square
    } else {
        0
    };
    column_penalty(black, q, Ghost(board), Ghost(false)) - column_penalty(
        white,
        q,
        Ghost(board),
        Ghost(true),
    ) + ahead - behind
}

/// Score of the pawn structure, for White: for each column the penalties of Black's pawns less
/// those of White's, and the bonus of White's passed pawn less that of Black's.
pub fn pawn_structure(board: &[Piece; 64]) -> (score: i16)
    ensures
        score == spec_pawn_structure(board@),
        -2000 <= score <= 2000,
{
    let white = scan_columns(board, true);
    let black = scan_columns(board, false);
    let mut score: i16 = 0;
    let mut q: usize = 0;
    while q < 8
        invariant
            q <= 8,
            columns_of(white@, board@, true),
            columns_of(black@, board@, false),
            score == structure_below(board@, q as int),
            -250 * q <= score <= 250 * q,
        decreases 8 - q,
    {
        score = score + score_column(&white, &black, q, Ghost(board@));
        q = q + 1;
    }
    score
}

} // verus!
