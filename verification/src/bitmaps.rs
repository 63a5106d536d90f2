//! Attack tables: for every square the bitboard of the squares that a piece standing there
//! reaches on an empty board, and for every square and blocker the squares behind the blocker.

use vstd::prelude::*;
use crate::bits::{bit, set_bit};

verus! {

/// The geometric relations that the tables hold.
#[derive(Clone, Copy, Debug, PartialEq, Eq, Structural)]
pub enum Reach {
    /// A knight's jump.
    Knight,
    /// A king's step.
    King,
    /// Any square on the same file or rank.
    Rook,
    /// Any square on the same diagonal.
    Bishop,
    /// Any square on the same file, rank or diagonal.
    Queen,
    /// The two squares that a pawn of the given colour attacks.
    PawnCapture(bool),
    /// The square in front of a pawn of the given colour.
    PawnStep1(bool),
    /// The square two in front of a pawn of the given colour that stands on its home rank.
    PawnStep2(bool),
    /// From a blocker: the squares behind it, seen from the given square along their common line.
    Beyond(usize),
}

pub open spec fn spec_abs(x: int) -> int {
    if x < 0 {
        -x
    } else {
        x
    }
}

pub open spec fn spec_sign(x: int) -> int {
    if x < 0 {
        -1
    } else if x > 0 {
        1
    } else {
        0
    }
}

/// Whether `t` lies on a file, rank or diagonal through `s`, at the signed distances `dc`
/// and `dr`.
pub open spec fn on_line(dc: int, dr: int) -> bool {
    (dc != 0 || dr != 0) && (dc == 0 || dr == 0 || spec_abs(dc) == spec_abs(dr))
}

/// Number of steps between two squares of one line.
pub open spec fn line_dist(dc: int, dr: int) -> int {
    if spec_abs(dc) > spec_abs(dr) {
        spec_abs(dc)
    } else {
        spec_abs(dr)
    }
}

/// The direction in which a pawn of the given colour moves along its file.
pub open spec fn forward(white: bool) -> int {
    if white {
        1
    } else {
        -1
    }
}

/// The rank on which the pawns of the given colour start.
pub open spec fn home_rank(white: bool) -> int {
    if white {
        1
    } else {
        6
    }
}

/// Whether square `t` stands in the relation `kind` to square `a`.
pub open spec fn reach(kind: Reach, a: int, t: int) -> bool {
    let dc = t / 8 - a / 8;
    let dr = t % 8 - a % 8;
    0 <= a < 64 && 0 <= t < 64 && match kind {
        Reach::Knight => (spec_abs(dc) == 1 && spec_abs(dr) == 2) || (spec_abs(dc) == 2
            && spec_abs(dr) == 1),
        Reach::King => line_dist(dc, dr) == 1,
        Reach::Rook => (dc == 0) != (dr == 0),
        Reach::Bishop => dc != 0 && spec_abs(dc) == spec_abs(dr),
        Reach::Queen => on_line(dc, dr),
        Reach::PawnCapture(white) => dr == forward(white) && spec_abs(dc) == 1,
        Reach::PawnStep1(white) => dr == forward(white) && dc == 0,
        Reach::PawnStep2(white) => dr == 2 * forward(white) && dc == 0 && a % 8 == home_rank(
            white,
        ),
        Reach::Beyond(s) => {
            let bc = a / 8 - s / 8;
            let br = a % 8 - s % 8;
            let tc = t / 8 - s / 8;
            let tr = t % 8 - s % 8;
            &&& s < 64
            &&& on_line(bc, br)
            &&& on_line(tc, tr)
            &&& spec_sign(bc) == spec_sign(tc)
            &&& spec_sign(br) == spec_sign(tr)
            &&& line_dist(tc, tr) > line_dist(bc, br)
        },
    }
}

fn abs_i8(x: i8) -> (r: i8)
    requires
        -8 < x < 8,
    ensures
        r == spec_abs(x as int),
{
    if x < 0 {
        -x
    } else {
        x
    }
}

fn sign_i8(x: i8) -> (r: i8)
    ensures
        r == spec_sign(x as int),
{
    if x < 0 {
        -1
    } else if x > 0 {
        1
    } else {
        0
    }
}

fn is_on_line(dc: i8, dr: i8) -> (r: bool)
    requires
        -8 < dc < 8,
        -8 < dr < 8,
    ensures
        r == on_line(dc as int, dr as int),
{
    (dc != 0 || dr != 0) && (dc == 0 || dr == 0 || abs_i8(dc) == abs_i8(dr))
}

fn dist_on_line(dc: i8, dr: i8) -> (r: i8)
    requires
        -8 < dc < 8,
        -8 < dr < 8,
    ensures
        r == line_dist(dc as int, dr as int),
{
    let c = abs_i8(dc);
    let r = abs_i8(dr);
    if c > r {
        c
    } else {
        r
    }
}

/// Signed distance of two squares in columns and in ranks.
fn delta(a: usize, t: usize) -> (d: (i8, i8))
    requires
        a < 64,
        t < 64,
    ensures
        d.0 == t as int / 8 - a as int / 8,
        d.1 == t as int % 8 - a as int % 8,
        -8 < d.0 < 8,
        -8 < d.1 < 8,
{
    ((t / 8) as i8 - (a / 8) as i8, (t % 8) as i8 - (a % 8) as i8)
}

/// Whether square `t` stands in the relation `kind` to square `a`.
pub fn reaches(kind: Reach, a: usize, t: usize) -> (r: bool)
    requires
        a < 64,
        t < 64,
    ensures
        r == reach(kind, a as int, t as int),
{
    let (dc, dr) = delta(a, t);
    match kind {
        Reach::Knight => (abs_i8(dc) == 1 && abs_i8(dr) == 2) || (abs_i8(dc) == 2 && abs_i8(dr)
            == 1),
        Reach::King => dist_on_line(dc, dr) == 1,
        Reach::Rook => (dc == 0) != (dr == 0),
        Reach::Bishop => dc != 0 && abs_i8(dc) == abs_i8(dr),
        Reach::Queen => is_on_line(dc, dr),
        Reach::PawnCapture(white) => {
            let fwd: i8 = if white { 1 } else { -1 };
            dr == fwd && abs_i8(dc) == 1
        },
        Reach::PawnStep1(white) => {
            let fwd: i8 = if white { 1 } else { -1 };
            dr == fwd && dc == 0
        },
        Reach::PawnStep2(white) => {
            let fwd: i8 = if white { 2 } else { -2 };
            let home: usize = if white { 1 } else { 6 };
            dr == fwd && dc == 0 && a % 8 == home
        },
        Reach::Beyond(s) => {
            if s >= 64 {
                false
            } else {
                let (bc, br) = delta(s, a);
                let (tc, tr) = delta(s, t);
                is_on_line(bc, br) && is_on_line(tc, tr) && sign_i8(bc) == sign_i8(tc) && sign_i8(
                    br,
                ) == sign_i8(tr) && dist_on_line(tc, tr) > dist_on_line(bc, br)
            }
        },
    }
}

/// The bitboard of the squares that stand in the relation `kind` to square `a`.
pub fn build_mask(kind: Reach, a: usize) -> (m: u64)
    requires
        a < 64,
    ensures
        forall|t: int| #[trigger] bit(m, t) == reach(kind, a as int, t),
{
    let mut m: u64 = 0;
    let mut t: usize = 0;
    proof {
        assert forall|j: int| #[trigger] bit(m, j) == (j < 0 && reach(kind, a as int, j)) by {
            crate::bits::lemma_bit_zero(j);
        }
    }
    while t < 64
        invariant
            t <= 64,
            a < 64,
            forall|j: int| #[trigger] bit(m, j) == (j < t && reach(kind, a as int, j)),
        decreases 64 - t,
    {
        if reaches(kind, a, t) {
            m = set_bit(m, t);
        }
        t = t + 1;
    }
    m
}

/// One table: the bitboard of `kind` for each of the 64 squares.
fn build_row(kind: Reach) -> (row: Vec<u64>)
    ensures
        is_row(row@, kind),
{
    let mut row: Vec<u64> = Vec::with_capacity(64);
    let mut a: usize = 0;
    while a < 64
        invariant
            a <= 64,
            row.len() == a,
            forall|i: int, t: int| 0 <= i < a ==> #[trigger] bit(row[i], t) == reach(kind, i, t),
        decreases 64 - a,
    {
        let m = build_mask(kind, a);
        row.push(m);
        a = a + 1;
    }
    row
}

/// Whether `row` is the table of `kind`.
pub open spec fn is_row(row: Seq<u64>, kind: Reach) -> bool {
    &&& row.len() == 64
    &&& forall|a: int, t: int| 0 <= a < 64 ==> #[trigger] bit(row[a], t) == reach(kind, a, t)
}

/// The precomputed tables.
pub struct Tables {
    knight: Vec<u64>,
    king: Vec<u64>,
    rook: Vec<u64>,
    bishop: Vec<u64>,
    queen: Vec<u64>,
    white_captures: Vec<u64>,
    black_captures: Vec<u64>,
    white_step1: Vec<u64>,
    black_step1: Vec<u64>,
    white_step2: Vec<u64>,
    black_step2: Vec<u64>,
    blocked: Vec<Vec<u64>>,
}

impl Tables {
    /// Every table holds, for every square, exactly the squares of its relation.
    pub closed spec fn wf(&self) -> bool {
        &&& is_row(self.knight@, Reach::Knight)
        &&& is_row(self.king@, Reach::King)
        &&& is_row(self.rook@, Reach::Rook)
        &&& is_row(self.bishop@, Reach::Bishop)
        &&& is_row(self.queen@, Reach::Queen)
        &&& is_row(self.white_captures@, Reach::PawnCapture(true))
        &&& is_row(self.black_captures@, Reach::PawnCapture(false))
        &&& is_row(self.white_step1@, Reach::PawnStep1(true))
        &&& is_row(self.black_step1@, Reach::PawnStep1(false))
        &&& is_row(self.white_step2@, Reach::PawnStep2(true))
        &&& is_row(self.black_step2@, Reach::PawnStep2(false))
        &&& self.blocked.len() == 64
        &&& forall|s: int| 0 <= s < 64 ==> is_row(#[trigger] self.blocked[s]@, Reach::Beyond(s as usize))
    }

    /// Computes all tables.
    pub fn new() -> (tables: Tables)
        ensures
            tables.wf(),
    {
        let mut blocked: Vec<Vec<u64>> = Vec::with_capacity(64);
        let mut s: usize = 0;
        while s < 64
            invariant
                s <= 64,
                blocked.len() == s,
                forall|i: int| 0 <= i < s ==> is_row(#[trigger] blocked[i]@, Reach::Beyond(i as usize)),
            decreases 64 - s,
        {
            let row = build_row(Reach::Beyond(s));
            blocked.push(row);
            s = s + 1;
        }
        Tables {
            knight: build_row(Reach::Knight),
            king: build_row(Reach::King),
            rook: build_row(Reach::Rook),
            bishop: build_row(Reach::Bishop),
            queen: build_row(Reach::Queen),
            white_captures: build_row(Reach::PawnCapture(true)),
            black_captures: build_row(Reach::PawnCapture(false)),
            white_step1: build_row(Reach::PawnStep1(true)),
            black_step1: build_row(Reach::PawnStep1(false)),
            white_step2: build_row(Reach::PawnStep2(true)),
            black_step2: build_row(Reach::PawnStep2(false)),
            blocked,
        }
    }

    /// The bitboard of the squares that stand in the relation `kind` to square `a`. Of a
    /// `Beyond` with a square off the board it is empty.
    pub fn mask(&self, kind: Reach, a: usize) -> (m: u64)
        requires
            self.wf(),
            a < 64,
        ensures
            forall|t: int| #[trigger] bit(m, t) == reach(kind, a as int, t),
    {
        match kind {
            Reach::Knight => self.knight[a],
            Reach::King => self.king[a],
            Reach::Rook => self.rook[a],
            Reach::Bishop => self.bishop[a],
            Reach::Queen => self.queen[a],
            Reach::PawnCapture(white) => if white {
                self.white_captures[a]
            } else {
                self.black_captures[a]
            },
            Reach::PawnStep1(white) => if white {
                self.white_step1[a]
            } else {
                self.black_step1[a]
            },
            Reach::PawnStep2(white) => if white {
                self.white_step2[a]
            } else {
                self.black_step2[a]
            },
            Reach::Beyond(s) => {
                if s < 64 {
                    self.blocked[s][a]
                } else {
                    proof {
                        assert forall|t: int| #[trigger] bit(0u64, t) == reach(kind, a as int, t) by {
                            crate::bits::lemma_bit_zero(t);
                        }
                    }
                    0
                }
            },
        }
    }
}

} // verus!
