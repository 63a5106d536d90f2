//! Forsyth-Edwards notation: the text of a position and its reading.

use vstd::prelude::*;
use vstd::string::StrSliceExecFns;
use crate::bitmaps::{reach, Reach};
use crate::game::{spec_end_game, Game, Position, Progress, TTable};
use crate::mgen::{
    en_passant_square, ep_square, null_move, spec_null_move, spec_pack, Castling, Move,
};
use crate::val::{lemma_from_ascii_inverse, Piece};

verus! {

/// `String::push` appends one character to the string.
pub assume_specification[ String::push ](s: &mut String, c: char)
    ensures
        final(s)@ == old(s)@.push(c),
;

/// The characters of a string.
pub fn chars_of(s: &str) -> (v: Vec<char>)
    ensures
        v@ == s@,
{
    let n = s.unicode_len();
    let mut v: Vec<char> = Vec::with_capacity(n);
    let mut i: usize = 0;
    while i < n
        invariant
            i <= n,
            n == s@.len(),
            v@ == s@.subrange(0, i as int),
        decreases n - i,
    {
        v.push(s.get_char(i));
        proof {
            assert(s@.subrange(0, i as int + 1) =~= s@.subrange(0, i as int).push(s@[i as int]));
        }
        i = i + 1;
    }
    proof {
        assert(s@.subrange(0, n as int) =~= s@);
    }
    v
}

/// The string of the characters.
pub fn string_of(v: &Vec<char>) -> (s: String)
    ensures
        s@ == v@,
{
    let mut s = String::new();
    let mut i: usize = 0;
    while i < v.len()
        invariant
            i <= v.len(),
            s@ == v@.subrange(0, i as int),
        decreases v.len() - i,
    {
        s.push(v[i]);
        proof {
            assert(v@.subrange(0, i as int + 1) =~= v@.subrange(0, i as int).push(v@[i as int]));
        }
        i = i + 1;
    }
    proof {
        assert(v@.subrange(0, v@.len() as int) =~= v@);
    }
    s
}

/// The field of the notation in which a text was found to be wrong.
#[derive(Clone, Copy, Debug, PartialEq, Eq, Structural)]
pub enum FenField {
    Placement,
    Side,
    Castling,
    EnPassant,
    HalfMove,
    FullMove,
}

/// What was found to be wrong.
#[derive(Clone, Copy, Debug, PartialEq, Eq, Structural)]
pub enum FenReason {
    /// The field is empty.
    Empty,
    /// A character that the field does not allow, or an allowed one out of its place.
    BadChar,
    /// A rank describes more or fewer than eight squares, or there are not eight ranks.
    BadLength,
    /// The number is too large.
    TooLarge,
    /// No pawn has just passed the square that is named.
    NoPawn,
    /// Text follows the last field.
    Trailing,
}

/// Why a text is no position.
#[derive(Clone, Copy, Debug, PartialEq, Eq, Structural)]
pub struct ParseError {
    pub field: FenField,
    pub reason: FenReason,
}

/// The six fields of the notation as plain values.
pub struct Fen {
    pub board: [Piece; 64],
    /// The side to move, `true` for White.
    pub colour: bool,
    pub castling: Castling,
    /// The square on which a pawn may be captured en passant.
    pub ep: Option<usize>,
    pub half: usize,
    pub full: usize,
    /// Number of fields that the text held. The others have their defaults: White to move, no
    /// castling rights, no capture en passant, the counters 0 and 1.
    pub given: usize,
}

/// The character of a digit.
pub open spec fn digit_char(d: int) -> char {
    if d == 0 {
        '0'
    } else if d == 1 {
        '1'
    } else if d == 2 {
        '2'
    } else if d == 3 {
        '3'
    } else if d == 4 {
        '4'
    } else if d == 5 {
        '5'
    } else if d == 6 {
        '6'
    } else if d == 7 {
        '7'
    } else if d == 8 {
        '8'
    } else {
        '9'
    }
}

/// The letter of a file, the a-file being file 0.
pub open spec fn file_char(f: int) -> char {
    if f == 0 {
        'a'
    } else if f == 1 {
        'b'
    } else if f == 2 {
        'c'
    } else if f == 3 {
        'd'
    } else if f == 4 {
        'e'
    } else if f == 5 {
        'f'
    } else if f == 6 {
        'g'
    } else {
        'h'
    }
}

/// The decimal digits of a number, without leading zeros.
pub open spec fn decimal(n: int) -> Seq<char>
    decreases n,
{
    if n < 10 {
        seq![digit_char(n)]
    } else {
        decimal(n / 10).push(digit_char(n % 10))
    }
}

/// The count of a run of empty squares as text; nothing for no run.
pub open spec fn flush(n: int) -> Seq<char> {
    if n > 0 {
        seq![digit_char(n)]
    } else {
        Seq::<char>::empty()
    }
}

/// Number of empty squares at the end of the first `k` squares of a row.
pub open spec fn pending(row: Seq<Piece>, k: int) -> int
    decreases k,
{
    if k <= 0 {
        0
    } else if row[k - 1] == Piece::Nil {
        pending(row, k - 1) + 1
    } else {
        0
    }
}

/// The text of the first `k` squares of a row up to its last piece: the letter of each piece,
/// before it the count of the empty squares that precede it.
pub open spec fn emitted(row: Seq<Piece>, k: int) -> Seq<char>
    decreases k,
{
    if k <= 0 {
        Seq::<char>::empty()
    } else if row[k - 1] == Piece::Nil {
        emitted(row, k - 1)
    } else {
        (emitted(row, k - 1) + flush(pending(row, k - 1))).push(row[k - 1].spec_ascii())
    }
}

/// The text of a row of eight squares.
pub open spec fn row_text(row: Seq<Piece>) -> Seq<char> {
    emitted(row, 8) + flush(pending(row, 8))
}

/// The squares of rank `y` from the a-file to the h-file.
pub open spec fn row_of(board: Seq<Piece>, y: int) -> Seq<Piece> {
    Seq::new(8, |k: int| board[(7 - k) * 8 + y])
}

/// The text of the first `r` ranks, from the eighth rank down, with a stroke between two.
pub open spec fn ranks_text(board: Seq<Piece>, r: int) -> Seq<char>
    decreases r,
{
    if r <= 0 {
        Seq::<char>::empty()
    } else if r == 1 {
        row_text(row_of(board, 7))
    } else {
        ranks_text(board, r - 1).push('/') + row_text(row_of(board, 8 - r))
    }
}

/// The text of the side to move.
pub open spec fn side_text(colour: bool) -> Seq<char> {
    if colour {
        seq!['w']
    } else {
        seq!['b']
    }
}

/// One letter where the right is there.
pub open spec fn right_text(has: bool, c: char) -> Seq<char> {
    if has {
        seq![c]
    } else {
        Seq::<char>::empty()
    }
}

/// The text of the castling rights: the letters of those that are left, a dash for none.
pub open spec fn castling_text(c: Castling) -> Seq<char> {
    if !c.white_short && !c.white_long && !c.black_short && !c.black_long {
        seq!['-']
    } else {
        right_text(c.white_short, 'K') + right_text(c.white_long, 'Q') + right_text(
            c.black_short,
            'k',
        ) + right_text(c.black_long, 'q')
    }
}

/// The name of a square: the letter of its file and the digit of its rank.
pub open spec fn square_name(sq: int) -> Seq<char> {
    seq![file_char(7 - sq / 8), digit_char(sq % 8 + 1)]
}

/// The text of the square of a capture en passant, a dash for none.
pub open spec fn ep_text(ep: Option<usize>) -> Seq<char> {
    match ep {
        Some(sq) => square_name(sq as int),
        None => seq!['-'],
    }
}

/// The text of the first `n` fields of a position, with a space between two.
pub open spec fn fields_text(
    board: Seq<Piece>,
    colour: bool,
    castling: Castling,
    ep: Option<usize>,
    half: int,
    full: int,
    n: int,
) -> Seq<char>
    decreases n,
{
    if n <= 1 {
        ranks_text(board, 8)
    } else {
        fields_text(board, colour, castling, ep, half, full, n - 1).push(' ') + if n == 2 {
            side_text(colour)
        } else if n == 3 {
            castling_text(castling)
        } else if n == 4 {
            ep_text(ep)
        } else if n == 5 {
            decimal(half)
        } else {
            decimal(full)
        }
    }
}

impl Fen {
    /// The text of the fields that were given.
    pub open spec fn text(self) -> Seq<char> {
        fields_text(
            self.board@,
            self.colour,
            self.castling,
            self.ep,
            self.half as int,
            self.full as int,
            self.given as int,
        )
    }

    /// Whether the values can be those of a position: between one and six fields were given,
    /// the others have their defaults, the square of the capture en passant lies on the board,
    /// and the counters are not too large.
    pub open spec fn wf(self) -> bool {
        &&& 1 <= self.given <= 6
        &&& self.given < 2 ==> self.colour
        &&& self.given < 3 ==> self.castling == (Castling {
            white_short: false,
            white_long: false,
            black_short: false,
            black_long: false,
        })
        &&& self.given < 4 ==> self.ep is None
        &&& self.given < 5 ==> self.half == 0
        &&& self.given < 6 ==> self.full == 1
        &&& self.ep is Some ==> self.ep->0 < 64
        &&& self.half <= 65535
        &&& self.full <= 65535
    }
}

/// The character of a digit.
fn digit_of(d: usize) -> (c: char)
    requires
        d < 10,
    ensures
        c == digit_char(d as int),
{
    if d == 0 {
        '0'
    } else if d == 1 {
        '1'
    } else if d == 2 {
        '2'
    } else if d == 3 {
        '3'
    } else if d == 4 {
        '4'
    } else if d == 5 {
        '5'
    } else if d == 6 {
        '6'
    } else if d == 7 {
        '7'
    } else if d == 8 {
        '8'
    } else {
        '9'
    }
}

/// The digit that a character is.
fn digit_value(c: char) -> (r: Option<usize>)
    ensures
        match r {
            Some(d) => d < 10 && c == digit_char(d as int),
            None => forall|d: int| 0 <= d < 10 ==> c != #[trigger] digit_char(d),
        },
{
    if c == '0' {
        Some(0)
    } else if c == '1' {
        Some(1)
    } else if c == '2' {
        Some(2)
    } else if c == '3' {
        Some(3)
    } else if c == '4' {
        Some(4)
    } else if c == '5' {
        Some(5)
    } else if c == '6' {
        Some(6)
    } else if c == '7' {
        Some(7)
    } else if c == '8' {
        Some(8)
    } else if c == '9' {
        Some(9)
    } else {
        None
    }
}

/// The letter of a file.
fn file_letter(f: usize) -> (c: char)
    requires
        f < 8,
    ensures
        c == file_char(f as int),
{
    if f == 0 {
        'a'
    } else if f == 1 {
        'b'
    } else if f == 2 {
        'c'
    } else if f == 3 {
        'd'
    } else if f == 4 {
        'e'
    } else if f == 5 {
        'f'
    } else if f == 6 {
        'g'
    } else {
        'h'
    }
}

/// The file that a letter names.
fn file_value(c: char) -> (r: Option<usize>)
    ensures
        match r {
            Some(f) => f < 8 && c == file_char(f as int),
            None => forall|f: int| 0 <= f < 8 ==> c != #[trigger] file_char(f),
        },
{
    if c == 'a' {
        Some(0)
    } else if c == 'b' {
        Some(1)
    } else if c == 'c' {
        Some(2)
    } else if c == 'd' {
        Some(3)
    } else if c == 'e' {
        Some(4)
    } else if c == 'f' {
        Some(5)
    } else if c == 'g' {
        Some(6)
    } else if c == 'h' {
        Some(7)
    } else {
        None
    }
}

/// Appends the decimal digits of `n`.
fn push_decimal(out: &mut Vec<char>, n: usize)
    ensures
        final(out)@ == old(out)@ + decimal(n as int),
    decreases n,
{
    if n >= 10 {
        push_decimal(out, n / 10);
        out.push(digit_of(n % 10));
        proof {
            assert(out@ =~= old(out)@ + decimal(n as int));
        }
    } else {
        out.push(digit_of(n));
        proof {
            assert(out@ =~= old(out)@ + decimal(n as int));
        }
    }
}

/// Appends the text of rank `y`.
fn push_row(out: &mut Vec<char>, board: &[Piece; 64], y: usize)
    requires
        y < 8,
    ensures
        final(out)@ == old(out)@ + row_text(row_of(board@, y as int)),
{
    let ghost row = row_of(board@, y as int);
    let mut run: usize = 0;
    let mut k: usize = 0;
    while k < 8
        invariant
            k <= 8,
            y < 8,
            row == row_of(board@, y as int),
            run == pending(row, k as int),
            run <= k,
            out@ == old(out)@ + emitted(row, k as int),
        decreases 8 - k,
    {
        let p = board[(7 - k) * 8 + y];
        assert(p == row[k as int]);
        if p.is_nil() {
            run = run + 1;
        } else {
            let ghost before = out@;
            if run > 0 {
                out.push(digit_of(run));
            }
            out.push(p.to_ascii());
            proof {
                assert(out@ =~= old(out)@ + emitted(row, k as int + 1));
            }
            run = 0;
        }
        k = k + 1;
    }
    if run > 0 {
        out.push(digit_of(run));
    }
    proof {
        assert(out@ =~= old(out)@ + row_text(row));
    }
}

/// Appends the text of the piece placement.
fn push_placement(out: &mut Vec<char>, board: &[Piece; 64])
    ensures
        final(out)@ == old(out)@ + ranks_text(board@, 8),
{
    let mut r: usize = 0;
    while r < 8
        invariant
            r <= 8,
            out@ == old(out)@ + ranks_text(board@, r as int),
        decreases 8 - r,
    {
        let ghost before = out@;
        if r > 0 {
            out.push('/');
        }
        push_row(out, board, 7 - r);
        proof {
            assert(out@ =~= old(out)@ + ranks_text(board@, r as int + 1));
        }
        r = r + 1;
    }
}

/// Appends the text of the castling rights.
fn push_castling(out: &mut Vec<char>, c: &Castling)
    ensures
        final(out)@ == old(out)@ + castling_text(*c),
{
    if !c.white_short && !c.white_long && !c.black_short && !c.black_long {
        out.push('-');
        proof {
            assert(out@ =~= old(out)@ + castling_text(*c));
        }
    } else {
        if c.white_short {
            out.push('K');
        }
        if c.white_long {
            out.push('Q');
        }
        if c.black_short {
            out.push('k');
        }
        if c.black_long {
            out.push('q');
        }
        proof {
            assert(out@ =~= old(out)@ + castling_text(*c));
        }
    }
}

/// Appends the text of the square of a capture en passant.
fn push_ep(out: &mut Vec<char>, ep: Option<usize>)
    requires
        ep is Some ==> ep->0 < 64,
    ensures
        final(out)@ == old(out)@ + ep_text(ep),
{
    match ep {
        Some(sq) => {
            out.push(file_letter(7 - sq / 8));
            out.push(digit_of(sq % 8 + 1));
        },
        None => {
            out.push('-');
        },
    }
    proof {
        assert(out@ =~= old(out)@ + ep_text(ep));
    }
}

/// The text of all six fields.
pub fn print_fen(f: &Fen) -> (out: Vec<char>)
    requires
        f.ep is Some ==> f.ep->0 < 64,
    ensures
        out@ == fields_text(f.board@, f.colour, f.castling, f.ep, f.half as int, f.full as int, 6),
{
    let mut out: Vec<char> = Vec::new();
    let ghost b = f.board@;
    let ghost h = f.half as int;
    let ghost u = f.full as int;
    push_placement(&mut out, &f.board);
    assert(out@ =~= fields_text(b, f.colour, f.castling, f.ep, h, u, 1));
    out.push(' ');
    out.push(if f.colour { 'w' } else { 'b' });
    assert(out@ =~= fields_text(b, f.colour, f.castling, f.ep, h, u, 2));
    out.push(' ');
    push_castling(&mut out, &f.castling);
    assert(out@ =~= fields_text(b, f.colour, f.castling, f.ep, h, u, 3));
    out.push(' ');
    push_ep(&mut out, f.ep);
    assert(out@ =~= fields_text(b, f.colour, f.castling, f.ep, h, u, 4));
    out.push(' ');
    push_decimal(&mut out, f.half);
    assert(out@ =~= fields_text(b, f.colour, f.castling, f.ep, h, u, 5));
    out.push(' ');
    push_decimal(&mut out, f.full);
    assert(out@ =~= fields_text(b, f.colour, f.castling, f.ep, h, u, 6));
    out
}

/// What the first `k` squares of a row print depends on these squares alone.
pub proof fn lemma_row_frame(a: Seq<Piece>, b: Seq<Piece>, k: int)
    requires
        forall|j: int| 0 <= j < k ==> a[j] == b[j],
    ensures
        emitted(a, k) == emitted(b, k),
        pending(a, k) == pending(b, k),
    decreases k,
{
    if k > 0 {
        lemma_row_frame(a, b, k - 1);
    }
}

/// A run of empty squares is no longer than the row that was looked at.
pub proof fn lemma_pending_bounds(row: Seq<Piece>, k: int)
    requires
        0 <= k,
    ensures
        0 <= pending(row, k) <= k,
    decreases k,
{
    if k > 0 {
        lemma_pending_bounds(row, k - 1);
    }
}

/// Empty squares print nothing before the next piece and lengthen the run.
pub proof fn lemma_row_skip(row: Seq<Piece>, k: int, d: int)
    requires
        0 <= k,
        0 <= d,
        forall|j: int| k <= j < k + d ==> row[j] == Piece::Nil,
    ensures
        emitted(row, k + d) == emitted(row, k),
        pending(row, k + d) == pending(row, k) + d,
    decreases d,
{
    if d > 0 {
        lemma_row_skip(row, k, d - 1);
    }
}

/// What the first `r` ranks print depends on these ranks alone.
pub proof fn lemma_ranks_frame(a: Seq<Piece>, b: Seq<Piece>, r: int)
    requires
        0 <= r <= 8,
        forall|sq: int| 0 <= sq < 64 && sq % 8 >= 8 - r ==> a[sq] == b[sq],
    ensures
        ranks_text(a, r) == ranks_text(b, r),
    decreases r,
{
    if r > 0 {
        lemma_ranks_frame(a, b, r - 1);
        assert(row_of(a, 8 - r) =~= row_of(b, 8 - r));
    }
}

/// The text of the first fields depends on these fields alone.
pub proof fn lemma_fields_frame(
    board: Seq<Piece>,
    colour: bool,
    castling: Castling,
    ep: Option<usize>,
    half: int,
    full: int,
    colour2: bool,
    castling2: Castling,
    ep2: Option<usize>,
    half2: int,
    full2: int,
    n: int,
)
    requires
        1 <= n <= 6,
        n >= 2 ==> colour == colour2,
        n >= 3 ==> castling == castling2,
        n >= 4 ==> ep == ep2,
        n >= 5 ==> half == half2,
        n >= 6 ==> full == full2,
    ensures
        fields_text(board, colour, castling, ep, half, full, n) == fields_text(
            board,
            colour2,
            castling2,
            ep2,
            half2,
            full2,
            n,
        ),
    decreases n,
{
    if n > 1 {
        lemma_fields_frame(
            board,
            colour,
            castling,
            ep,
            half,
            full,
            colour2,
            castling2,
            ep2,
            half2,
            full2,
            n - 1,
        );
    }
}

/// Number of empty squares of a row from square `j` up to the next piece or the end.
pub open spec fn run(row: Seq<Piece>, j: int) -> int
    decreases 8 - j,
{
    if j >= 8 || row[j] != Piece::Nil {
        0
    } else {
        1 + run(row, j + 1)
    }
}

/// Whether a new item of the text of a row begins at square `j`: a piece, a run of empty
/// squares, or the end of the row.
pub open spec fn item_start(row: Seq<Piece>, j: int) -> bool {
    j == 8 || row[j] != Piece::Nil || pending(row, j) == 0
}

/// The text of a row from the item that begins at square `j`.
pub open spec fn row_tail(row: Seq<Piece>, j: int) -> Seq<char>
    decreases 8 - j,
{
    if j >= 8 || j < 0 {
        Seq::<char>::empty()
    } else if row[j] != Piece::Nil {
        seq![row[j].spec_ascii()] + row_tail(row, j + 1)
    } else if 1 <= run(row, j) <= 8 - j {
        seq![digit_char(run(row, j))] + row_tail(row, j + run(row, j))
    } else {
        Seq::<char>::empty()
    }
}

/// A run of empty squares ends at a piece or at the end of the row.
pub proof fn lemma_run(row: Seq<Piece>, j: int)
    requires
        0 <= j <= 8,
    ensures
        0 <= run(row, j) <= 8 - j,
        forall|x: int| j <= x < j + run(row, j) ==> row[x] == Piece::Nil,
        j + run(row, j) == 8 || row[j + run(row, j)] != Piece::Nil,
        j < 8 && row[j] == Piece::Nil ==> run(row, j) >= 1,
    decreases 8 - j,
{
    if j < 8 && row[j] == Piece::Nil {
        lemma_run(row, j + 1);
    }
}

/// The text of a row is what was written before an item and what is written from it on.
pub proof fn lemma_row_tail(row: Seq<Piece>, j: int)
    requires
        0 <= j <= 8,
        item_start(row, j),
    ensures
        row_text(row) == emitted(row, j) + flush(pending(row, j)) + row_tail(row, j),
    decreases 8 - j,
{
    let lead = emitted(row, j) + flush(pending(row, j));
    if j == 8 {
        assert(lead + row_tail(row, j) =~= lead);
    } else if row[j] != Piece::Nil {
        lemma_row_tail(row, j + 1);
        assert(emitted(row, j + 1) + flush(pending(row, j + 1)) + row_tail(row, j + 1) =~= lead
            + row_tail(row, j));
    } else {
        let d = run(row, j);
        lemma_run(row, j);
        lemma_row_skip(row, j, d);
        lemma_pending_bounds(row, j);
        lemma_row_tail(row, j + d);
        assert(emitted(row, j + d) + flush(pending(row, j + d)) + row_tail(row, j + d) =~= lead
            + row_tail(row, j));
    }
}

/// Different digits have different characters, and no digit has the letter of a piece.
pub proof fn lemma_digit_chars(a: int, b: int)
    requires
        0 <= a < 10,
        0 <= b < 10,
    ensures
        digit_char(a) == digit_char(b) ==> a == b,
        Piece::spec_from_ascii(digit_char(a)) is None,
        digit_char(a) != ' ',
        digit_char(a) != '/',
        digit_char(a) != '-',
{
}

fn fail<T>(field: FenField, reason: FenReason) -> (r: Result<T, ParseError>)
    ensures
        r == Err::<T, ParseError>(ParseError { field, reason }),
{
    Err(ParseError { field, reason })
}

/// Whether `text` holds `part` from `start` on.
pub open spec fn holds_at(text: Seq<char>, start: int, part: Seq<char>) -> bool {
    0 <= start && start + part.len() <= text.len() && text.subrange(start, start + part.len())
        == part
}

/// Reads the eight squares of rank `y` from `text` at `start` into `board` and returns where
/// the reading ended. Where the text of the row `w` stands there, this row is read.
fn parse_row(
    text: &Vec<char>,
    start: usize,
    board: &mut [Piece; 64],
    y: usize,
    Ghost(w): Ghost<Option<Seq<Piece>>>,
) -> (r: Result<usize, ParseError>)
    requires
        start <= text@.len(),
        y < 8,
        forall|sq: int| 0 <= sq < 64 && sq % 8 == y ==> old(board)@[sq] == Piece::Nil,
        w is Some ==> w->0.len() == 8 && holds_at(text@, start as int, row_text(w->0)),
    ensures
        forall|sq: int| 0 <= sq < 64 && sq % 8 != y ==> final(board)@[sq] == old(board)@[sq],
        match r {
            Ok(next) => start <= next <= text@.len() && text@.subrange(start as int, next as int)
                == row_text(row_of(final(board)@, y as int)),
            Err(e) => e.field == FenField::Placement,
        },
        w is Some ==> r is Ok && r->Ok_0 == start + row_text(w->0).len() && row_of(
            final(board)@,
            y as int,
        ) == w->0,
{
    let mut k: usize = 0;
    let mut i: usize = start;
    let mut after_digit = false;
    proof {
        assert(text@.subrange(start as int, start as int) =~= Seq::<char>::empty());
        assert(emitted(row_of(board@, y as int), 0) + flush(0) =~= Seq::<char>::empty());
    }
    while k < 8
        invariant
            k <= 8,
            y < 8,
            start <= i <= text@.len(),
            forall|sq: int| 0 <= sq < 64 && sq % 8 != y ==> board@[sq] == old(board)@[sq],
            forall|j: int| k <= j < 8 ==> (#[trigger] row_of(board@, y as int)[j]) == Piece::Nil,
            after_digit == (pending(row_of(board@, y as int), k as int) > 0),
            text@.subrange(start as int, i as int) == emitted(row_of(board@, y as int), k as int)
                + flush(pending(row_of(board@, y as int), k as int)),
            w is Some ==> w->0.len() == 8 && holds_at(text@, start as int, row_text(w->0)),
            w is Some ==> item_start(w->0, k as int),
            w is Some ==> forall|j: int|
                0 <= j < k ==> (#[trigger] row_of(board@, y as int)[j]) == w->0[j],
        decreases 8 - k,
    {
        let ghost row = row_of(board@, y as int);
        let ghost seen = text@.subrange(start as int, i as int);
        proof {
            if w is Some {
                let w0 = w->0;
                let whole = row_text(w0);
                lemma_row_tail(w0, k as int);
                lemma_row_frame(row, w0, k as int);
                lemma_run(w0, k as int);
                assert(seen == emitted(w0, k as int) + flush(pending(w0, k as int)));
                assert(whole == seen + row_tail(w0, k as int));
                assert(row_tail(w0, k as int).len() >= 1);
                assert(whole.len() == seen.len() + row_tail(w0, k as int).len());
                assert(text@[i as int] == text@.subrange(start as int, start + whole.len())[i
                    - start]);
                assert(whole[i - start] == row_tail(w0, k as int)[0]);
            }
        }
        if i >= text.len() {
            return fail(FenField::Placement, FenReason::BadLength);
        }
        let c = text[i];
        proof {
            assert(text@.subrange(start as int, i as int + 1) =~= seen.push(c));
            if w is Some {
                let w0 = w->0;
                if w0[k as int] != Piece::Nil {
                    crate::val::lemma_ascii_round_trip(w0[k as int]);
                    assert(c == w0[k as int].spec_ascii());
                    assert forall|d: int| 0 <= d < 10 implies c != #[trigger] digit_char(d) by {
                        lemma_digit_chars(d, d);
                    }
                } else {
                    assert(c == digit_char(run(w0, k as int)));
                }
            }
        }
        match digit_value(c) {
            Some(d) => {
                proof {
                    if w is Some {
                        let w0 = w->0;
                        lemma_digit_chars(d as int, run(w0, k as int));
                        lemma_pending_bounds(w0, k as int);
                        assert(d == run(w0, k as int));
                        assert(!after_digit);
                    }
                }
                if after_digit || d == 0 {
                    return fail(FenField::Placement, FenReason::BadChar);
                }
                if d > 8 - k {
                    return fail(FenField::Placement, FenReason::BadLength);
                }
                proof {
                    lemma_row_skip(row, k as int, d as int);
                    lemma_pending_bounds(row, k as int);
                    assert(pending(row, k as int) == 0);
                    assert(seen =~= emitted(row, k as int));
                    assert(pending(row, k as int + d as int) == d);
                    assert(seen.push(c) =~= emitted(row, k as int + d as int) + flush(d as int));
                }
                k = k + d;
                after_digit = true;
            },
            None => {
                match Piece::from_ascii(c) {
                    Some(p) => {
                        proof {
                            lemma_from_ascii_inverse(c);
                            if w is Some {
                                lemma_digit_chars(run(w->0, k as int), 0);
                                assert(p == w->0[k as int]);
                            }
                        }
                        board[(7 - k) * 8 + y] = p;
                        proof {
                            let row2 = row_of(board@, y as int);
                            assert(row2 =~= row.update(k as int, p));
                            lemma_row_frame(row, row2, k as int);
                            assert(row2[k as int] == p);
                            assert(p.spec_ascii() == c);
                            assert(pending(row2, k as int + 1) == 0);
                            assert(emitted(row2, k as int + 1) == (emitted(row2, k as int) + flush(
                                pending(row2, k as int),
                            )).push(c));
                            assert(seen.push(c) =~= emitted(row2, k as int + 1) + flush(
                                pending(row2, k as int + 1),
                            ));
                            assert forall|j: int| k + 1 <= j < 8 implies (#[trigger] row2[j])
                                == Piece::Nil by {
                                assert(row[j] == Piece::Nil);
                            }
                            if w is Some {
                                assert forall|j: int| 0 <= j < k + 1 implies (#[trigger] row2[j])
                                    == w->0[j] by {
                                    if j < k {
                                        assert(row[j] == w->0[j]);
                                    }
                                }
                                assert(pending(w->0, k as int + 1) == 0);
                            }
                        }
                        k = k + 1;
                        after_digit = false;
                    },
                    None => {
                        proof {
                            if w is Some {
                                lemma_digit_chars(run(w->0, k as int), 0);
                            }
                        }
                        return fail(FenField::Placement, FenReason::BadChar);
                    },
                }
            },
        }
        i = i + 1;
    }
    proof {
        if w is Some {
            let w0 = w->0;
            let row = row_of(board@, y as int);
            lemma_row_frame(row, w0, 8);
            assert(row =~= w0);
        }
    }
    Ok(i)
}

/// The text of the ranks after the first `r`.
pub open spec fn ranks_tail(board: Seq<Piece>, r: int) -> Seq<char>
    decreases 8 - r,
{
    if r >= 8 || r < 0 {
        Seq::<char>::empty()
    } else if r == 0 {
        row_text(row_of(board, 7)) + ranks_tail(board, 1)
    } else {
        seq!['/'] + row_text(row_of(board, 7 - r)) + ranks_tail(board, r + 1)
    }
}

/// The text of all ranks is that of the first ranks and that of the others.
pub proof fn lemma_ranks_tail(board: Seq<Piece>, r: int)
    requires
        0 <= r <= 8,
    ensures
        ranks_text(board, 8) == ranks_text(board, r) + ranks_tail(board, r),
    decreases 8 - r,
{
    if r == 8 {
        assert(ranks_text(board, 8) + ranks_tail(board, 8) =~= ranks_text(board, 8));
    } else {
        lemma_ranks_tail(board, r + 1);
        assert(ranks_text(board, r + 1) + ranks_tail(board, r + 1) =~= ranks_text(board, r)
            + ranks_tail(board, r));
    }
}

/// Reads the piece placement from the start of `text`. Where the text of the board `w` stands
/// there, this board is read.
fn parse_placement(text: &Vec<char>, Ghost(w): Ghost<Option<Seq<Piece>>>) -> (r: Result<
    ([Piece; 64], usize),
    ParseError,
>)
    requires
        w is Some ==> w->0.len() == 64 && holds_at(text@, 0, ranks_text(w->0, 8)),
    ensures
        match r {
            Ok((board, next)) => next <= text@.len() && text@.subrange(0, next as int)
                == ranks_text(board@, 8),
            Err(e) => e.field == FenField::Placement,
        },
        w is Some ==> r is Ok && r->Ok_0.0@ == w->0 && r->Ok_0.1 == ranks_text(w->0, 8).len(),
{
    let mut board: [Piece; 64] = [Piece::Nil;64];
    let mut i: usize = 0;
    let mut r: usize = 0;
    proof {
        assert(text@.subrange(0, 0) =~= Seq::<char>::empty());
    }
    while r < 8
        invariant
            r <= 8,
            i <= text@.len(),
            forall|sq: int| 0 <= sq < 64 && sq % 8 < 8 - r ==> board@[sq] == Piece::Nil,
            text@.subrange(0, i as int) == ranks_text(board@, r as int),
            w is Some ==> w->0.len() == 64 && holds_at(text@, 0, ranks_text(w->0, 8)),
            w is Some ==> forall|sq: int|
                0 <= sq < 64 && sq % 8 >= 8 - r ==> board@[sq] == w->0[sq],
        decreases 8 - r,
    {
        let ghost seen = text@.subrange(0, i as int);
        let ghost b0 = board@;
        let ghost wrow: Option<Seq<Piece>> = match w {
            Some(w0) => Some(row_of(w0, 7 - r)),
            None => None,
        };
        proof {
            if w is Some {
                let w0 = w->0;
                let whole = ranks_text(w0, 8);
                lemma_ranks_tail(w0, r as int);
                lemma_ranks_frame(b0, w0, r as int);
                let tail = ranks_tail(w0, r as int);
                let row = row_text(row_of(w0, 7 - r));
                assert(whole == seen + tail);
                assert(whole.len() == seen.len() + tail.len());
                assert(text@.subrange(0, whole.len() as int) == whole);
                if r > 0 {
                    assert(tail[0] == '/');
                    assert(text@[i as int] == text@.subrange(0, whole.len() as int)[i as int]);
                    assert(text@.subrange(i + 1, i + 1 + row.len()) =~= row) by {
                        assert forall|j: int| 0 <= j < row.len() implies text@[i + 1 + j]
                            == row[j] by {
                            assert(text@[i + 1 + j] == text@.subrange(0, whole.len() as int)[i + 1
                                + j]);
                            assert(whole[i + 1 + j] == tail[1 + j]);
                        }
                    }
                } else {
                    assert(text@.subrange(i as int, i + row.len()) =~= row) by {
                        assert forall|j: int| 0 <= j < row.len() implies text@[i + j] == row[j] by {
                            assert(text@[i + j] == text@.subrange(0, whole.len() as int)[i + j]);
                            assert(whole[i + j] == tail[j]);
                        }
                    }
                }
            }
        }
        let mut from = i;
        if r > 0 {
            if i >= text.len() {
                return fail(FenField::Placement, FenReason::BadLength);
            }
            if text[i] != '/' {
                return fail(FenField::Placement, FenReason::BadChar);
            }
            from = i + 1;
        }
        let next = match parse_row(text, from, &mut board, 7 - r, Ghost(wrow)) {
            Ok(next) => next,
            Err(e) => {
                return Err(e);
            },
        };
        proof {
            lemma_ranks_frame(b0, board@, r as int);
            if r > 0 {
                assert(text@.subrange(0, from as int) =~= seen.push('/'));
            }
            assert(text@.subrange(0, next as int) =~= text@.subrange(0, from as int)
                + text@.subrange(from as int, next as int));
            if w is Some {
                let w0 = w->0;
                assert forall|sq: int| 0 <= sq < 64 && sq % 8 >= 8 - (r + 1) implies board@[sq]
                    == w0[sq] by {
                    if sq % 8 == 7 - r {
                        let k = 7 - sq / 8;
                        assert(row_of(board@, 7 - r)[k] == row_of(w0, 7 - r)[k]);
                        assert((7 - k) * 8 + (7 - r) == sq);
                    } else {
                        assert(b0[sq] == w0[sq]);
                    }
                }
            }
        }
        i = next;
        r = r + 1;
    }
    proof {
        if w is Some {
            assert(board@ =~= w->0);
        }
    }
    Ok((board, i))
}

/// `n` without its last `j` digits.
pub open spec fn shift(n: int, j: int) -> int
    decreases j,
{
    if j <= 0 {
        n
    } else {
        shift(n, j - 1) / 10
    }
}

/// A number has at least one digit, and one digit only if it is less than ten.
pub proof fn lemma_decimal_len(n: int)
    requires
        0 <= n,
    ensures
        decimal(n).len() >= 1,
        (decimal(n).len() == 1) == (n < 10),
        decimal(n).last() == digit_char(n % 10),
    decreases n,
{
    if n >= 10 {
        lemma_decimal_len(n / 10);
    }
}

/// A number without its last digits is no larger.
pub proof fn lemma_shift(n: int, j: int)
    requires
        0 <= n,
        0 <= j,
    ensures
        0 <= shift(n, j) <= n,
    decreases j,
{
    if j > 0 {
        lemma_shift(n, j - 1);
    }
}

/// The first digits of a number are the digits of the number without its last digits.
pub proof fn lemma_decimal_prefix(n: int, j: int)
    requires
        0 <= n,
        0 <= j < decimal(n).len(),
    ensures
        decimal(shift(n, j)) == decimal(n).subrange(0, decimal(n).len() - j),
    decreases j,
{
    let whole = decimal(n);
    if j == 0 {
        assert(whole.subrange(0, whole.len() as int) =~= whole);
    } else {
        lemma_decimal_prefix(n, j - 1);
        let m = shift(n, j - 1);
        lemma_shift(n, j - 1);
        lemma_decimal_len(m);
        assert(decimal(m).len() == whole.len() - (j - 1));
        assert(m >= 10);
        assert(decimal(m / 10) =~= decimal(m).drop_last());
        assert(decimal(m).drop_last() =~= whole.subrange(0, whole.len() - j));
    }
}

/// Whether the part of `text` that ends at `end` is followed by a space or by nothing.
pub open spec fn ends_at(text: Seq<char>, end: int) -> bool {
    end == text.len() || (0 <= end < text.len() && text[end] == ' ')
}

/// Reads a number in decimal digits from `text` at `start`. Where the digits of `w` stand
/// there and end there, `w` is read.
fn parse_number(
    text: &Vec<char>,
    start: usize,
    field: FenField,
    Ghost(w): Ghost<Option<int>>,
) -> (r: Result<(usize, usize), ParseError>)
    requires
        start <= text@.len(),
        w is Some ==> 0 <= w->0 <= 65535 && holds_at(text@, start as int, decimal(w->0))
            && ends_at(text@, start + decimal(w->0).len()),
    ensures
        match r {
            Ok((n, next)) => start < next <= text@.len() && n <= 65535 && text@.subrange(
                start as int,
                next as int,
            ) == decimal(n as int),
            Err(e) => e.field == field,
        },
        w is Some ==> r is Ok && r->Ok_0.0 == w->0 && r->Ok_0.1 == start + decimal(w->0).len(),
{
    let ghost whole = match w {
        Some(n0) => decimal(n0),
        None => Seq::<char>::empty(),
    };
    proof {
        if w is Some {
            lemma_decimal_len(w->0);
            lemma_decimal_prefix(w->0, whole.len() - 1);
            lemma_shift(w->0, whole.len() - 1);
            lemma_decimal_len(shift(w->0, whole.len() - 1));
            assert(text@[start as int] == text@.subrange(start as int, start + whole.len())[0]);
            assert(whole.subrange(0, 1)[0] == whole[0]);
        }
    }
    if start >= text.len() {
        return fail(field, FenReason::Empty);
    }
    let first = match digit_value(text[start]) {
        Some(d) => d,
        None => {
            return fail(field, FenReason::BadChar);
        },
    };
    let mut n: usize = first;
    let mut i: usize = start + 1;
    proof {
        assert(text@.subrange(start as int, start as int + 1) =~= decimal(first as int));
        if w is Some {
            lemma_digit_chars(first as int, shift(w->0, whole.len() - 1));
        }
    }
    while i < text.len()
        invariant
            start < i <= text@.len(),
            n <= 65535,
            first == 0 ==> n == 0 && i == start + 1,
            first > 0 ==> n > 0,
            text@.subrange(start as int, i as int) == decimal(n as int),
            w is Some ==> whole == decimal(w->0) && 0 <= w->0 <= 65535 && holds_at(
                text@,
                start as int,
                whole,
            ) && ends_at(text@, start + whole.len()),
            w is Some ==> i - start <= whole.len() && n == shift(w->0, whole.len() - (i - start)),
        decreases text.len() - i,
    {
        proof {
            if w is Some {
                let n0 = w->0;
                let j = whole.len() - (i - start);
                if j > 0 {
                    lemma_decimal_prefix(n0, j - 1);
                    lemma_decimal_prefix(n0, j);
                    lemma_shift(n0, j - 1);
                    let m = shift(n0, j - 1);
                    lemma_decimal_len(m);
                    lemma_decimal_len(shift(n0, j));
                    assert(decimal(m).len() == i - start + 1);
                    assert(m >= 10);
                    assert(decimal(m).last() == whole[i - start]);
                    assert(text@[i as int] == text@.subrange(start as int, start + whole.len())[i
                        - start]);
                    assert(text@[i as int] == digit_char(m % 10));
                    assert forall|d: int| 0 <= d < 10 && text@[i as int] == digit_char(
                        d,
                    ) implies d == m % 10 by {
                        lemma_digit_chars(d, m % 10);
                    }
                } else {
                    assert(text@[i as int] == ' ');
                    assert forall|d: int| 0 <= d < 10 implies text@[i as int] != #[trigger] digit_char(
                        d,
                    ) by {
                        lemma_digit_chars(d, d);
                    }
                }
            }
        }
        let d = match digit_value(text[i]) {
            Some(d) => d,
            None => {
                return Ok((n, i));
            },
        };
        if first == 0 {
            return fail(field, FenReason::BadChar);
        }
        if n > 6553 || n * 10 + d > 65535 {
            return fail(field, FenReason::TooLarge);
        }
        proof {
            assert(text@.subrange(start as int, i as int + 1) =~= text@.subrange(
                start as int,
                i as int,
            ).push(text@[i as int]));
        }
        n = n * 10 + d;
        i = i + 1;
    }
    Ok((n, i))
}

/// Whether the character `ch` stands in `text` at `i`. Where the text of a right with the
/// letter `ch` stands there before `rest`, the right is there if and only if the letter is.
fn take_letter(
    text: &Vec<char>,
    i: usize,
    ch: char,
    Ghost(has): Ghost<Option<bool>>,
    Ghost(rest): Ghost<Seq<char>>,
) -> (r: bool)
    requires
        i <= text@.len(),
        has is Some ==> {
            &&& holds_at(text@, i as int, right_text(has->0, ch) + rest)
            &&& ends_at(text@, i + (right_text(has->0, ch) + rest).len())
            &&& rest.len() > 0 ==> rest[0] != ch
            &&& ch != ' '
        },
    ensures
        r == (i < text@.len() && text@[i as int] == ch),
        r ==> i < text.len(),
        has is Some ==> {
            let step = if r {
                1int
            } else {
                0int
            };
            &&& r == has->0
            &&& holds_at(text@, i + step, rest)
            &&& ends_at(text@, i + step + rest.len())
        },
{
    proof {
        if has is Some {
            let whole = right_text(has->0, ch) + rest;
            assert forall|j: int| 0 <= j < whole.len() implies text@[i + j] == whole[j] by {
                assert(text@[i + j] == text@.subrange(i as int, i + whole.len())[j]);
            }
            if has->0 {
                assert(whole[0] == ch);
                assert(text@.subrange(i + 1, i + 1 + rest.len()) =~= rest) by {
                    assert forall|j: int| 0 <= j < rest.len() implies text@[i + 1 + j]
                        == rest[j] by {
                        assert(whole[1 + j] == rest[j]);
                    }
                }
            } else {
                assert(whole =~= rest);
                if rest.len() > 0 {
                    assert(text@[i + 0] == whole[0]);
                }
            }
        }
    }
    i < text.len() && text[i] == ch
}

/// The letter of castling right number `j`.
pub open spec fn letter_of(j: int) -> char {
    if j == 0 {
        'K'
    } else if j == 1 {
        'Q'
    } else if j == 2 {
        'k'
    } else {
        'q'
    }
}

/// The four castling rights in the order of their letters.
pub open spec fn flags_of(c: Castling) -> Seq<bool> {
    seq![c.white_short, c.white_long, c.black_short, c.black_long]
}

/// The letters of the first `j` rights that are there.
pub open spec fn letters_upto(flags: Seq<bool>, j: int) -> Seq<char>
    decreases j,
{
    if j <= 0 {
        Seq::<char>::empty()
    } else {
        letters_upto(flags, j - 1) + right_text(flags[j - 1], letter_of(j - 1))
    }
}

/// The letters of the rights from number `j` on that are there.
pub open spec fn letters_from(flags: Seq<bool>, j: int) -> Seq<char>
    decreases 4 - j,
{
    if j >= 4 || j < 0 {
        Seq::<char>::empty()
    } else {
        right_text(flags[j], letter_of(j)) + letters_from(flags, j + 1)
    }
}

/// The letters of the rights that are left.
pub open spec fn letters_text(c: Castling) -> Seq<char> {
    letters_upto(flags_of(c), 4)
}

/// The letters of all rights are those of the first rights and those of the others, and the
/// letters from a right on begin with the letter of that right or of a later one.
pub proof fn lemma_letters(flags: Seq<bool>, j: int)
    requires
        0 <= j <= 4,
    ensures
        letters_upto(flags, 4) == letters_upto(flags, j) + letters_from(flags, j),
        letters_from(flags, j).len() > 0 ==> exists|k: int|
            j <= k < 4 && letters_from(flags, j)[0] == #[trigger] letter_of(k),
        letters_upto(flags, j).len() <= j,
    decreases 4 - j,
{
    if j == 4 {
        assert(letters_upto(flags, 4) + letters_from(flags, 4) =~= letters_upto(flags, 4));
        lemma_letters_len(flags, 4);
    } else {
        lemma_letters(flags, j + 1);
        lemma_letters_len(flags, j);
        assert(letters_upto(flags, j + 1) + letters_from(flags, j + 1) =~= letters_upto(flags, j)
            + letters_from(flags, j));
        if letters_from(flags, j).len() > 0 {
            if flags[j] {
                assert(letters_from(flags, j)[0] == letter_of(j));
            } else {
                assert(letters_from(flags, j) =~= letters_from(flags, j + 1));
                let k = choose|k: int|
                    j + 1 <= k < 4 && letters_from(flags, j + 1)[0] == #[trigger] letter_of(k);
                assert(j <= k < 4 && letters_from(flags, j)[0] == letter_of(k));
            }
        }
    }
}

/// There are no more letters than rights.
pub proof fn lemma_letters_len(flags: Seq<bool>, j: int)
    requires
        0 <= j,
    ensures
        letters_upto(flags, j).len() <= j,
    decreases j,
{
    if j > 0 {
        lemma_letters_len(flags, j - 1);
    }
}

/// The text of castling rights is their letters, or a dash for none.
pub proof fn lemma_castling_text(c: Castling)
    ensures
        castling_text(c) == if letters_text(c).len() == 0 {
            seq!['-']
        } else {
            letters_text(c)
        },
        (letters_text(c).len() == 0) == (!c.white_short && !c.white_long && !c.black_short
            && !c.black_long),
{
    let f = flags_of(c);
    assert(f[0] == c.white_short && f[1] == c.white_long && f[2] == c.black_short && f[3]
        == c.black_long);
    assert(letters_upto(f, 0) =~= Seq::<char>::empty());
    assert(letters_upto(f, 1) =~= right_text(c.white_short, 'K'));
    assert(letters_upto(f, 2) =~= letters_upto(f, 1) + right_text(c.white_long, 'Q'));
    assert(letters_upto(f, 3) =~= letters_upto(f, 2) + right_text(c.black_short, 'k'));
    assert(letters_upto(f, 4) =~= letters_upto(f, 3) + right_text(c.black_long, 'q'));
}

/// Reads the letters of castling rights from `text` at `start`, each at most once and in their
/// order. Where the letters of the rights `w` stand there and end there, `w` is read.
fn parse_letters(text: &Vec<char>, start: usize, Ghost(w): Ghost<Option<Castling>>) -> (r: (
    Castling,
    usize,
))
    requires
        start <= text@.len(),
        w is Some ==> holds_at(text@, start as int, letters_text(w->0)) && ends_at(
            text@,
            start + letters_text(w->0).len(),
        ),
    ensures
        start <= r.1 <= text@.len(),
        text@.subrange(start as int, r.1 as int) == letters_text(r.0),
        w is Some ==> r.0 == w->0 && r.1 == start + letters_text(w->0).len(),
{
    let mut flags: [bool; 4] = [false, false, false, false];
    let ghost wf: Seq<bool> = match w {
        Some(c0) => flags_of(c0),
        None => Seq::<bool>::empty(),
    };
    let mut i: usize = start;
    let mut j: usize = 0;
    proof {
        assert(text@.subrange(start as int, start as int) =~= letters_upto(flags@, 0));
        if w is Some {
            lemma_letters(wf, 0);
            assert(letters_upto(wf, 0) + letters_from(wf, 0) =~= letters_from(wf, 0));
        }
    }
    while j < 4
        invariant
            j <= 4,
            start <= i <= text.len(),
            i - start <= j,
            text@.subrange(start as int, i as int) == letters_upto(flags@, j as int),
            w is Some ==> wf == flags_of(w->0),
            w is Some ==> holds_at(text@, i as int, letters_from(wf, j as int)) && ends_at(
                text@,
                i + letters_from(wf, j as int).len(),
            ),
            w is Some ==> forall|k: int| 0 <= k < j ==> flags@[k] == wf[k],
            w is Some ==> i - start == letters_upto(wf, j as int).len(),
        decreases 4 - j,
    {
        let ch = if j == 0 {
            'K'
        } else if j == 1 {
            'Q'
        } else if j == 2 {
            'k'
        } else {
            'q'
        };
        let ghost has: Option<bool> = match w {
            Some(_) => Some(wf[j as int]),
            None => None,
        };
        let ghost rest = letters_from(wf, j + 1);
        let ghost seen = text@.subrange(start as int, i as int);
        let ghost before = flags@;
        proof {
            if w is Some {
                lemma_letters(wf, j + 1);
            }
        }
        let found = take_letter(text, i, ch, Ghost(has), Ghost(rest));
        flags[j] = found;
        if found {
            i = i + 1;
        }
        proof {
            lemma_upto_frame(before, flags@, j as int);
            assert(text@.subrange(start as int, i as int) =~= seen + right_text(found, ch));
        }
        j = j + 1;
    }
    let c = Castling {
        white_short: flags[0],
        white_long: flags[1],
        black_short: flags[2],
        black_long: flags[3],
    };
    proof {
        assert(flags@ =~= flags_of(c));
        if w is Some {
            assert(flags_of(c) =~= wf);
        }
    }
    (c, i)
}

/// The letters of the first rights depend on these rights alone.
pub proof fn lemma_upto_frame(a: Seq<bool>, b: Seq<bool>, j: int)
    requires
        forall|k: int| 0 <= k < j ==> a[k] == b[k],
    ensures
        letters_upto(a, j) == letters_upto(b, j),
    decreases j,
{
    if j > 0 {
        lemma_upto_frame(a, b, j - 1);
    }
}

/// Reads the castling rights from `text` at `start`. Where the text of the rights `w` stands
/// there and ends there, `w` is read.
fn parse_castling(text: &Vec<char>, start: usize, Ghost(w): Ghost<Option<Castling>>) -> (r: Result<
    (Castling, usize),
    ParseError,
>)
    requires
        start <= text@.len(),
        w is Some ==> holds_at(text@, start as int, castling_text(w->0)) && ends_at(
            text@,
            start + castling_text(w->0).len(),
        ),
    ensures
        match r {
            Ok((c, next)) => start < next <= text@.len() && text@.subrange(
                start as int,
                next as int,
            ) == castling_text(c),
            Err(e) => e.field == FenField::Castling,
        },
        w is Some ==> r is Ok && r->Ok_0.0 == w->0 && r->Ok_0.1 == start + castling_text(
            w->0,
        ).len(),
{
    let none = Castling {
        white_short: false,
        white_long: false,
        black_short: false,
        black_long: false,
    };
    proof {
        if w is Some {
            let whole = castling_text(w->0);
            assert(whole.len() >= 1);
            assert(text@[start as int] == text@.subrange(start as int, start + whole.len())[0]);
            lemma_castling_text(w->0);
            lemma_letters(flags_of(w->0), 0);
            if w->0 != none {
                assert(whole == letters_text(w->0));
                assert(whole[0] != '-');
            }
        }
    }
    if start >= text.len() {
        return fail(FenField::Castling, FenReason::Empty);
    }
    if text[start] == '-' {
        proof {
            lemma_castling_text(none);
            assert(text@.subrange(start as int, start as int + 1) =~= castling_text(none));
        }
        return Ok((none, start + 1));
    }
    let (c, i) = parse_letters(text, start, Ghost(w));
    if i == start {
        return fail(FenField::Castling, FenReason::BadChar);
    }
    proof {
        lemma_castling_text(c);
    }
    Ok((c, i))
}

/// Reads the square of a capture en passant from `text` at `start`. Where the text of the
/// square `w`, or of none, stands there, `w` is read.
fn parse_ep(text: &Vec<char>, start: usize, Ghost(w): Ghost<Option<Option<usize>>>) -> (r: Result<
    (Option<usize>, usize),
    ParseError,
>)
    requires
        start <= text@.len(),
        w is Some ==> (w->0 is Some ==> w->0->0 < 64) && holds_at(
            text@,
            start as int,
            ep_text(w->0),
        ),
    ensures
        match r {
            Ok((ep, next)) => start < next <= text@.len() && text@.subrange(
                start as int,
                next as int,
            ) == ep_text(ep) && (ep is Some ==> ep->0 < 64),
            Err(e) => e.field == FenField::EnPassant,
        },
        w is Some ==> r is Ok && r->Ok_0.0 == w->0 && r->Ok_0.1 == start + ep_text(w->0).len(),
{
    proof {
        if w is Some {
            let whole = ep_text(w->0);
            assert forall|j: int| 0 <= j < whole.len() implies text@[start + j] == whole[j] by {
                assert(text@[start + j] == text@.subrange(start as int, start + whole.len())[j]);
            }
            assert(text@[start + 0] == whole[0]);
            if w->0 is Some {
                assert(text@[start + 1] == whole[1]);
            }
        }
    }
    if start >= text.len() {
        return fail(FenField::EnPassant, FenReason::Empty);
    }
    if text[start] == '-' {
        proof {
            assert(text@.subrange(start as int, start as int + 1) =~= ep_text(None));
        }
        return Ok((None, start + 1));
    }
    let f = match file_value(text[start]) {
        Some(f) => f,
        None => {
            return fail(FenField::EnPassant, FenReason::BadChar);
        },
    };
    if start + 1 >= text.len() {
        return fail(FenField::EnPassant, FenReason::BadLength);
    }
    let d = match digit_value(text[start + 1]) {
        Some(d) => d,
        None => {
            return fail(FenField::EnPassant, FenReason::BadChar);
        },
    };
    if d == 0 || d > 8 {
        return fail(FenField::EnPassant, FenReason::BadChar);
    }
    let sq: usize = (7 - f) * 8 + (d - 1);
    proof {
        assert(sq as int / 8 == 7 - f);
        assert(sq as int % 8 == d - 1);
        assert(text@.subrange(start as int, start as int + 2) =~= ep_text(Some(sq)));
        if w is Some {
            let t = w->0->0 as int;
            lemma_digit_chars(d as int, t % 8 + 1);
            lemma_file_chars(f as int, 7 - t / 8);
            assert(sq == t);
        }
    }
    Ok((Some(sq), start + 2))
}

/// Different files have different letters, and no file has a dash.
pub proof fn lemma_file_chars(a: int, b: int)
    requires
        0 <= a < 8,
        0 <= b < 8,
    ensures
        file_char(a) == file_char(b) ==> a == b,
        file_char(a) != '-',
{
}

/// Where the field of `text` that begins at `i` ends: at the first space from `i` on, or at
/// the end of the text.
pub open spec fn field_end(text: Seq<char>, i: int) -> int
    decreases text.len() - i,
{
    if i < 0 || i >= text.len() {
        text.len() as int
    } else if text[i] == ' ' {
        i
    } else {
        field_end(text, i + 1)
    }
}

/// The field of `text` that begins at `start`.
pub open spec fn field_at(text: Seq<char>, start: int) -> Seq<char> {
    text.subrange(start, field_end(text, start))
}

/// Whether `part` is the text of a value of field number `k` of the notation: of the
/// placement of a board, a side, castling rights, the square of a capture en passant or none,
/// or a counter up to 65535.
pub open spec fn part_reads(part: Seq<char>, k: int) -> bool {
    if k == 1 {
        exists|b: Seq<Piece>| placement_of(part, b)
    } else if k == 2 {
        part == side_text(true) || part == side_text(false)
    } else if k == 3 {
        exists|c: Castling| part == #[trigger] castling_text(c)
    } else if k == 4 {
        exists|e: Option<usize>| square_of(part, e)
    } else {
        exists|n: int| counter_of(part, n)
    }
}

/// Whether `part` is the placement text of the board `b`.
pub open spec fn placement_of(part: Seq<char>, b: Seq<Piece>) -> bool {
    b.len() == 64 && part == ranks_text(b, 8)
}

/// Whether `part` is the text of the square `e` of a capture en passant, or of none.
pub open spec fn square_of(part: Seq<char>, e: Option<usize>) -> bool {
    (e is Some ==> e->0 < 64) && part == ep_text(e)
}

/// Whether `part` is the text of the counter `n`.
pub open spec fn counter_of(part: Seq<char>, n: int) -> bool {
    0 <= n <= 65535 && part == decimal(n)
}

/// Whether the field of `text` that begins at `start` can be read as field number `k`.
pub open spec fn field_reads(text: Seq<char>, start: int, k: int) -> bool {
    part_reads(field_at(text, start), k)
}

/// Number of the first field of `text`, counted from field `k` that begins at `start`, that
/// cannot be read; 6 where text follows the sixth field; 0 where every field is read.
pub open spec fn first_bad(text: Seq<char>, start: int, k: int) -> int
    decreases 7 - k,
{
    if k > 6 {
        6
    } else if !field_reads(text, start, k) {
        k
    } else if field_end(text, start) >= text.len() {
        0
    } else {
        first_bad(text, field_end(text, start) + 1, k + 1)
    }
}

/// The number of a field of the notation, from 1.
pub open spec fn field_number(f: FenField) -> int {
    match f {
        FenField::Placement => 1,
        FenField::Side => 2,
        FenField::Castling => 3,
        FenField::EnPassant => 4,
        FenField::HalfMove => 5,
        FenField::FullMove => 6,
    }
}

/// Whether a text holds no space.
pub open spec fn no_space(s: Seq<char>) -> bool {
    forall|j: int| 0 <= j < s.len() ==> #[trigger] s[j] != ' '
}

/// A field ends at or after its beginning, at a space or at the end of the text, and holds no
/// space.
pub proof fn lemma_field_end(text: Seq<char>, i: int)
    requires
        0 <= i <= text.len(),
    ensures
        i <= field_end(text, i) <= text.len(),
        field_end(text, i) < text.len() ==> text[field_end(text, i)] == ' ',
        no_space(field_at(text, i)),
    decreases text.len() - i,
{
    if i < text.len() && text[i] != ' ' {
        lemma_field_end(text, i + 1);
        assert forall|j: int| 0 <= j < field_at(text, i).len() implies #[trigger] field_at(
            text,
            i,
        )[j] != ' ' by {
            if j > 0 {
                assert(field_at(text, i)[j] == field_at(text, i + 1)[j - 1]);
            }
        }
    }
}

/// A part without a space that stands at `start` and is followed by a space or by the end of
/// the text is the field that begins at `start`.
pub proof fn lemma_field_is(text: Seq<char>, start: int, part: Seq<char>)
    requires
        holds_at(text, start, part),
        ends_at(text, start + part.len()),
        no_space(part),
    ensures
        field_end(text, start) == start + part.len(),
        field_at(text, start) == part,
    decreases part.len(),
{
    if part.len() > 0 {
        let rest = part.subrange(1, part.len() as int);
        assert(text[start] == text.subrange(start, start + part.len())[0]);
        assert(part[0] != ' ');
        assert(text.subrange(start + 1, start + 1 + rest.len()) =~= rest);
        assert forall|j: int| 0 <= j < rest.len() implies #[trigger] rest[j] != ' ' by {
            assert(rest[j] == part[j + 1]);
        }
        lemma_field_is(text, start + 1, rest);
    }
}

/// The field that begins at `start` stands there and is followed by a space or by the end of
/// the text.
pub proof fn lemma_field_stands(text: Seq<char>, start: int)
    requires
        0 <= start <= text.len(),
    ensures
        holds_at(text, start, field_at(text, start)),
        ends_at(text, start + field_at(text, start).len()),
{
    lemma_field_end(text, start);
}

/// Two texts without a space joined hold no space.
pub proof fn lemma_no_space_add(a: Seq<char>, b: Seq<char>)
    requires
        no_space(a),
        no_space(b),
    ensures
        no_space(a + b),
{
    assert forall|j: int| 0 <= j < (a + b).len() implies #[trigger] (a + b)[j] != ' ' by {
        if j < a.len() {
            assert((a + b)[j] == a[j]);
        } else {
            assert((a + b)[j] == b[j - a.len()]);
        }
    }
}

/// No digit, letter of a file or letter of a piece is a space.
pub proof fn lemma_chars_no_space(d: int, p: Piece)
    ensures
        digit_char(d) != ' ',
        file_char(d) != ' ',
        p.spec_ascii() != ' ',
        no_space(flush(d)),
{
}

/// The text of a row holds no space.
pub proof fn lemma_row_no_space(row: Seq<Piece>, k: int)
    requires
        0 <= k,
    ensures
        no_space(emitted(row, k)),
        no_space(emitted(row, k) + flush(pending(row, k))),
    decreases k,
{
    if k > 0 {
        lemma_row_no_space(row, k - 1);
        lemma_chars_no_space(pending(row, k - 1), row[k - 1]);
        if row[k - 1] != Piece::Nil {
            let before = emitted(row, k - 1) + flush(pending(row, k - 1));
            lemma_no_space_add(before, seq![row[k - 1].spec_ascii()]);
            assert(emitted(row, k) =~= before + seq![row[k - 1].spec_ascii()]);
        }
    }
    lemma_chars_no_space(pending(row, k), Piece::Nil);
    lemma_no_space_add(emitted(row, k), flush(pending(row, k)));
}

/// The text of the ranks of a board holds no space.
pub proof fn lemma_ranks_no_space(board: Seq<Piece>, r: int)
    requires
        0 <= r,
    ensures
        no_space(ranks_text(board, r)),
    decreases r,
{
    if r > 0 {
        lemma_row_no_space(row_of(board, 8 - r), 8);
        if r > 1 {
            lemma_ranks_no_space(board, r - 1);
            lemma_no_space_add(ranks_text(board, r - 1), seq!['/']);
            assert(ranks_text(board, r - 1).push('/') =~= ranks_text(board, r - 1) + seq!['/']);
            lemma_no_space_add(ranks_text(board, r - 1).push('/'), row_text(row_of(board, 8 - r)));
        }
    }
}

/// The letters of castling rights hold no space.
pub proof fn lemma_letters_no_space(flags: Seq<bool>, j: int)
    requires
        0 <= j,
    ensures
        no_space(letters_upto(flags, j)),
    decreases j,
{
    if j > 0 {
        lemma_letters_no_space(flags, j - 1);
        lemma_no_space_add(letters_upto(flags, j - 1), right_text(flags[j - 1], letter_of(j - 1)));
    }
}

/// The digits of a number hold no space.
pub proof fn lemma_decimal_no_space(n: int)
    requires
        0 <= n,
    ensures
        no_space(decimal(n)),
    decreases n,
{
    if n >= 10 {
        lemma_decimal_no_space(n / 10);
        lemma_no_space_add(decimal(n / 10), seq![digit_char(n % 10)]);
        assert(decimal(n) =~= decimal(n / 10) + seq![digit_char(n % 10)]);
    }
}

/// The text of no field holds a space.
pub proof fn lemma_fields_no_space(
    board: Seq<Piece>,
    colour: bool,
    castling: Castling,
    ep: Option<usize>,
    n: int,
)
    requires
        0 <= n,
    ensures
        no_space(ranks_text(board, 8)),
        no_space(side_text(colour)),
        no_space(castling_text(castling)),
        no_space(ep_text(ep)),
        no_space(decimal(n)),
{
    lemma_ranks_no_space(board, 8);
    lemma_castling_text(castling);
    lemma_letters_no_space(flags_of(castling), 4);
    lemma_decimal_no_space(n);
    lemma_chars_no_space(0, Piece::Nil);
    if ep is Some {
        lemma_chars_no_space(7 - (ep->0 as int) / 8, Piece::Nil);
        lemma_chars_no_space((ep->0 as int) % 8 + 1, Piece::Nil);
    }
}

/// A field that was read up to `next`, where a space or the end of the text follows, is read
/// as field `k`; the first field that cannot be read is then looked for after it.
pub proof fn lemma_field_read(text: Seq<char>, start: int, k: int, part: Seq<char>, next: int)
    requires
        1 <= k <= 6,
        0 <= start <= next <= text.len(),
        text.subrange(start, next) == part,
        no_space(part),
        part_reads(part, k),
        ends_at(text, next),
    ensures
        field_end(text, start) == next,
        field_reads(text, start, k),
        first_bad(text, start, k) == if next == text.len() {
            0
        } else if k == 6 {
            6
        } else {
            first_bad(text, next + 1, k + 1)
        },
{
    assert(part.len() == next - start);
    lemma_field_is(text, start, part);
    assert(field_at(text, start) == part);
    assert(field_reads(text, start, k));
    assert(first_bad(text, next + 1, 7) == 6);
}

/// The board that stands for the placement field: the one given, else one whose text the
/// field is, if there is one.
pub open spec fn board_witness(text: Seq<char>, w: Option<Seq<Piece>>) -> Option<Seq<Piece>> {
    match w {
        Some(b) => Some(b),
        None => if field_reads(text, 0, 1) {
            Some(choose|b: Seq<Piece>| placement_of(field_at(text, 0), b))
        } else {
            None
        },
    }
}

/// The castling rights that stand for the field at `start`: those given, else rights whose
/// text the field is, if there are such.
pub open spec fn rights_witness(text: Seq<char>, start: int, w: Option<Castling>) -> Option<
    Castling,
> {
    match w {
        Some(c) => Some(c),
        None => if field_reads(text, start, 3) {
            Some(choose|c: Castling| field_at(text, start) == #[trigger] castling_text(c))
        } else {
            None
        },
    }
}

/// The square that stands for the field at `start`: the one given, else one whose text the
/// field is, if there is one.
pub open spec fn square_witness(text: Seq<char>, start: int, w: Option<Option<usize>>) -> Option<
    Option<usize>,
> {
    match w {
        Some(e) => Some(e),
        None => if field_reads(text, start, 4) {
            Some(choose|e: Option<usize>| square_of(field_at(text, start), e))
        } else {
            None
        },
    }
}

/// The counter that stands for the field number `k` at `start`: the one given, else one whose
/// text the field is, if there is one.
pub open spec fn counter_witness(text: Seq<char>, start: int, k: int, w: Option<int>) -> Option<
    int,
> {
    match w {
        Some(n) => Some(n),
        None => if field_reads(text, start, k) {
            Some(choose|n: int| counter_of(field_at(text, start), n))
        } else {
            None
        },
    }
}

/// The board that stands for the placement field stands at the start of the text and ends
/// where the field ends, if the board given does.
pub proof fn lemma_board_witness(text: Seq<char>, w: Option<Seq<Piece>>)
    requires
        w is Some ==> w->0.len() == 64 && holds_at(text, 0, ranks_text(w->0, 8)) && ends_at(
            text,
            ranks_text(w->0, 8).len() as int,
        ),
    ensures
        field_reads(text, 0, 1) ==> board_witness(text, w) is Some,
        board_witness(text, w) is Some ==> {
            let b = board_witness(text, w)->0;
            &&& b.len() == 64
            &&& holds_at(text, 0, ranks_text(b, 8))
            &&& ranks_text(b, 8).len() == field_end(text, 0)
        },
{
    lemma_field_stands(text, 0);
    lemma_field_end(text, 0);
    assert(field_at(text, 0).len() == field_end(text, 0));
    if w is Some {
        lemma_ranks_no_space(w->0, 8);
        lemma_field_is(text, 0, ranks_text(w->0, 8));
    }
}

/// The rights that stand for the field at `start` stand there and end where the field ends,
/// if the rights given do.
pub proof fn lemma_rights_witness(text: Seq<char>, start: int, w: Option<Castling>)
    requires
        0 <= start <= text.len(),
        w is Some ==> holds_at(text, start, castling_text(w->0)) && ends_at(
            text,
            start + castling_text(w->0).len(),
        ),
    ensures
        field_reads(text, start, 3) ==> rights_witness(text, start, w) is Some,
        rights_witness(text, start, w) is Some ==> {
            let c = rights_witness(text, start, w)->0;
            &&& holds_at(text, start, castling_text(c))
            &&& ends_at(text, start + castling_text(c).len())
            &&& start + castling_text(c).len() == field_end(text, start)
        },
{
    lemma_field_stands(text, start);
    lemma_field_end(text, start);
    assert(field_at(text, start).len() == field_end(text, start) - start);
    if w is Some {
        lemma_fields_no_space(Seq::empty(), true, w->0, None, 0);
        lemma_field_is(text, start, castling_text(w->0));
    }
}

/// The square that stands for the field at `start` stands there and ends where the field
/// ends, if the square given does.
pub proof fn lemma_square_witness(text: Seq<char>, start: int, w: Option<Option<usize>>)
    requires
        0 <= start <= text.len(),
        w is Some ==> (w->0 is Some ==> w->0->0 < 64) && holds_at(text, start, ep_text(w->0))
            && ends_at(text, start + ep_text(w->0).len()),
    ensures
        field_reads(text, start, 4) ==> square_witness(text, start, w) is Some,
        square_witness(text, start, w) is Some ==> {
            let e = square_witness(text, start, w)->0;
            &&& e is Some ==> e->0 < 64
            &&& holds_at(text, start, ep_text(e))
            &&& start + ep_text(e).len() == field_end(text, start)
        },
{
    lemma_field_stands(text, start);
    lemma_field_end(text, start);
    assert(field_at(text, start).len() == field_end(text, start) - start);
    if w is Some {
        lemma_fields_no_space(Seq::empty(), true, Castling {
            white_short: false,
            white_long: false,
            black_short: false,
            black_long: false,
        }, w->0, 0);
        lemma_field_is(text, start, ep_text(w->0));
    }
}

/// The counter that stands for the field at `start` stands there and ends where the field
/// ends, if the counter given does.
pub proof fn lemma_counter_witness(text: Seq<char>, start: int, k: int, w: Option<int>)
    requires
        5 <= k <= 6,
        0 <= start <= text.len(),
        w is Some ==> 0 <= w->0 <= 65535 && holds_at(text, start, decimal(w->0)) && ends_at(
            text,
            start + decimal(w->0).len(),
        ),
    ensures
        field_reads(text, start, k) ==> counter_witness(text, start, k, w) is Some,
        counter_witness(text, start, k, w) is Some ==> {
            let n = counter_witness(text, start, k, w)->0;
            &&& 0 <= n <= 65535
            &&& holds_at(text, start, decimal(n))
            &&& ends_at(text, start + decimal(n).len())
            &&& start + decimal(n).len() == field_end(text, start)
        },
{
    lemma_field_stands(text, start);
    lemma_field_end(text, start);
    assert(field_at(text, start).len() == field_end(text, start) - start);
    if w is Some {
        lemma_decimal_no_space(w->0);
        lemma_field_is(text, start, decimal(w->0));
    }
}

/// The text of `n` fields is that of the fields before, a space, and the last field.
pub proof fn lemma_fields_step(f: Fen, g: Fen, field: Seq<char>)
    requires
        2 <= g.given <= 6,
        f.given == g.given - 1,
        f.board == g.board,
        g.given > 2 ==> f.colour == g.colour,
        g.given > 3 ==> f.castling == g.castling,
        g.given > 4 ==> f.ep == g.ep,
        g.given > 5 ==> f.half == g.half,
        field == if g.given == 2 {
            side_text(g.colour)
        } else if g.given == 3 {
            castling_text(g.castling)
        } else if g.given == 4 {
            ep_text(g.ep)
        } else if g.given == 5 {
            decimal(g.half as int)
        } else {
            decimal(g.full as int)
        },
    ensures
        g.text() == f.text().push(' ') + field,
{
    lemma_fields_frame(
        g.board@,
        g.colour,
        g.castling,
        g.ep,
        g.half as int,
        g.full as int,
        f.colour,
        f.castling,
        f.ep,
        f.half as int,
        f.full as int,
        f.given as int,
    );
}

/// A field that ends at `next` after the fields before it ended at `i` and a space followed.
proof fn lemma_text_step(text: Seq<char>, i: int, next: int, f: Fen, g: Fen, field: Seq<char>)
    requires
        0 <= i < next <= text.len(),
        text[i] == ' ',
        text.subrange(0, i) == f.text(),
        text.subrange(i + 1, next) == field,
        g.text() == f.text().push(' ') + field,
    ensures
        text.subrange(0, next) == g.text(),
{
    assert(text.subrange(0, next) =~= text.subrange(0, i).push(' ') + text.subrange(i + 1, next));
}

/// The fields of the notation as mathematical values.
pub struct Canon {
    pub board: Seq<Piece>,
    pub colour: bool,
    pub castling: Castling,
    pub ep: Option<usize>,
    pub half: int,
    pub full: int,
    pub given: int,
}

impl Canon {
    /// The text of the first `n` fields.
    pub open spec fn prefix(self, n: int) -> Seq<char> {
        fields_text(self.board, self.colour, self.castling, self.ep, self.half, self.full, n)
    }

    /// The text of the fields that are given.
    pub open spec fn text(self) -> Seq<char> {
        self.prefix(self.given)
    }

    /// The text of field number `k`, counted from 1.
    pub open spec fn field(self, k: int) -> Seq<char> {
        if k == 2 {
            side_text(self.colour)
        } else if k == 3 {
            castling_text(self.castling)
        } else if k == 4 {
            ep_text(self.ep)
        } else if k == 5 {
            decimal(self.half)
        } else {
            decimal(self.full)
        }
    }

    /// Whether the values can be written and read: a board of 64 squares, between one and six
    /// fields with the others at their defaults, a square on the board, and counters that are
    /// not too large.
    pub open spec fn wf(self) -> bool {
        &&& self.board.len() == 64
        &&& 1 <= self.given <= 6
        &&& self.given < 2 ==> self.colour
        &&& self.given < 3 ==> self.castling == (Castling {
            white_short: false,
            white_long: false,
            black_short: false,
            black_long: false,
        })
        &&& self.given < 4 ==> self.ep is None
        &&& self.given < 5 ==> self.half == 0
        &&& self.given < 6 ==> self.full == 1
        &&& self.ep is Some ==> self.ep->0 < 64
        &&& 0 <= self.half <= 65535
        &&& 0 <= self.full <= 65535
    }

    /// Whether the first `j` fields of the two are the same.
    pub open spec fn agrees(self, other: Canon, j: int) -> bool {
        &&& self.board == other.board
        &&& j >= 2 ==> self.colour == other.colour
        &&& j >= 3 ==> self.castling == other.castling
        &&& j >= 4 ==> self.ep == other.ep
        &&& j >= 5 ==> self.half == other.half
        &&& j >= 6 ==> self.full == other.full
    }
}

impl Fen {
    /// The fields as mathematical values.
    pub open spec fn canon(self) -> Canon {
        Canon {
            board: self.board@,
            colour: self.colour,
            castling: self.castling,
            ep: self.ep,
            half: self.half as int,
            full: self.full as int,
            given: self.given as int,
        }
    }
}

/// The text of the first fields begins the text of more fields.
pub proof fn lemma_fields_prefix(c: Canon, j: int, n: int)
    requires
        1 <= j <= n <= 6,
    ensures
        c.prefix(j).len() <= c.prefix(n).len(),
        c.prefix(n).subrange(0, c.prefix(j).len() as int) == c.prefix(j),
    decreases n - j,
{
    if j == n {
        assert(c.prefix(n).subrange(0, c.prefix(n).len() as int) =~= c.prefix(n));
    } else {
        lemma_fields_prefix(c, j, n - 1);
        assert(c.prefix(n) == c.prefix(n - 1).push(' ') + c.field(n));
        assert(c.prefix(n).subrange(0, c.prefix(j).len() as int) =~= c.prefix(n - 1).subrange(
            0,
            c.prefix(j).len() as int,
        ));
    }
}

/// A text that begins with `p`, a space and `field` holds the space after `p` and then `field`.
proof fn lemma_cut(t: Seq<char>, p: Seq<char>, field: Seq<char>, q: Seq<char>)
    requires
        q == p.push(' ') + field,
        q.len() <= t.len(),
        t.subrange(0, q.len() as int) == q,
    ensures
        q.len() == p.len() + 1 + field.len(),
        t[p.len() as int] == ' ',
        holds_at(t, (p.len() + 1) as int, field),
{
    assert(t[p.len() as int] == t.subrange(0, q.len() as int)[p.len() as int]);
    assert(t.subrange((p.len() + 1) as int, (p.len() + 1 + field.len()) as int) =~= field) by {
        assert forall|x: int| 0 <= x < field.len() implies t[p.len() + 1 + x] == #[trigger] field[x] by {
            assert(t[p.len() + 1 + x] == t.subrange(0, q.len() as int)[p.len() + 1 + x]);
            assert(q[p.len() + 1 + x] == field[x]);
        }
    }
}

/// The text of the first `n` fields is that of the fields before, a space, and field `n`.
pub proof fn lemma_prefix_step(c: Canon, n: int)
    requires
        2 <= n <= 6,
    ensures
        c.prefix(n) == c.prefix(n - 1).push(' ') + c.field(n),
{
}

/// In a text of more than `j` fields a space and the next field come after the first `j`.
pub proof fn lemma_fields_next(c: Canon, j: int)
    requires
        1 <= j < c.given <= 6,
    ensures
        c.prefix(j + 1).len() <= c.text().len(),
        c.prefix(j + 1).len() == c.prefix(j).len() + 1 + c.field(j + 1).len(),
        c.text()[c.prefix(j).len() as int] == ' ',
        holds_at(c.text(), (c.prefix(j).len() + 1) as int, c.field(j + 1)),
{
    lemma_fields_prefix(c, j + 1, c.given);
    lemma_prefix_step(c, j + 1);
    lemma_cut(c.text(), c.prefix(j), c.field(j + 1), c.prefix(j + 1));
}

/// After the first `j` fields of a text of more fields come a space and the next field, and
/// after that the end of the text or a space.
pub proof fn lemma_fields_cut(c: Canon, j: int)
    requires
        1 <= j < c.given <= 6,
    ensures
        c.prefix(j).len() < c.text().len(),
        c.text()[c.prefix(j).len() as int] == ' ',
        holds_at(c.text(), (c.prefix(j).len() + 1) as int, c.field(j + 1)),
        c.prefix(j + 1).len() == c.prefix(j).len() + 1 + c.field(j + 1).len(),
        ends_at(c.text(), c.prefix(j + 1).len() as int),
{
    lemma_fields_next(c, j);
    if j + 1 < c.given {
        lemma_fields_next(c, j + 1);
    }
}

/// What the witness of a text says at the end of its first `j` fields, which were read up to
/// `i`: either the text ends there and the witness has no more fields, or a space follows and
/// then the next field.
proof fn lemma_stage(text: Seq<char>, i: int, f: Fen, w: Canon)
    requires
        w.wf(),
        text == w.text(),
        1 <= f.given <= w.given,
        f.canon().agrees(w, f.given as int),
        text.subrange(0, i) == f.text(),
        0 <= i <= text.len(),
    ensures
        i == w.prefix(f.given as int).len(),
        f.given == w.given ==> i == text.len(),
        f.given < w.given ==> {
            &&& i < text.len()
            &&& text[i] == ' '
            &&& holds_at(text, i + 1, w.field(f.given + 1))
            &&& ends_at(text, i + 1 + w.field(f.given + 1).len())
        },
{
    let j = f.given as int;
    lemma_fields_frame(
        w.board,
        w.colour,
        w.castling,
        w.ep,
        w.half,
        w.full,
        f.colour,
        f.castling,
        f.ep,
        f.half as int,
        f.full as int,
        j,
    );
    assert(f.text() == w.prefix(j));
    assert(text.subrange(0, i).len() == i);
    if j < w.given {
        lemma_fields_cut(w, j);
    }
}

/// Reads the number of full moves after the first five fields and the space at `i`.
fn parse_full(text: &Vec<char>, f: Fen, i: usize, Ghost(w): Ghost<Option<Canon>>) -> (r: Result<
    Fen,
    ParseError,
>)
    requires
        f.wf(),
        f.given == 5,
        i < text.len(),
        text@[i as int] == ' ',
        text@.subrange(0, i as int) == f.text(),
        w is Some ==> w->0.wf() && text@ == w->0.text() && w->0.given >= 5 && f.canon().agrees(
            w->0,
            5,
        ),
    ensures
        r is Ok ==> r->Ok_0.wf() && text@ == r->Ok_0.text(),
        w is Some ==> r is Ok && r->Ok_0.canon() == w->0,
        r is Ok ==> first_bad(text@, i + 1, 6) == 0,
        r is Err ==> field_number(r->Err_0.field) == first_bad(text@, i + 1, 6),
{
    let ghost start = i as int + 1;
    let ghost given: Option<int> = match w {
        Some(c) => Some(c.full),
        None => None,
    };
    let ghost wn = counter_witness(text@, start, 6, given);
    proof {
        if w is Some {
            lemma_stage(text@, i as int, f, w->0);
        }
        lemma_counter_witness(text@, start, 6, given);
        lemma_field_end(text@, start);
    }
    let (full, i6) = match parse_number(text, i + 1, FenField::FullMove, Ghost(wn)) {
        Ok(x) => x,
        Err(e) => {
            return Err(e);
        },
    };
    let h = Fen {
        board: f.board,
        colour: f.colour,
        castling: f.castling,
        ep: f.ep,
        half: f.half,
        full,
        given: 6,
    };
    proof {
        lemma_fields_step(f, h, decimal(full as int));
        lemma_text_step(text@, i as int, i6 as int, f, h, decimal(full as int));
        lemma_decimal_no_space(full as int);
        if i6 == text.len() || text@[i6 as int] == ' ' {
            assert(counter_of(decimal(full as int), full as int));
            lemma_field_read(text@, start, 6, decimal(full as int), i6 as int);
        }
    }
    if i6 != text.len() {
        return fail(FenField::FullMove, FenReason::Trailing);
    }
    proof {
        assert(text@.subrange(0, i6 as int) =~= text@);
        if w is Some {
            assert(h.canon().board == w->0.board);
            assert(h.canon() == w->0);
        }
    }
    Ok(h)
}

/// Reads the counters after the first four fields and the space at `i`.
fn parse_counters(text: &Vec<char>, f: Fen, i: usize, Ghost(w): Ghost<Option<Canon>>) -> (r: Result<
    Fen,
    ParseError,
>)
    requires
        f.wf(),
        f.given == 4,
        i < text.len(),
        text@[i as int] == ' ',
        text@.subrange(0, i as int) == f.text(),
        w is Some ==> w->0.wf() && text@ == w->0.text() && w->0.given >= 4 && f.canon().agrees(
            w->0,
            4,
        ),
    ensures
        r is Ok ==> r->Ok_0.wf() && text@ == r->Ok_0.text(),
        w is Some ==> r is Ok && r->Ok_0.canon() == w->0,
        r is Ok ==> first_bad(text@, i + 1, 5) == 0,
        r is Err ==> field_number(r->Err_0.field) == first_bad(text@, i + 1, 5),
{
    let ghost start = i as int + 1;
    let ghost given: Option<int> = match w {
        Some(c) => Some(c.half),
        None => None,
    };
    let ghost wn = counter_witness(text@, start, 5, given);
    proof {
        if w is Some {
            lemma_stage(text@, i as int, f, w->0);
        }
        lemma_counter_witness(text@, start, 5, given);
        lemma_field_end(text@, start);
    }
    let (half, i5) = match parse_number(text, i + 1, FenField::HalfMove, Ghost(wn)) {
        Ok(x) => x,
        Err(e) => {
            return Err(e);
        },
    };
    let g = Fen {
        board: f.board,
        colour: f.colour,
        castling: f.castling,
        ep: f.ep,
        half,
        full: 1,
        given: 5,
    };
    proof {
        lemma_fields_step(f, g, decimal(half as int));
        lemma_text_step(text@, i as int, i5 as int, f, g, decimal(half as int));
        lemma_decimal_no_space(half as int);
        if i5 == text.len() || text@[i5 as int] == ' ' {
            assert(counter_of(decimal(half as int), half as int));
            lemma_field_read(text@, start, 5, decimal(half as int), i5 as int);
        }
        if w is Some {
            lemma_stage(text@, i5 as int, g, w->0);
        }
    }
    if i5 == text.len() {
        proof {
            assert(text@.subrange(0, i5 as int) =~= text@);
            if w is Some {
                assert(g.canon() == w->0);
            }
        }
        return Ok(g);
    }
    if text[i5] != ' ' {
        return fail(FenField::HalfMove, FenReason::BadChar);
    }
    parse_full(text, g, i5, Ghost(w))
}

/// Reads the square of a capture en passant and what follows after the first three fields and
/// the space at `i`.
fn parse_target(text: &Vec<char>, f: Fen, i: usize, Ghost(w): Ghost<Option<Canon>>) -> (r: Result<
    Fen,
    ParseError,
>)
    requires
        f.wf(),
        f.given == 3,
        i < text.len(),
        text@[i as int] == ' ',
        text@.subrange(0, i as int) == f.text(),
        w is Some ==> w->0.wf() && text@ == w->0.text() && w->0.given >= 3 && f.canon().agrees(
            w->0,
            3,
        ),
    ensures
        r is Ok ==> r->Ok_0.wf() && text@ == r->Ok_0.text(),
        w is Some ==> r is Ok && r->Ok_0.canon() == w->0,
        r is Ok ==> first_bad(text@, i + 1, 4) == 0,
        r is Err ==> field_number(r->Err_0.field) == first_bad(text@, i + 1, 4),
{
    let ghost start = i as int + 1;
    let ghost given: Option<Option<usize>> = match w {
        Some(c) => Some(c.ep),
        None => None,
    };
    let ghost we = square_witness(text@, start, given);
    proof {
        if w is Some {
            lemma_stage(text@, i as int, f, w->0);
        }
        lemma_square_witness(text@, start, given);
        lemma_field_end(text@, start);
    }
    let (ep, i4) = match parse_ep(text, i + 1, Ghost(we)) {
        Ok(x) => x,
        Err(e) => {
            return Err(e);
        },
    };
    let h = Fen {
        board: f.board,
        colour: f.colour,
        castling: f.castling,
        ep,
        half: 0,
        full: 1,
        given: 4,
    };
    proof {
        lemma_fields_step(f, h, ep_text(ep));
        lemma_text_step(text@, i as int, i4 as int, f, h, ep_text(ep));
        lemma_fields_no_space(Seq::empty(), true, f.castling, ep, 0);
        if i4 == text.len() || text@[i4 as int] == ' ' {
            assert(square_of(ep_text(ep), ep));
            lemma_field_read(text@, start, 4, ep_text(ep), i4 as int);
        }
        if w is Some {
            lemma_stage(text@, i4 as int, h, w->0);
        }
    }
    if i4 == text.len() {
        proof {
            assert(text@.subrange(0, i4 as int) =~= text@);
            if w is Some {
                assert(h.canon() == w->0);
            }
        }
        return Ok(h);
    }
    if text[i4] != ' ' {
        return fail(FenField::EnPassant, FenReason::BadChar);
    }
    parse_counters(text, h, i4, Ghost(w))
}

/// Reads the castling rights and what follows after the first two fields and the space at `i`.
fn parse_rights(text: &Vec<char>, f: Fen, i: usize, Ghost(w): Ghost<Option<Canon>>) -> (r: Result<
    Fen,
    ParseError,
>)
    requires
        f.wf(),
        f.given == 2,
        i < text.len(),
        text@[i as int] == ' ',
        text@.subrange(0, i as int) == f.text(),
        w is Some ==> w->0.wf() && text@ == w->0.text() && w->0.given >= 2 && f.canon().agrees(
            w->0,
            2,
        ),
    ensures
        r is Ok ==> r->Ok_0.wf() && text@ == r->Ok_0.text(),
        w is Some ==> r is Ok && r->Ok_0.canon() == w->0,
        r is Ok ==> first_bad(text@, i + 1, 3) == 0,
        r is Err ==> field_number(r->Err_0.field) == first_bad(text@, i + 1, 3),
{
    let ghost start = i as int + 1;
    let ghost given: Option<Castling> = match w {
        Some(c) => Some(c.castling),
        None => None,
    };
    let ghost wc = rights_witness(text@, start, given);
    proof {
        if w is Some {
            lemma_stage(text@, i as int, f, w->0);
        }
        lemma_rights_witness(text@, start, given);
        lemma_field_end(text@, start);
    }
    let (castling, i3) = match parse_castling(text, i + 1, Ghost(wc)) {
        Ok(x) => x,
        Err(e) => {
            return Err(e);
        },
    };
    let g = Fen {
        board: f.board,
        colour: f.colour,
        castling,
        ep: None,
        half: 0,
        full: 1,
        given: 3,
    };
    proof {
        lemma_fields_step(f, g, castling_text(castling));
        lemma_text_step(text@, i as int, i3 as int, f, g, castling_text(castling));
        lemma_fields_no_space(Seq::empty(), true, castling, None, 0);
        if i3 == text.len() || text@[i3 as int] == ' ' {
            lemma_field_read(text@, start, 3, castling_text(castling), i3 as int);
        }
        if w is Some {
            lemma_stage(text@, i3 as int, g, w->0);
        }
    }
    if i3 == text.len() {
        proof {
            assert(text@.subrange(0, i3 as int) =~= text@);
            if w is Some {
                assert(g.canon() == w->0);
            }
        }
        return Ok(g);
    }
    if text[i3] != ' ' {
        return fail(FenField::Castling, FenReason::BadChar);
    }
    parse_target(text, g, i3, Ghost(w))
}

/// Reads the side to move and what follows after the placement and the space at `i`.
fn parse_side(text: &Vec<char>, f: Fen, i: usize, Ghost(w): Ghost<Option<Canon>>) -> (r: Result<
    Fen,
    ParseError,
>)
    requires
        f.wf(),
        f.given == 1,
        i < text.len(),
        text@[i as int] == ' ',
        text@.subrange(0, i as int) == f.text(),
        w is Some ==> w->0.wf() && text@ == w->0.text() && w->0.given >= 1 && f.canon().agrees(
            w->0,
            1,
        ),
    ensures
        r is Ok ==> r->Ok_0.wf() && text@ == r->Ok_0.text(),
        w is Some ==> r is Ok && r->Ok_0.canon() == w->0,
        r is Ok ==> first_bad(text@, i + 1, 2) == 0,
        r is Err ==> field_number(r->Err_0.field) == first_bad(text@, i + 1, 2),
{
    let ghost start = i as int + 1;
    proof {
        if w is Some {
            lemma_stage(text@, i as int, f, w->0);
            let side = side_text(w->0.colour);
            assert(text@[start] == text@.subrange(start, start + side.len())[0]);
        }
        lemma_field_end(text@, start);
        if start < text@.len() && text@[start] != ' ' {
            assert(field_at(text@, start)[0] == text@[start]);
        }
    }
    if i + 1 >= text.len() {
        return fail(FenField::Side, FenReason::Empty);
    }
    let side = text[i + 1];
    if side != 'w' && side != 'b' {
        return fail(FenField::Side, FenReason::BadChar);
    }
    let g = Fen {
        board: f.board,
        colour: side == 'w',
        castling: f.castling,
        ep: None,
        half: 0,
        full: 1,
        given: 2,
    };
    let i2 = i + 2;
    proof {
        assert(text@.subrange(start, i2 as int) =~= side_text(g.colour));
        lemma_fields_step(f, g, side_text(g.colour));
        lemma_text_step(text@, i as int, i2 as int, f, g, side_text(g.colour));
        if i2 == text.len() || text@[i2 as int] == ' ' {
            lemma_field_read(text@, start, 2, side_text(g.colour), i2 as int);
        } else {
            lemma_field_end(text@, start + 1);
            assert(field_at(text@, start).len() >= 2);
        }
        if w is Some {
            lemma_stage(text@, i2 as int, g, w->0);
        }
    }
    if i2 == text.len() {
        proof {
            assert(text@.subrange(0, i2 as int) =~= text@);
            if w is Some {
                assert(g.canon() == w->0);
            }
        }
        return Ok(g);
    }
    if text[i2] != ' ' {
        return fail(FenField::Side, FenReason::BadChar);
    }
    parse_rights(text, g, i2, Ghost(w))
}

/// Whether `text` is the text of the fields `c`.
pub open spec fn written(text: Seq<char>, c: Canon) -> bool {
    c.wf() && text == c.text()
}

/// The field that an error names for `text`: the first of its fields, cut at single spaces,
/// that cannot be read, and the last field where text follows the sixth.
pub open spec fn bad_field(text: Seq<char>) -> int {
    first_bad(text, 0, 1)
}

/// Reads the fields of a position from `text`. Where `text` is the text of the fields `w`,
/// these are read. An error names the first field that cannot be read.
fn parse_with(text: &Vec<char>, Ghost(w): Ghost<Option<Canon>>) -> (r: Result<Fen, ParseError>)
    requires
        w is Some ==> written(text@, w->0),
    ensures
        r is Ok ==> r->Ok_0.wf() && text@ == r->Ok_0.text(),
        w is Some ==> r is Ok && r->Ok_0.canon() == w->0,
        r is Ok ==> bad_field(text@) == 0,
        r is Err ==> field_number(r->Err_0.field) == bad_field(text@),
{
    let ghost given: Option<Seq<Piece>> = match w {
        Some(c) => Some(c.board),
        None => None,
    };
    let ghost wb = board_witness(text@, given);
    proof {
        if w is Some {
            let c = w->0;
            lemma_fields_prefix(c, 1, c.given);
            assert(c.prefix(1) == ranks_text(c.board, 8));
            if c.given > 1 {
                lemma_fields_cut(c, 1);
            }
        }
        lemma_board_witness(text@, given);
        lemma_field_end(text@, 0);
    }
    let (board, i1) = match parse_placement(text, Ghost(wb)) {
        Ok(x) => x,
        Err(e) => {
            return Err(e);
        },
    };
    let none = Castling {
        white_short: false,
        white_long: false,
        black_short: false,
        black_long: false,
};
    let f = Fen { board, colour: true, castling: none, ep: None, half: 0, full: 1, given: 1 };
    proof {
        lemma_ranks_no_space(board@, 8);
        if i1 == text.len() || text@[i1 as int] == ' ' {
            assert(placement_of(ranks_text(board@, 8), board@));
            lemma_field_read(text@, 0, 1, ranks_text(board@, 8), i1 as int);
        }
        if w is Some {
            lemma_stage(text@, i1 as int, f, w->0);
        }
    }
    if i1 == text.len() {
        proof {
            assert(text@.subrange(0, i1 as int) =~= text@);
            if w is Some {
                assert(f.canon() == w->0);
            }
        }
        return Ok(f);
    }
    if text[i1] != ' ' {
        return fail(FenField::Placement, FenReason::BadChar);
    }
    parse_side(text, f, i1, Ghost(w))
}

/// Reads the fields of a position from `text`: the piece placement, and as far as they are
/// there the side to move, the castling rights, the square of a capture en passant, and the
/// two counters, with one space between two fields. A text is read if and only if it is the
/// text of some fields, and then it is the text of the fields that are read. An error names
/// the first field, in the order of the notation, that cannot be read.
pub fn parse_fen(text: &Vec<char>) -> (r: Result<Fen, ParseError>)
    ensures
        r is Ok ==> r->Ok_0.wf() && written(text@, r->Ok_0.canon()),
        forall|c: Canon| #[trigger] written(text@, c) ==> r is Ok,
        forall|c: Canon| #[trigger] written(text@, c) && c.given == 6 ==> r->Ok_0.given == 6,
        r is Ok ==> bad_field(text@) == 0,
        r is Err ==> field_number(r->Err_0.field) == bad_field(text@),
{
    let ghost w: Option<Canon> = if exists|c: Canon| written(text@, c) && c.given == 6 {
        Some(choose|c: Canon| written(text@, c) && c.given == 6)
    } else if exists|c: Canon| written(text@, c) {
        Some(choose|c: Canon| written(text@, c))
    } else {
        None
    };
    parse_with(text, Ghost(w))
}

/// The square of a capture en passant in a position, as the notation names it.
pub open spec fn ep_of(pos: Position) -> Option<usize> {
    match ep_square(pos.board, pos.colour, pos.last) {
        Some(t) => Some(t as usize),
        None => None,
    }
}

/// The text of the first `n` fields of a position.
pub open spec fn position_text(pos: Position, n: int) -> Seq<char> {
    fields_text(
        pos.board,
        pos.colour,
        pos.can_castle,
        ep_of(pos),
        pos.half_move_clock as int,
        pos.full_move_count as int,
        n,
    )
}

/// Whether the fields of a position after the first `n` have their defaults: White to move, no
/// castling rights, no capture en passant, the counters 0 and 1.
pub open spec fn position_defaults(pos: Position, n: int) -> bool {
    &&& n < 2 ==> pos.colour
    &&& n < 3 ==> pos.can_castle == (Castling {
        white_short: false,
        white_long: false,
        black_short: false,
        black_long: false,
    })
    &&& n < 4 ==> ep_of(pos) is None
    &&& n < 5 ==> pos.half_move_clock == 0
    &&& n < 6 ==> pos.full_move_count == 1
}

/// Whether `text` is the text of the first `n` fields of the position and the other fields
/// have their defaults.
pub open spec fn reads_as_fields(text: Seq<char>, pos: Position, n: int) -> bool {
    1 <= n <= 6 && text == position_text(pos, n) && position_defaults(pos, n)
}

/// Whether `text` is the text of the first fields of the position, be it of all six, and the
/// other fields have their defaults.
pub open spec fn reads_as(text: Seq<char>, pos: Position) -> bool {
    exists|n: int| reads_as_fields(text, pos, n)
}

/// The double step of a pawn over the square `t` that allows the side `colour` a capture en
/// passant there: from the square behind `t` to the square before it, seen from that side.
pub open spec fn step_over(colour: bool, t: int) -> Move {
    Move {
        data: spec_pack(
            false,
            false,
            Piece::Nil,
            t - crate::bitmaps::forward(!colour),
            t + crate::bitmaps::forward(!colour),
        ),
        val: 0,
    }
}

/// The move that led to a position, as far as its notation tells: the double step over the
/// square of a capture en passant, or the null move.
pub open spec fn last_of(colour: bool, ep: Option<usize>) -> Move {
    match ep {
        Some(t) => step_over(colour, t as int),
        None => spec_null_move(),
    }
}

/// The double step of a pawn that allows the side `colour` a capture en passant on `t`, if
/// there is one.
fn double_step(board: &[Piece; 64], colour: bool, t: usize) -> (r: Option<Move>)
    requires
        t < 64,
    ensures
        r is Some ==> ep_square(board@, colour, r->0) == Some(t as int),
        r is Some ==> r->0 == step_over(colour, t as int),
        forall|m: Move| #[trigger] ep_square(board@, colour, m) == Some(t as int) ==> r is Some,
{
    let rank = t % 8;
    proof {
        assert forall|m: Move| #[trigger] ep_square(board@, colour, m) == Some(
            t as int,
        ) implies (rank == if colour {
            5int
        } else {
            2int
        }) && m.spec_frm() == t - crate::bitmaps::forward(!colour) && m.spec_to() == t
            + crate::bitmaps::forward(!colour) by {
            crate::mgen::lemma_move_range(m);
            assert(reach(Reach::PawnStep2(!colour), m.spec_frm(), m.spec_to()));
        }
    }
    if colour && rank != 5 || !colour && rank != 2 {
        return None;
    }
    let (lf, lt): (usize, usize) = if colour {
        (t + 1, (t - 1) as usize)
    } else {
        ((t - 1) as usize, t + 1)
    };
    let m = Move::new(false, false, lf, lt);
    match en_passant_square(board, colour, &m) {
        Some(sq) => if sq == t {
            Some(m)
        } else {
            None
        },
        None => None,
    }
}

/// Whether a position can be written and read again: its board has 64 squares and its counters
/// are not too large.
pub open spec fn writable(pos: Position) -> bool {
    pos.board.len() == 64 && pos.half_move_clock <= 65535 && pos.full_move_count <= 65535
}

/// The six fields of a position.
pub open spec fn canon_of(pos: Position) -> Canon {
    Canon {
        board: pos.board,
        colour: pos.colour,
        castling: pos.can_castle,
        ep: ep_of(pos),
        half: pos.half_move_clock as int,
        full: pos.full_move_count as int,
        given: 6,
    }
}

/// Whether `text` is the text of all six fields of the position `pos`, which can be written.
pub open spec fn writes(text: Seq<char>, pos: Position) -> bool {
    writable(pos) && text == position_text(pos, 6)
}

/// Whether the square of the capture en passant among the fields `c`, if there is one, is
/// one that a pawn has just passed in a double step.
pub open spec fn ep_possible(c: Canon) -> bool {
    c.ep is Some ==> exists|m: Move| #[trigger] ep_square(c.board, c.colour, m) == Some(
        c.ep->0 as int,
    )
}

/// Whether `text` is the notation of a position: the text of some fields whose square of a
/// capture en passant is possible.
pub open spec fn readable(text: Seq<char>) -> bool {
    exists|c: Canon| written(text, c) && #[trigger] ep_possible(c)
}

/// The fields of a position that can be written are written as its text, and its square of a
/// capture en passant is possible.
pub proof fn lemma_writes(text: Seq<char>, pos: Position)
    requires
        writes(text, pos),
    ensures
        written(text, canon_of(pos)),
        ep_possible(canon_of(pos)),
        readable(text),
{
    crate::mgen::lemma_move_range(pos.last);
    let c = canon_of(pos);
    if c.ep is Some {
        assert(ep_square(c.board, c.colour, pos.last) == Some(c.ep->0 as int));
    }
    assert(written(text, c) && ep_possible(c));
}

impl Game {
    /// Reads a position from its notation. Fields that are missing at the end have their
    /// defaults. A text is read if and only if it is the text of some fields and names no
    /// square for a capture en passant that is not possible. A text that is read is the text
    /// of the fields of the game that were given. Every text that `to_fen` writes of a
    /// position with counters up to 65535 is read, and `to_fen` writes the same text of the
    /// game that was read. An error names the first field, in the order of the notation and
    /// cut at single spaces, that cannot be read; where every field can be read, it names the
    /// square of a capture en passant, over which no pawn has just passed.
    pub fn from_fen(s: &str) -> (r: Result<Game, ParseError>)
        ensures
            r is Ok <==> readable(s@),
            r is Err ==> field_number(r->Err_0.field) == if bad_field(s@) == 0 {
                4
            } else {
                bad_field(s@)
            },
            r is Err && bad_field(s@) == 0 ==> r->Err_0.reason == FenReason::NoPawn,
            r is Ok ==> r->Ok_0.wf(),
            r is Ok ==> reads_as(s@, r->Ok_0@),
            r is Ok ==> r->Ok_0@.undo.len() == 0,
            r is Ok ==> r->Ok_0@.rep_base == 0,
            r is Ok ==> r->Ok_0@.rep == Map::<u64, usize>::empty().insert(r->Ok_0@.hash, 1usize),
            r is Ok ==> r->Ok_0@.end_game == spec_end_game(r->Ok_0@.board),
            r is Ok ==> r->Ok_0@.last == last_of(r->Ok_0@.colour, ep_of(r->Ok_0@)),
            r is Ok && ep_of(r->Ok_0@) is None ==> r->Ok_0@.last == spec_null_move(),
            r is Ok ==> r->Ok_0.table() == Map::<u64, TTable>::empty(),
            r is Ok ==> r->Ok_0.searched() == 0,
            r is Ok ==> r->Ok_0.traced() == Seq::<Progress>::empty(),
            forall|pos: Position| #[trigger]
                writes(s@, pos) ==> r is Ok && s@ == position_text(r->Ok_0@, 6),
    {
        let text = chars_of(s);
        let ghost w: Option<Canon> = if exists|pos: Position| writes(s@, pos) {
            Some(canon_of(choose|pos: Position| writes(s@, pos)))
        } else if readable(s@) {
            Some(choose|c: Canon| written(s@, c) && #[trigger] ep_possible(c))
        } else {
            None
        };
        proof {
            if exists|pos: Position| writes(s@, pos) {
                lemma_writes(s@, choose|pos: Position| writes(s@, pos));
            }
            assert forall|pos: Position| #[trigger] writes(s@, pos) implies readable(s@) by {
                lemma_writes(s@, pos);
            }
            if w is Some {
                assert(written(text@, w->0) && ep_possible(w->0));
            }
        }
        let f = match parse_with(&text, Ghost(w)) {
            Ok(f) => f,
            Err(e) => {
                return Err(e);
            },
        };
        let last = match f.ep {
            None => {
                proof {
                    crate::mgen::lemma_move_range(crate::mgen::spec_null_move());
                    assert(!reach(Reach::PawnStep2(!f.colour), 0, 0));
                    assert(crate::mgen::spec_null_move().spec_frm() == 0) by {
                        crate::mgen::lemma_pack_fields(false, false, Piece::Nil, 0, 0);
                        assert(crate::mgen::spec_pack(false, false, Piece::Nil, 0, 0) == 0u16)
                            by (bit_vector);
                    }
                }
                null_move()
            },
            Some(t) => {
                proof {
                    if w is Some {
                        let m = choose|m: Move| #[trigger]
                            ep_square(w->0.board, w->0.colour, m) == Some(w->0.ep->0 as int);
                        assert(ep_square(f.board@, f.colour, m) == Some(t as int));
                    }
                }
                match double_step(&f.board, f.colour, t) {
                    Some(m) => m,
                    None => {
                        return fail(FenField::EnPassant, FenReason::NoPawn);
                    },
                }
            },
        };
        let game = Game::from_parts(f.board, f.colour, f.castling, f.half, f.full, last);
        proof {
            assert(ep_of(game@) == f.ep);
            assert(written(s@, f.canon()) && ep_possible(f.canon())) by {
                if f.ep is Some {
                    assert(ep_square(f.canon().board, f.canon().colour, last) == Some(
                        f.ep->0 as int,
                    ));
                }
            }
            assert(s@ == position_text(game@, f.given as int));
            assert(position_defaults(game@, f.given as int));
            assert(reads_as_fields(s@, game@, f.given as int));
        }
        Ok(game)
    }

    /// The notation of the position, with all six fields.
    pub fn to_fen(&self) -> (s: String)
        requires
            self.wf(),
        ensures
            s@ == position_text(self@, 6),
    {
        let board = self.board();
        let last = self.last_move();
        let ep = en_passant_square(&board, self.turn(), &last);
        let f = Fen {
            board,
            colour: self.turn(),
            castling: self.castling(),
            ep,
            half: self.half_moves(),
            full: self.full_moves(),
            given: 6,
        };
        let text = print_fen(&f);
        string_of(&text)
    }
}

/// The suffix that names the piece of a promotion; nothing for a move that does not promote.
pub open spec fn promotion_text(m: Move) -> Seq<char> {
    if !m.spec_transform() {
        Seq::<char>::empty()
    } else {
        match m.spec_ptransform(true) {
            Piece::Rook(_) => seq!['=', 'R'],
            Piece::Knight(_) => seq!['=', 'N'],
            Piece::Bishop(_) => seq!['=', 'B'],
            _ => seq!['=', 'Q'],
        }
    }
}

/// The text of a move: the names of its two squares and the piece of its promotion.
pub open spec fn move_text(m: Move) -> Seq<char> {
    square_name(m.spec_frm()) + square_name(m.spec_to()) + promotion_text(m)
}

/// Appends the name of a square.
fn push_square(out: &mut Vec<char>, sq: usize)
    requires
        sq < 64,
    ensures
        final(out)@ == old(out)@ + square_name(sq as int),
{
    out.push(file_letter(7 - sq / 8));
    out.push(digit_of(sq % 8 + 1));
    proof {
        assert(out@ =~= old(out)@ + square_name(sq as int));
    }
}

impl Move {
    /// The text of the move: the names of its two squares, and for a promotion `=` and the
    /// letter of the piece.
    pub fn to_text(&self) -> (s: String)
        ensures
            s@ == move_text(*self),
    {
        let mut out: Vec<char> = Vec::new();
        push_square(&mut out, self.frm());
        push_square(&mut out, self.to());
        if self.transform() {
            out.push('=');
            out.push(
                match self.ptransform(true) {
                    Piece::Rook(_) => 'R',
                    Piece::Knight(_) => 'N',
                    Piece::Bishop(_) => 'B',
                    _ => 'Q',
                },
            );
        }
        proof {
            assert(out@ =~= move_text(*self));
        }
        string_of(&out)
    }
}

} // verus!
