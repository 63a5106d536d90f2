//! Zobrist keys: one 64-bit key for every piece on every square and one for White to move.
//! The hash of a position is the exclusive or of the keys of all its pieces and of its side.

use vstd::prelude::*;
use crate::val::Piece;

verus! {

/// Key of the side to move when White is to move. Black to move adds no key.
pub const WHITE_HASH: u64 = 0x9D39247E33776D41;

/// A bijective scrambling of 64 bits.
pub closed spec fn spec_mix(x: u64) -> u64 {
    let a = (x ^ (x >> 30u64)).wrapping_mul(0xBF58476D1CE4E5B9u64);
    let b = (a ^ (a >> 27u64)).wrapping_mul(0x94D049BB133111EBu64);
    b ^ (b >> 31u64)
}

/// Number of the piece among the twelve, from 1; 0 for the empty square.
pub closed spec fn piece_number(p: Piece) -> u64 {
    match p {
        Piece::Rook(c) => if c { 1 } else { 2 },
        Piece::Knight(c) => if c { 3 } else { 4 },
        Piece::Bishop(c) => if c { 5 } else { 6 },
        Piece::King(c) => if c { 7 } else { 8 },
        Piece::Queen(c) => if c { 9 } else { 10 },
        Piece::Pawn(c) => if c { 11 } else { 12 },
        Piece::Nil => 0,
    }
}

/// Key of piece `p` on square `pos`. The empty square has key 0 on every square.
pub closed spec fn spec_hashkey(p: Piece, pos: int) -> u64 {
    if p == Piece::Nil {
        0
    } else {
        spec_mix(((piece_number(p) * 64 + pos) as u64).wrapping_mul(0x9E3779B97F4A7C15u64))
    }
}

/// Exclusive or of the keys of the pieces on the squares below `n`.
pub open spec fn hash_below(board: Seq<Piece>, n: int) -> u64
    decreases n,
{
    if n <= 0 {
        0
    } else {
        hash_below(board, n - 1) ^ spec_hashkey(board[n - 1], n - 1)
    }
}

/// Key of the side to move.
pub open spec fn side_key(colour: bool) -> u64 {
    if colour {
        WHITE_HASH
    } else {
        0
    }
}

/// Hash of a position: the key of the side to move and the keys of all pieces.
pub open spec fn spec_hash(board: Seq<Piece>, colour: bool) -> u64 {
    side_key(colour) ^ hash_below(board, 64)
}

proof fn bv_xor_swap(a: u64, b: u64, c: u64)
    by (bit_vector)
    ensures
        (a ^ b) ^ c == (a ^ c) ^ b,
        a ^ (b ^ c) == (a ^ b) ^ c,
        (a ^ b) ^ b == a,
        a ^ 0 == a,
        a ^ b == b ^ a,
{
}

/// The exclusive or may be regrouped and reordered, and a key taken twice drops out.
pub proof fn lemma_xor(a: u64, b: u64, c: u64)
    ensures
        (a ^ b) ^ c == (a ^ c) ^ b,
        a ^ (b ^ c) == (a ^ b) ^ c,
        (a ^ b) ^ b == a,
        a ^ 0 == a,
        0 ^ a == a,
        a ^ b == b ^ a,
{
    bv_xor_swap(a, b, c);
    bv_xor_swap(0, a, c);
}

/// Replacing the piece on one square changes the hash by the keys of the old and the new piece.
pub proof fn lemma_hash_update(board: Seq<Piece>, n: int, i: int, p: Piece)
    requires
        0 <= n <= board.len(),
        0 <= i < board.len(),
    ensures
        hash_below(board.update(i, p), n) == if i < n {
            hash_below(board, n) ^ spec_hashkey(board[i], i) ^ spec_hashkey(p, i)
        } else {
            hash_below(board, n)
        },
    decreases n,
{
    if n > 0 {
        lemma_hash_update(board, n - 1, i, p);
        let h = hash_below(board, n - 1);
        let old_key = spec_hashkey(board[i], i);
        let new_key = spec_hashkey(p, i);
        if i == n - 1 {
            lemma_xor(h, old_key, new_key);
        } else if i < n - 1 {
            let k = spec_hashkey(board[n - 1], n - 1);
            lemma_xor(h ^ old_key, new_key, k);
            lemma_xor(h, old_key, k);
        }
    }
}

/// The other side to move changes the hash by the key of White.
pub proof fn lemma_hash_flip(board: Seq<Piece>, colour: bool)
    ensures
        spec_hash(board, !colour) == spec_hash(board, colour) ^ WHITE_HASH,
{
    let h = hash_below(board, 64);
    lemma_xor(WHITE_HASH, h, WHITE_HASH);
    lemma_xor(h, WHITE_HASH, 0);
    lemma_xor(0, h, 0);
}

fn mix(x: u64) -> (r: u64)
    ensures
        r == spec_mix(x),
{
    let a = (x ^ (x >> 30u64)).wrapping_mul(0xBF58476D1CE4E5B9u64);
    let b = (a ^ (a >> 27u64)).wrapping_mul(0x94D049BB133111EBu64);
    b ^ (b >> 31u64)
}

impl Piece {
    /// Key of this piece on square `pos`; 0 for the empty square.
    pub fn hashkey(&self, pos: usize) -> (key: u64)
        requires
            pos < 64,
        ensures
            key == spec_hashkey(*self, pos as int),
            *self == Piece::Nil ==> key == 0,
    {
        let number: u64 = match self {
            Piece::Rook(c) => if *c { 1 } else { 2 },
            Piece::Knight(c) => if *c { 3 } else { 4 },
            Piece::Bishop(c) => if *c { 5 } else { 6 },
            Piece::King(c) => if *c { 7 } else { 8 },
            Piece::Queen(c) => if *c { 9 } else { 10 },
            Piece::Pawn(c) => if *c { 11 } else { 12 },
            Piece::Nil => { return 0; },
        };
        mix((number * 64 + pos as u64).wrapping_mul(0x9E3779B97F4A7C15u64))
    }
}

/// Hash of a board with the given side to move.
pub fn board2hash(board: &[Piece; 64], colour: bool) -> (key: u64)
    ensures
        key == spec_hash(board@, colour),
{
    let mut key: u64 = 0;
    let mut i: usize = 0;
    while i < 64
        invariant
            i <= 64,
            key == hash_below(board@, i as int),
        decreases 64 - i,
    {
        key = key ^ board[i].hashkey(i);
        i = i + 1;
    }
    let side: u64 = if colour { WHITE_HASH } else { 0 };
    side ^ key
}

} // verus!
