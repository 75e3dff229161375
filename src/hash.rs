//! MurmurHash64A with seed 0, the per-prefix accumulator states and the
//! inverse of the final mixing steps.
use vstd::arithmetic::div_mod::{lemma_mod_multiples_vanish, lemma_mul_mod_noop_left, lemma_small_mod};
use vstd::prelude::*;

verus! {

/// Multiplier of MurmurHash64A.
pub const MAGIC: u64 = 0xc6a4a7935bd1e995;

/// Shift of the xor-shift steps of MurmurHash64A.
pub const ROLL: u64 = 47;

/// Inverse of `MAGIC` modulo 2^64.
pub const MAGIC_INVERSE: u64 = 0x5f7a0ea7e59b19bd;

/// `x ^ (x >> 47)`, which is its own inverse on 64 bits.
pub open spec fn xorshift(x: u64) -> u64 {
    x ^ (x >> 47u64)
}

/// The little-endian word whose low bytes are `s` (at most eight of them) and
/// whose other bytes are zero.
pub open spec fn le_word(s: Seq<u8>) -> u64
    decreases s.len(),
{
    if s.len() == 0 {
        0
    } else {
        (s[0] as u64) | (le_word(s.drop_first()) << 8u64)
    }
}

/// What one eight-byte block contributes to the accumulator.
#[verifier::opaque]
pub open spec fn mix_block(k: u64) -> u64 {
    xorshift(k.wrapping_mul(MAGIC)).wrapping_mul(MAGIC)
}

/// The accumulator after every whole eight-byte block of `s` has been folded
/// into `h`; a trailing partial block is left alone.
pub open spec fn absorb(h: u64, s: Seq<u8>) -> u64
    decreases s.len(),
{
    if s.len() < 8 {
        h
    } else {
        absorb((h ^ mix_block(le_word(s.take(8)))).wrapping_mul(MAGIC), s.skip(8))
    }
}

/// Length of the longest head of a sequence of `n` bytes that is made of whole blocks.
pub open spec fn aligned_len(n: nat) -> nat {
    (n - n % 8) as nat
}

/// The finaliser of MurmurHash64A.
#[verifier::opaque]
pub open spec fn finalize(h: u64) -> u64 {
    xorshift(xorshift(h).wrapping_mul(MAGIC))
}

/// The last multiplication of the tail fold followed by the finaliser.
#[verifier::opaque]
pub open spec fn end_mix(x: u64) -> u64 {
    finalize(x.wrapping_mul(MAGIC))
}

/// The inverse of `end_mix`.
#[verifier::opaque]
pub open spec fn undo_end(h: u64) -> u64 {
    xorshift(xorshift(h).wrapping_mul(MAGIC_INVERSE)).wrapping_mul(MAGIC_INVERSE)
}

/// MurmurHash64A with seed 0.
pub open spec fn murmur64a(k: Seq<u8>) -> u64 {
    let h = absorb((k.len() as u64).wrapping_mul(MAGIC), k);
    let tail = k.skip(aligned_len(k.len()) as int);
    if tail.len() == 0 {
        finalize(h)
    } else {
        end_mix(h ^ le_word(tail))
    }
}

/// The accumulator for the whole blocks of `p`, seeded for a key that
/// continues `p`'s blocks with a tail of `t` bytes.
pub open spec fn prefix_state(p: Seq<u8>, t: nat) -> u64 {
    absorb(((aligned_len(p.len()) + t) as u64).wrapping_mul(MAGIC), p)
}

proof fn lemma_xorshift_involution(x: u64)
    ensures
        xorshift(xorshift(x)) == x,
{
    assert((x ^ (x >> 47u64)) ^ ((x ^ (x >> 47u64)) >> 47u64) == x) by (bit_vector);
}

proof fn lemma_wrapping_mul_cancel(x: u64, a: u64, b: u64)
    requires
        a as int * b as int == 5338401661063375727 * 0x1_0000_0000_0000_0000 + 1,
    ensures
        x.wrapping_mul(a).wrapping_mul(b) == x,
{
    let n: int = 0x1_0000_0000_0000_0000;
    let y = x.wrapping_mul(a);
    assert(y as int == (x as int * a as int) % n);
    lemma_mul_mod_noop_left(x as int * a as int, b as int, n);
    assert(x as int * a as int * b as int == n * (x as int * 5338401661063375727) + x as int)
        by (nonlinear_arith)
        requires
            a as int * b as int == 5338401661063375727 * n + 1,
    ;
    lemma_mod_multiples_vanish(x as int * 5338401661063375727, x as int, n);
    lemma_small_mod(x as nat, n as nat);
}

/// `end_mix` is a bijection on 64 bits and `undo_end` is its inverse, both ways.
pub proof fn lemma_end_mix_bijection(x: u64, h: u64)
    ensures
        undo_end(end_mix(x)) == x,
        end_mix(undo_end(h)) == h,
{
    reveal(end_mix);
    reveal(finalize);
    reveal(undo_end);
    assert(MAGIC as int * MAGIC_INVERSE as int == 5338401661063375727 * 0x1_0000_0000_0000_0000
        + 1);
    let a = x.wrapping_mul(MAGIC);
    lemma_xorshift_involution(xorshift(a).wrapping_mul(MAGIC));
    lemma_wrapping_mul_cancel(xorshift(a), MAGIC, MAGIC_INVERSE);
    lemma_xorshift_involution(a);
    lemma_wrapping_mul_cancel(x, MAGIC, MAGIC_INVERSE);

    let b = xorshift(h).wrapping_mul(MAGIC_INVERSE);
    let c = xorshift(b).wrapping_mul(MAGIC_INVERSE);
    lemma_wrapping_mul_cancel(xorshift(b), MAGIC_INVERSE, MAGIC);
    lemma_xorshift_involution(b);
    lemma_wrapping_mul_cancel(xorshift(h), MAGIC_INVERSE, MAGIC);
    lemma_xorshift_involution(h);
}


proof fn lemma_le_word_step(s: Seq<u8>, i: int, n: int)
    requires
        0 <= i < n <= s.len(),
    ensures
        le_word(s.subrange(i, n)) == (s[i] as u64) | (le_word(s.subrange(i + 1, n)) << 8u64),
{
    assert(s.subrange(i, n).drop_first() =~= s.subrange(i + 1, n));
}

/// The little-endian word of `key[start..start + n]`.
fn read_word(key: &[u8], start: usize, n: usize) -> (r: u64)
    requires
        n <= 8,
        start + n <= key@.len(),
    ensures
        r == le_word(key@.subrange(start as int, start + n)),
{
    let len = key.len();
    let mut w: u64 = 0;
    let mut i: usize = n;
    assert(key@.subrange(start + n, start + n).len() == 0);
    while i > 0
        invariant
            i <= n <= 8,
            start + n <= len == key@.len(),
            w == le_word(key@.subrange(start + i, start + n)),
        decreases i,
    {
        i = i - 1;
        proof {
            lemma_le_word_step(key@, start + i, start + n);
        }
        w = (key[start + i] as u64) | (w << 8u64);
    }
    w
}

/// Folds every whole eight-byte block of `key` into `h`.
fn absorb_blocks(h: u64, key: &[u8]) -> (r: u64)
    ensures
        r == absorb(h, key@),
{
    let mut acc: u64 = h;
    let mut pos: usize = 0;
    assert(key@.skip(0) =~= key@);
    while key.len() - pos >= 8
        invariant
            pos <= key@.len(),
            absorb(h, key@) == absorb(acc, key@.skip(pos as int)),
        decreases key@.len() - pos,
    {
        proof {
            reveal(mix_block);
            let rest = key@.skip(pos as int);
            assert(rest.take(8) =~= key@.subrange(pos as int, pos + 8));
            assert(rest.skip(8) =~= key@.skip(pos + 8));
        }
        let mut k = read_word(key, pos, 8);
        k = k.wrapping_mul(MAGIC);
        k = k ^ (k >> ROLL);
        k = k.wrapping_mul(MAGIC);
        acc = (acc ^ k).wrapping_mul(MAGIC);
        pos = pos + 8;
    }
    acc
}

/// MurmurHash64A of `key` with seed 0.
pub fn mmh64a(key: &[u8]) -> (r: u64)
    ensures
        r == murmur64a(key@),
{
    let len = key.len();
    let mut hash = absorb_blocks((len as u64).wrapping_mul(MAGIC), key);
    let start = len - len % 8;
    assert(key@.skip(start as int) =~= key@.subrange(start as int, start + len % 8));
    if len % 8 != 0 {
        hash = hash ^ read_word(key, start, len % 8);
        hash = hash.wrapping_mul(MAGIC);
    }
    hash = hash ^ (hash >> ROLL);
    hash = hash.wrapping_mul(MAGIC);
    hash = hash ^ (hash >> ROLL);
    proof {
        reveal(end_mix);
        reveal(finalize);
    }
    hash
}

/// The seven accumulator states of `prefix`'s whole blocks, one for each tail
/// length from 1 to 7, in that order: the hash state just before a tail of
/// that length would be folded in.
pub fn mmh64a_prefix7(prefix: &[u8]) -> (r: [u64; 7])
    ensures
        forall|i: int| 0 <= i < 7 ==> r@[i] == prefix_state(prefix@, (i + 1) as nat),
{
    let len = prefix.len();
    let base = (len - len % 8) as u64;
    assert(base + 7 <= u64::MAX) by {
        assert(len as int % 8 <= len as int);
        assert(base as int % 8 == 0) by (nonlinear_arith)
            requires base as int == len as int - len as int % 8;
    }
    let mut out: [u64; 7] = [0, 0, 0, 0, 0, 0, 0];
    let mut t: usize = 0;
    while t < 7
        invariant
            t <= 7,
            base as int == aligned_len(prefix@.len()),
            base + 7 <= u64::MAX,
            forall|i: int| 0 <= i < t ==> out@[i] == prefix_state(prefix@, (i + 1) as nat),
        decreases 7 - t,
    {
        let seed = (base + t as u64 + 1).wrapping_mul(MAGIC);
        out[t] = absorb_blocks(seed, prefix);
        t = t + 1;
    }
    out
}

/// Inverts the finaliser and the multiplication before it: the value that was
/// xored into the accumulator last, given the final hash.
pub fn mmh64a_undo_end(hash: u64) -> (r: u64)
    ensures
        r == undo_end(hash),
        end_mix(r) == hash,
{
    let mut h = hash;
    h = h ^ (h >> ROLL);
    h = h.wrapping_mul(MAGIC_INVERSE);
    h = h ^ (h >> ROLL);
    h = h.wrapping_mul(MAGIC_INVERSE);
    proof {
        reveal(undo_end);
        lemma_end_mix_bijection(0, hash);
    }
    h
}


pub(crate) proof fn lemma_absorb_ignores_tail(h: u64, p: Seq<u8>, tl: Seq<u8>)
    requires
        p.len() % 8 == 0,
        tl.len() < 8,
    ensures
        absorb(h, p + tl) == absorb(h, p),
    decreases p.len(),
{
    if p.len() >= 8 {
        assert((p + tl).take(8) =~= p.take(8));
        assert((p + tl).skip(8) =~= p.skip(8) + tl);
        lemma_absorb_ignores_tail(
            (h ^ mix_block(le_word(p.take(8)))).wrapping_mul(MAGIC),
            p.skip(8),
            tl,
        );
    } else {
        assert(p.len() == 0);
        assert(p + tl =~= tl);
    }
}

/// The hash of a key made of whole blocks `p` and a tail `tl` of one to seven
/// bytes is `end_mix` of `p`'s state for that tail length xored with the
/// tail's little-endian word.
pub proof fn lemma_prefix_state_tail(p: Seq<u8>, tl: Seq<u8>)
    requires
        p.len() % 8 == 0,
        1 <= tl.len() <= 7,
    ensures
        end_mix(prefix_state(p, tl.len()) ^ le_word(tl)) == murmur64a(p + tl),
{
    let k = p + tl;
    assert(aligned_len(k.len()) == p.len()) by (nonlinear_arith)
        requires
            k.len() == p.len() + tl.len(),
            p.len() % 8 == 0,
            1 <= tl.len() <= 7,
    ;
    assert(aligned_len(p.len()) == p.len());
    assert(k.skip(p.len() as int) =~= tl);
    lemma_absorb_ignores_tail((k.len() as u64).wrapping_mul(MAGIC), p, tl);
}

} // verus!
