//! The neighbour index: target hashes filed under masked residues of their
//! unfinalised value, one bucket per tail length, queried with the
//! accumulator states of a prefix.
use crate::hash::{
    aligned_len, le_word, lemma_end_mix_bijection, lemma_prefix_state_tail, mmh64a_prefix7,
    mmh64a_undo_end, murmur64a, prefix_state, undo_end, MAGIC,
};
use std::collections::HashMap;
use vstd::prelude::*;
use vstd::slice::slice_subrange;
use vstd::string::StringSliceAdditionalSpecFns;

verus! {

broadcast use vstd::std_specs::hash::group_hash_axioms;

/// The mask for tail length `t`: it clears the low seven bits of each of the
/// low `t` bytes and keeps every other bit.
pub open spec fn mask(t: nat) -> u64 {
    if t == 0 {
        0xffff_ffff_ffff_ffff
    } else if t == 1 {
        0xffff_ffff_ffff_ff80
    } else if t == 2 {
        0xffff_ffff_ffff_8080
    } else if t == 3 {
        0xffff_ffff_ff80_8080
    } else if t == 4 {
        0xffff_ffff_8080_8080
    } else if t == 5 {
        0xffff_ff80_8080_8080
    } else if t == 6 {
        0xffff_8080_8080_8080
    } else {
        0xff80_8080_8080_8080
    }
}

/// The bucket key of a residue for tail length `t`: the masked residue with
/// `t` in its low bits.
pub open spec fn bucket_key(residue: u64, t: nat) -> u64 {
    (residue & mask(t)) | (t as u64)
}

/// The bucket key under which a target hash is filed for tail length `t`.
pub open spec fn bucket_of(hash: u64, t: nat) -> u64 {
    bucket_key(undo_end(hash), t)
}

/// The low `n` bytes of `w`, least significant first.
pub open spec fn low_bytes(w: u64, n: nat) -> Seq<u8>
    decreases n,
{
    if n == 0 {
        seq![]
    } else {
        seq![w as u8] + low_bytes(w >> 8u64, (n - 1) as nat)
    }
}

/// Every byte of `s` is below 128.
pub open spec fn is_ascii_bytes(s: Seq<u8>) -> bool {
    forall|i: int| 0 <= i < s.len() ==> #[trigger] s[i] < 128
}

proof fn lemma_mask_step(t: nat)
    requires
        1 <= t <= 7,
    ensures
        mask(t) == (mask((t - 1) as nat) << 8u64) | 0x80u64,
        mask(t) & 0x7fu64 == 0,
        mask((t - 1) as nat) & 0xff00_0000_0000_0000u64 == 0xff00_0000_0000_0000u64,
{
    if t == 1 {
        assert((0xffff_ffff_ffff_ffffu64 << 8u64) | 0x80u64 == 0xffff_ffff_ffff_ff80u64) by (bit_vector);
    } else if t == 2 {
        assert((0xffff_ffff_ffff_ff80u64 << 8u64) | 0x80u64 == 0xffff_ffff_ffff_8080u64) by (bit_vector);
    } else if t == 3 {
        assert((0xffff_ffff_ffff_8080u64 << 8u64) | 0x80u64 == 0xffff_ffff_ff80_8080u64) by (bit_vector);
    } else if t == 4 {
        assert((0xffff_ffff_ff80_8080u64 << 8u64) | 0x80u64 == 0xffff_ffff_8080_8080u64) by (bit_vector);
    } else if t == 5 {
        assert((0xffff_ffff_8080_8080u64 << 8u64) | 0x80u64 == 0xffff_ff80_8080_8080u64) by (bit_vector);
    } else if t == 6 {
        assert((0xffff_ff80_8080_8080u64 << 8u64) | 0x80u64 == 0xffff_8080_8080_8080u64) by (bit_vector);
    } else {
        assert((0xffff_8080_8080_8080u64 << 8u64) | 0x80u64 == 0xff80_8080_8080_8080u64) by (bit_vector);
    }
    let a = mask(t);
    let b = mask((t - 1) as nat);
    assert(a & 0x7fu64 == 0 && b & 0xff00_0000_0000_0000u64 == 0xff00_0000_0000_0000u64)
        by (bit_vector)
        requires
            a == (b << 8u64) | 0x80u64,
            b == 0xffff_ffff_ffff_ffffu64 || b == 0xffff_ffff_ffff_ff80u64 || b
                == 0xffff_ffff_ffff_8080u64 || b == 0xffff_ffff_ff80_8080u64 || b
                == 0xffff_ffff_8080_8080u64 || b == 0xffff_ff80_8080_8080u64 || b
                == 0xffff_8080_8080_8080u64,
    ;
}

/// A word whose bits under `mask(t)` are clear is the little-endian word of
/// its low `t` bytes, and those bytes are below 128.
proof fn lemma_word_to_bytes(w: u64, t: nat)
    requires
        t <= 7,
        w & mask(t) == 0,
    ensures
        le_word(low_bytes(w, t)) == w,
        is_ascii_bytes(low_bytes(w, t)),
        low_bytes(w, t).len() == t,
    decreases t,
{
    if t == 0 {
        assert(w & 0xffff_ffff_ffff_ffffu64 == 0 ==> w == 0) by (bit_vector);
    } else {
        lemma_mask_step(t);
        let m = mask((t - 1) as nat);
        assert(((w >> 8u64) & m) == 0 && (w as u8) < 128 && w == ((w as u8) as u64) | ((w >> 8u64) << 8u64))
            by (bit_vector)
            requires
                w & ((m << 8u64) | 0x80u64) == 0,
        ;
        lemma_word_to_bytes(w >> 8u64, (t - 1) as nat);
        let s = low_bytes(w, t);
        assert(s.drop_first() =~= low_bytes(w >> 8u64, (t - 1) as nat));
        assert forall|i: int| 0 <= i < s.len() implies #[trigger] s[i] < 128 by {
            if i > 0 {
                assert(s[i] == low_bytes(w >> 8u64, (t - 1) as nat)[i - 1]);
            }
        }
    }
}

/// The little-endian word of at most seven bytes below 128 has its bits under
/// the mask for its length clear, and its low bytes give the bytes back.
proof fn lemma_bytes_to_word(s: Seq<u8>)
    requires
        s.len() <= 7,
        is_ascii_bytes(s),
    ensures
        le_word(s) & mask(s.len()) == 0,
        low_bytes(le_word(s), s.len()) == s,
    decreases s.len(),
{
    if s.len() > 0 {
        let rest = s.drop_first();
        lemma_bytes_to_word(rest);
        lemma_mask_step(s.len());
        let m = mask(rest.len());
        let w = le_word(rest);
        let b = s[0];
        assert(((b as u64) | (w << 8u64)) & ((m << 8u64) | 0x80u64) == 0
            && (((b as u64) | (w << 8u64)) as u8) == b
            && ((b as u64) | (w << 8u64)) >> 8u64 == w) by (bit_vector)
            requires
                b < 128,
                w & m == 0,
                m & 0xff00_0000_0000_0000u64 == 0xff00_0000_0000_0000u64,
        ;
        assert(low_bytes(le_word(s), s.len()) =~= s);
    } else {
        assert(0u64 & 0xffff_ffff_ffff_ffffu64 == 0) by (bit_vector);
        assert(low_bytes(0, 0) =~= s);
    }
}

/// A tail of at most seven bytes, kept with its length in the last byte of
/// an eight-byte array.
pub struct KeyTail([u8; 8]);

impl View for KeyTail {
    type V = Seq<u8>;

    closed spec fn view(&self) -> Seq<u8> {
        self.0@.take(self.0@[7] as int)
    }
}

impl KeyTail {
    #[verifier::type_invariant]
    spec fn inv(self) -> bool {
        self.0@[7] < 8
    }

    /// The tail made of the low `len` bytes of `hash`.
    pub fn new(hash: u64, len: usize) -> (r: Self)
        requires
            len < 8,
        ensures
            r@ == low_bytes(hash, len as nat),
    {
        let mut tail: [u8; 8] = [0, 0, 0, 0, 0, 0, 0, 0];
        let mut w: u64 = hash;
        let mut i: usize = 0;
        while i < len
            invariant
                i <= len < 8,
                low_bytes(hash, len as nat) == tail@.take(i as int) + low_bytes(w, (len - i) as nat),
            decreases len - i,
        {
            let ghost before = tail@;
            tail[i] = w as u8;
            proof {
                assert(tail@.take(i + 1) =~= before.take(i as int) + seq![w as u8]);
                assert(low_bytes(w, (len - i) as nat) =~= seq![w as u8] + low_bytes(w >> 8u64, (len - i - 1) as nat));
            }
            w = w >> 8;
            i = i + 1;
        }
        tail[7] = len as u8;
        proof {
            assert(low_bytes(w, 0) =~= seq![]);
        }
        let r = KeyTail(tail);
        assert(r@ =~= low_bytes(hash, len as nat));
        r
    }

    /// The bytes of the tail.
    pub fn as_bytes(&self) -> (r: &[u8])
        ensures
            r@ == self@,
            r@.len() < 8,
    {
        proof {
            use_type_invariant(self);
        }
        let len = self.0[7];
        slice_subrange(self.0.as_slice(), 0, len as usize)
    }

    /// The tail as text.
    pub fn as_str(&self) -> (r: &str)
        requires
            vstd::utf8::valid_utf8(self@),
        ensures
            r.spec_bytes() == self@,
    {
        utf8_str(self.as_bytes())
    }
}

/// Relies on std::str::from_utf8: on valid UTF-8 it returns the same bytes as `&str`.
#[verifier::external_body]
fn utf8_str(v: &[u8]) -> (r: &str)
    requires
        vstd::utf8::valid_utf8(v@),
    ensures
        r.spec_bytes() == v@,
{
    std::str::from_utf8(v).unwrap()
}


/// The answers of a query with each tail given by its bytes.
pub open spec fn answers(v: Seq<(u64, KeyTail)>) -> Seq<(u64, Seq<u8>)> {
    v.map_values(|e: (u64, KeyTail)| (e.0, e.1@))
}

/// Every value of `s` is below the values after it.
pub open spec fn strictly_sorted(s: Seq<u64>) -> bool {
    forall|i: int, j: int| 0 <= i < j < s.len() ==> s[i] < s[j]
}

/// `hash` belongs under `key`: the low bits of `key` name a tail length and
/// `key` is the bucket of `hash` for that length.
pub open spec fn files_under(hash: u64, key: u64) -> bool {
    1 <= (key & 7u64) <= 7 && bucket_of(hash, (key & 7u64) as nat) == key
}

proof fn lemma_bucket_tag(residue: u64, t: nat)
    requires
        1 <= t <= 7,
    ensures
        bucket_key(residue, t) & 7u64 == t,
{
    lemma_mask_step(t);
    let m = mask(t);
    let tt = t as u64;
    assert(((residue & m) | tt) & 7u64 == tt) by (bit_vector)
        requires
            m & 0x7fu64 == 0,
            1 <= tt <= 7,
    ;
}

/// First position of `list` whose value is not below `h`.
fn lower_bound(list: &Vec<u64>, h: u64) -> (r: usize)
    requires
        strictly_sorted(list@),
    ensures
        r <= list@.len(),
        forall|i: int| 0 <= i < r ==> list@[i] < h,
        forall|i: int| r <= i < list@.len() ==> list@[i] >= h,
{
    let mut lo: usize = 0;
    let mut hi: usize = list.len();
    while lo < hi
        invariant
            lo <= hi <= list@.len(),
            strictly_sorted(list@),
            forall|i: int| 0 <= i < lo ==> list@[i] < h,
            forall|i: int| hi <= i < list@.len() ==> list@[i] >= h,
        decreases hi - lo,
    {
        let mid = lo + (hi - lo) / 2;
        if list[mid] < h {
            lo = mid + 1;
        } else {
            hi = mid;
        }
    }
    lo
}

/// Adds `h` to a strictly sorted list, keeping it strictly sorted.
fn insert_sorted(list: &mut Vec<u64>, h: u64)
    requires
        strictly_sorted(old(list)@),
    ensures
        strictly_sorted(final(list)@),
        final(list)@.contains(h),
        forall|x: u64| final(list)@.contains(x) <==> (old(list)@.contains(x) || x == h),
{
    let ghost before = list@;
    let pos = lower_bound(list, h);
    if pos < list.len() && list[pos] == h {
        assert(list@[pos as int] == h);
        assert(list@.contains(h));
    } else {
        list.insert(pos, h);
        assert(list@[pos as int] == h);
        assert forall|x: u64| list@.contains(x) <==> (before.contains(x) || x == h) by {
            if list@.contains(x) {
                let i = choose|i: int| 0 <= i < list@.len() && list@[i] == x;
                if i < pos {
                    assert(before[i] == x);
                } else if i > pos {
                    assert(before[i - 1] == x);
                }
            }
            if before.contains(x) {
                let i = choose|i: int| 0 <= i < before.len() && before[i] == x;
                if i < pos {
                    assert(list@[i] == x);
                } else {
                    assert(list@[i + 1] == x);
                }
            }
            if x == h {
                assert(list@[pos as int] == x);
            }
        }
    }
}

/// Takes `h` out of a strictly sorted list, if it is there.
fn remove_sorted(list: &mut Vec<u64>, h: u64)
    requires
        strictly_sorted(old(list)@),
    ensures
        strictly_sorted(final(list)@),
        forall|x: u64| final(list)@.contains(x) <==> (old(list)@.contains(x) && x != h),
{
    let ghost before = list@;
    let pos = lower_bound(list, h);
    if pos < list.len() && list[pos] == h {
        list.remove(pos);
        assert forall|x: u64| list@.contains(x) <==> (before.contains(x) && x != h) by {
            if list@.contains(x) {
                let i = choose|i: int| 0 <= i < list@.len() && list@[i] == x;
                if i < pos {
                    assert(before[i] == x);
                } else {
                    assert(before[i + 1] == x);
                }
            }
            if before.contains(x) && x != h {
                let i = choose|i: int| 0 <= i < before.len() && before[i] == x;
                if i < pos {
                    assert(list@[i] == x);
                } else {
                    assert(i != pos);
                    assert(list@[i - 1] == x);
                }
            }
        }
    } else {
        assert forall|x: u64| before.contains(x) implies x != h by {
            let i = choose|i: int| 0 <= i < before.len() && before[i] == x;
        }
    }
}

/// The mask for tail length `t`.
fn mask_for(t: usize) -> (r: u64)
    requires
        1 <= t <= 7,
    ensures
        r == mask(t as nat),
{
    if t == 1 {
        0xffff_ffff_ffff_ff80
    } else if t == 2 {
        0xffff_ffff_ffff_8080
    } else if t == 3 {
        0xffff_ffff_ff80_8080
    } else if t == 4 {
        0xffff_ffff_8080_8080
    } else if t == 5 {
        0xffff_ff80_8080_8080
    } else if t == 6 {
        0xffff_8080_8080_8080
    } else {
        0xff80_8080_8080_8080
    }
}

/// A bucket key.
#[derive(Clone, Copy)]
struct KeyHash(u64);

impl KeyHash {
    /// The seven bucket keys of a target hash, for tail lengths 1 to 7.
    fn from_hash(hash: u64) -> (r: [KeyHash; 7])
        ensures
            forall|i: int| 0 <= i < 7 ==> (#[trigger] r@[i]).0 == bucket_of(hash, (i + 1) as nat),
    {
        let part = mmh64a_undo_end(hash);
        let mut keys: [KeyHash; 7] = [KeyHash(0); 7];
        let mut i: usize = 0;
        while i < 7
            invariant
                i <= 7,
                part == undo_end(hash),
                forall|j: int| 0 <= j < i ==> (#[trigger] keys@[j]).0 == bucket_of(hash, (j + 1) as nat),
            decreases 7 - i,
        {
            keys[i] = KeyHash((part & mask_for(i + 1)) | (i as u64 + 1));
            i = i + 1;
        }
        keys
    }

    /// The seven accumulator states of `prefix`, each with the bucket key it
    /// is looked up under, for tail lengths 1 to 7.
    fn from_prefix(prefix: &[u8]) -> (r: [(u64, KeyHash); 7])
        ensures
            forall|i: int|
                0 <= i < 7 ==> (#[trigger] r@[i]).0 == prefix_state(prefix@, (i + 1) as nat) && r@[i].1.0
                    == bucket_key(r@[i].0, (i + 1) as nat),
    {
        let parts = mmh64a_prefix7(prefix);
        let mut keys: [(u64, KeyHash); 7] = [(0, KeyHash(0)); 7];
        let mut i: usize = 0;
        while i < 7
            invariant
                i <= 7,
                forall|j: int| 0 <= j < 7 ==> parts@[j] == prefix_state(prefix@, (j + 1) as nat),
                forall|j: int|
                    0 <= j < i ==> (#[trigger] keys@[j]).0 == prefix_state(prefix@, (j + 1) as nat)
                        && keys@[j].1.0 == bucket_key(keys@[j].0, (j + 1) as nat),
            decreases 7 - i,
        {
            let part = parts[i];
            keys[i] = (part, KeyHash((part & mask_for(i + 1)) | (i as u64 + 1)));
            i = i + 1;
        }
        keys
    }
}


/// The neighbour index: for each bucket key, the strictly ascending list of
/// the target hashes filed under it.
pub struct KeyLookup {
    buckets: HashMap<u64, Vec<u64>>,
    targets: Ghost<Set<u64>>,
}

impl KeyLookup {
    /// The target hashes that the index holds.
    pub closed spec fn targets(&self) -> Set<u64> {
        self.targets@
    }

    /// The list under bucket key `key`; empty where there is none.
    pub closed spec fn bucket(&self, key: u64) -> Seq<u64> {
        if self.buckets@.contains_key(key) {
            self.buckets@[key]@
        } else {
            seq![]
        }
    }

    /// Each list is strictly ascending and holds exactly the targets filed
    /// under its key; every target is filed under its seven keys.
    pub closed spec fn well_formed(&self) -> bool {
        &&& self.targets@.finite()
        &&& forall|k: u64| #[trigger] self.buckets@.contains_key(k) ==> strictly_sorted(self.buckets@[k]@)
        &&& forall|k: u64, x: u64| #[trigger] self.bucket(k).contains(x) ==> self.targets@.contains(x) && files_under(x, k)
        &&& forall|x: u64, t: nat|
            self.targets@.contains(x) && 1 <= t <= 7 ==> #[trigger] self.bucket(bucket_of(x, t)).contains(x)
    }

    /// Takes the list under `key` out of the map, or an empty one.
    fn take_bucket(&mut self, key: u64) -> (r: Vec<u64>)
        ensures
            r@ == old(self).bucket(key),
            final(self).buckets@ == old(self).buckets@.remove(key),
            final(self).targets == old(self).targets,
    {
        match self.buckets.remove(&key) {
            Some(list) => list,
            None => Vec::new(),
        }
    }

    /// Adds `hash` to the index.
    fn add(&mut self, hash: u64)
        requires
            old(self).well_formed(),
        ensures
            final(self).well_formed(),
            final(self).targets() == old(self).targets().insert(hash),
    {
        let ghost before = self.targets@;
        let ghost s0 = *self;
        self.targets = Ghost(before.insert(hash));
        proof {
            assert forall|k: u64| #[trigger] self.bucket(k) == s0.bucket(k) by {}
            assert forall|k: u64, x: u64| #[trigger] self.bucket(k).contains(x) implies self.targets@.contains(x) && files_under(x, k) by {
                assert(s0.bucket(k).contains(x));
            }
            assert forall|x: u64, t: nat|
                before.contains(x) && 1 <= t <= 7 implies #[trigger] self.bucket(bucket_of(x, t)).contains(x) by {
                assert(s0.bucket(bucket_of(x, t)).contains(x));
            }
        }
        let keys = KeyHash::from_hash(hash);
        let mut i: usize = 0;
        while i < 7
            invariant
                i <= 7,
                self.targets@ == before.insert(hash),
                before.finite(),
                forall|j: int| 0 <= j < 7 ==> (#[trigger] keys@[j]).0 == bucket_of(hash, (j + 1) as nat),
                forall|k: u64| #[trigger] self.buckets@.contains_key(k) ==> strictly_sorted(self.buckets@[k]@),
                forall|k: u64, x: u64| #[trigger] self.bucket(k).contains(x) ==> self.targets@.contains(x) && files_under(x, k),
                forall|x: u64, t: nat|
                    before.contains(x) && 1 <= t <= 7 ==> #[trigger] self.bucket(bucket_of(x, t)).contains(x),
                forall|t: nat| 1 <= t <= i ==> #[trigger] self.bucket(bucket_of(hash, t)).contains(hash),
            decreases 7 - i,
        {
            let key = keys[i].0;
            let ghost old_self = *self;
            let mut list = self.take_bucket(key);
            proof {
                assert(strictly_sorted(list@)) by {
                    if old_self.buckets@.contains_key(key) {
                    }
                }
            }
            insert_sorted(&mut list, hash);
            self.buckets.insert(key, list);
            proof {
                lemma_bucket_tag(undo_end(hash), (i + 1) as nat);
                assert forall|k: u64| #[trigger] self.bucket(k) == if k == key { list@ } else { old_self.bucket(k) } by {}
                assert forall|k: u64, x: u64| #[trigger] self.bucket(k).contains(x) implies self.targets@.contains(x) && files_under(x, k) by {
                    if k == key && x == hash {
                    } else if k == key {
                        assert(old_self.bucket(k).contains(x));
                    } else {
                        assert(old_self.bucket(k).contains(x));
                    }
                }
                assert forall|x: u64, t: nat|
                    before.contains(x) && 1 <= t <= 7 implies #[trigger] self.bucket(bucket_of(x, t)).contains(x) by {
                    assert(old_self.bucket(bucket_of(x, t)).contains(x));
                }
                assert forall|t: nat| 1 <= t <= i + 1 implies #[trigger] self.bucket(bucket_of(hash, t)).contains(hash) by {
                    if t <= i {
                        assert(old_self.bucket(bucket_of(hash, t)).contains(hash));
                    }
                }
            }
            i = i + 1;
        }
    }

    /// The index of the target hashes `hashes`.
    pub fn new(hashes: &[u64]) -> (r: Self)
        ensures
            r.well_formed(),
            r.targets() == hashes@.to_set(),
    {
        let mut lookup = KeyLookup { buckets: HashMap::new(), targets: Ghost(Set::empty()) };
        proof {
            assert forall|k: u64, x: u64| #[trigger] lookup.bucket(k).contains(x) implies false by {}
        }
        let mut i: usize = 0;
        while i < hashes.len()
            invariant
                i <= hashes@.len(),
                lookup.well_formed(),
                lookup.targets() == hashes@.take(i as int).to_set(),
            decreases hashes@.len() - i,
        {
            lookup.add(hashes[i]);
            proof {
                assert(hashes@.take(i + 1) =~= hashes@.take(i as int).push(hashes@[i as int]));
                hashes@.take(i as int).lemma_push_to_set_commute(hashes@[i as int]);
            }
            i = i + 1;
        }
        assert(hashes@.take(hashes@.len() as int) =~= hashes@);
        lookup
    }

    /// Takes `hash` out of every bucket; nothing changes where it is not a target.
    pub fn remove(&mut self, hash: u64)
        requires
            old(self).well_formed(),
        ensures
            final(self).well_formed(),
            final(self).targets() == old(self).targets().remove(hash),
    {
        let ghost before = self.targets@;
        let keys = KeyHash::from_hash(hash);
        let mut i: usize = 0;
        while i < 7
            invariant
                i <= 7,
                self.targets@ == before,
                before.finite(),
                forall|j: int| 0 <= j < 7 ==> (#[trigger] keys@[j]).0 == bucket_of(hash, (j + 1) as nat),
                forall|k: u64| #[trigger] self.buckets@.contains_key(k) ==> strictly_sorted(self.buckets@[k]@),
                forall|k: u64, x: u64| #[trigger] self.bucket(k).contains(x) ==> before.contains(x) && files_under(x, k),
                forall|x: u64, t: nat|
                    before.contains(x) && x != hash && 1 <= t <= 7 ==> #[trigger] self.bucket(bucket_of(x, t)).contains(x),
                forall|t: nat| 1 <= t <= i ==> !(#[trigger] self.bucket(bucket_of(hash, t)).contains(hash)),
            decreases 7 - i,
        {
            let key = keys[i].0;
            let ghost old_self = *self;
            let mut list = self.take_bucket(key);
            proof {
                assert(strictly_sorted(list@)) by {
                    if old_self.buckets@.contains_key(key) {
                    }
                }
            }
            remove_sorted(&mut list, hash);
            self.buckets.insert(key, list);
            proof {
                lemma_bucket_tag(undo_end(hash), (i + 1) as nat);
                assert forall|k: u64| #[trigger] self.bucket(k) == if k == key { list@ } else { old_self.bucket(k) } by {}
                assert forall|k: u64, x: u64| #[trigger] self.bucket(k).contains(x) implies before.contains(x) && files_under(x, k) by {
                    assert(old_self.bucket(k).contains(x));
                }
                assert forall|x: u64, t: nat|
                    before.contains(x) && x != hash && 1 <= t <= 7 implies #[trigger] self.bucket(bucket_of(x, t)).contains(x) by {
                    assert(old_self.bucket(bucket_of(x, t)).contains(x));
                }
                assert forall|t: nat| 1 <= t <= i + 1 implies !(#[trigger] self.bucket(bucket_of(hash, t)).contains(hash)) by {
                    if t <= i && bucket_of(hash, t) != key {
                        assert(!old_self.bucket(bucket_of(hash, t)).contains(hash));
                    }
                }
            }
            i = i + 1;
        }
        let ghost s1 = *self;
        self.targets = Ghost(before.remove(hash));
        proof {
            assert forall|k: u64| #[trigger] self.bucket(k) == s1.bucket(k) by {}
            assert forall|k: u64, x: u64| #[trigger] self.bucket(k).contains(x) implies self.targets@.contains(x) && files_under(x, k) by {
                assert(s1.bucket(k).contains(x));
                if x == hash {
                    let t = (k & 7u64) as nat;
                    assert(!s1.bucket(bucket_of(hash, t)).contains(hash));
                }
            }
            assert forall|x: u64, t: nat|
                self.targets@.contains(x) && 1 <= t <= 7 implies #[trigger] self.bucket(bucket_of(x, t)).contains(x) by {
                assert(s1.bucket(bucket_of(x, t)).contains(x));
            }
        }
    }

    /// The answers of the bucket for tail length `t` when `p` is queried:
    /// each hash of the bucket with the low `t` bytes of its tail word.
    pub closed spec fn group(&self, p: Seq<u8>, t: nat) -> Seq<(u64, Seq<u8>)> {
        let state = prefix_state(p, t);
        self.bucket(bucket_key(state, t)).map_values(
            |h: u64| (h, low_bytes(undo_end(h) ^ state, t)),
        )
    }

    /// The answers for `p` over the tail lengths 1 to `n`, shorter tails first.
    pub closed spec fn neighbors_upto(&self, p: Seq<u8>, n: nat) -> Seq<(u64, Seq<u8>)>
        decreases n,
    {
        if n == 0 {
            seq![]
        } else {
            self.neighbors_upto(p, (n - 1) as nat) + self.group(p, n)
        }
    }

    /// Every target hash that may share the whole blocks of `prefix`, with
    /// the tail that such a key would have: tail lengths 1 to 7 in order, and
    /// ascending hashes within one length.
    pub fn find_neighbors(&self, prefix: &[u8]) -> (r: Vec<(u64, KeyTail)>)
        requires
            self.well_formed(),
        ensures
            answers(r@) == self.neighbors_upto(prefix@, 7),
    {
        let parts = KeyHash::from_prefix(prefix);
        let mut out: Vec<(u64, KeyTail)> = Vec::new();
        let mut i: usize = 0;
        while i < 7
            invariant
                i <= 7,
                forall|j: int|
                    0 <= j < 7 ==> (#[trigger] parts@[j]).0 == prefix_state(prefix@, (j + 1) as nat)
                        && parts@[j].1.0 == bucket_key(parts@[j].0, (j + 1) as nat),
                answers(out@) == self.neighbors_upto(prefix@, i as nat),
            decreases 7 - i,
        {
            let part = parts[i].0;
            let key = parts[i].1.0;
            let ghost base = answers(out@);
            let ghost grp = self.group(prefix@, (i + 1) as nat);
            match self.buckets.get(&key) {
                Some(list) => {
                    let mut j: usize = 0;
                    while j < list.len()
                        invariant
                            j <= list@.len(),
                            list@ == self.bucket(key),
                            grp.len() == list@.len(),
                            i < 7,
                            forall|m: int| 0 <= m < list@.len() ==> #[trigger] grp[m] == (list@[m], low_bytes(undo_end(list@[m]) ^ part, (i + 1) as nat)),
                            answers(out@) == base + grp.take(j as int),
                        decreases list@.len() - j,
                    {
                        let h = list[j];
                        let tail = KeyTail::new(mmh64a_undo_end(h) ^ part, i + 1);
                        let ghost prev = out@;
                        out.push((h, tail));
                        proof {
                            assert(grp.take(j + 1) =~= grp.take(j as int).push(grp[j as int]));
                            assert(answers(out@) =~= answers(prev).push((h, tail@)));
                        }
                        j = j + 1;
                    }
                    proof {
                        assert(grp.take(j as int) =~= grp);
                    }
                },
                None => {
                    proof {
                        assert(grp =~= seq![]);
                        assert(base + grp =~= base);
                    }
                },
            }
            i = i + 1;
        }
        out
    }
}

/// What `find_neighbors` reports is sound: each hash is a target, and the
/// key made of the whole blocks of the prefix and the reported tail (one to
/// seven bytes, each below 128) hashes to it.
pub proof fn lemma_neighbors_sound(index: &KeyLookup, p: Seq<u8>, i: int)
    requires
        index.well_formed(),
        0 <= i < index.neighbors_upto(p, 7).len(),
    ensures
        ({
            let (h, tail) = index.neighbors_upto(p, 7)[i];
            &&& index.targets().contains(h)
            &&& 1 <= tail.len() <= 7
            &&& is_ascii_bytes(tail)
            &&& murmur64a(p.take(aligned_len(p.len()) as int) + tail) == h
        }),
{
    let (t, m) = lemma_neighbors_member(index, p, 7, i);
    let state = prefix_state(p, t);
    let key = bucket_key(state, t);
    let h = index.bucket(key)[m];
    assert(index.bucket(key).contains(h));
    lemma_bucket_tag(state, t);
    lemma_mask_step(t);
    let u = undo_end(h);
    let mk = mask(t);
    let tt = t as u64;
    assert((u ^ state) & mk == 0) by (bit_vector)
        requires
            (u & mk) | tt == (state & mk) | tt,
            mk & 0x7fu64 == 0,
            tt <= 7,
    ;
    lemma_word_to_bytes(u ^ state, t);
    let tail = low_bytes(u ^ state, t);
    let q = p.take(aligned_len(p.len()) as int);
    lemma_prefix_aligned(p);
    lemma_prefix_state_tail(q, tail);
    assert(prefix_state(q, t) == prefix_state(p, t));
    assert(index.neighbors_upto(p, 7)[i] == (h, tail));
    let lw = le_word(tail);
    assert(state ^ lw == u) by (bit_vector)
        requires
            lw == u ^ state,
    ;
    lemma_end_mix_bijection(0, h);
}

/// Every target that is the hash of the prefix's whole blocks followed by a
/// tail of one to seven bytes below 128 is reported, with that tail.
pub proof fn lemma_neighbors_complete(index: &KeyLookup, p: Seq<u8>, tail: Seq<u8>)
    requires
        index.well_formed(),
        p.len() % 8 == 0,
        1 <= tail.len() <= 7,
        is_ascii_bytes(tail),
        index.targets().contains(murmur64a(p + tail)),
    ensures
        index.neighbors_upto(p, 7).contains((murmur64a(p + tail), tail)),
{
    let h = murmur64a(p + tail);
    let t = tail.len();
    let state = prefix_state(p, t);
    let w = le_word(tail);
    lemma_prefix_state_tail(p, tail);
    lemma_end_mix_bijection(state ^ w, h);
    lemma_bytes_to_word(tail);
    let mk = mask(t);
    let u = undo_end(h);
    assert(u & mk == state & mk && u ^ state == w) by (bit_vector)
        requires
            u == state ^ w,
            w & mk == 0,
    ;
    assert(bucket_of(h, t) == bucket_key(state, t));
    let list = index.bucket(bucket_key(state, t));
    assert(list.contains(h));
    let m = choose|m: int| 0 <= m < list.len() && list[m] == h;
    assert(index.group(p, t)[m] == (h, tail));
    lemma_group_in_neighbors(index, p, t, 7, m);
}

/// The index holds finitely many targets.
pub proof fn lemma_targets_finite(index: &KeyLookup)
    requires
        index.well_formed(),
    ensures
        index.targets().finite(),
{
}

/// Once `hash` is taken out of the index, no query reports it.
pub proof fn lemma_removed_not_found(index: &KeyLookup, hash: u64, p: Seq<u8>, i: int)
    requires
        index.well_formed(),
        !index.targets().contains(hash),
        0 <= i < index.neighbors_upto(p, 7).len(),
    ensures
        index.neighbors_upto(p, 7)[i].0 != hash,
{
    lemma_neighbors_sound(index, p, i);
}

proof fn lemma_prefix_aligned(p: Seq<u8>)
    ensures
        ({
            let q = p.take(aligned_len(p.len()) as int);
            &&& q.len() % 8 == 0
            &&& forall|t: nat| prefix_state(q, t) == #[trigger] prefix_state(p, t)
        }),
{
    let q = p.take(aligned_len(p.len()) as int);
    assert(q.len() % 8 == 0 && aligned_len(q.len()) == q.len()) by (nonlinear_arith)
        requires
            q.len() == p.len() - p.len() % 8,
    ;
    let rest = p.skip(aligned_len(p.len()) as int);
    assert(q + rest =~= p);
    assert forall|t: nat| prefix_state(q, t) == #[trigger] prefix_state(p, t) by {
        crate::hash::lemma_absorb_ignores_tail(
            ((aligned_len(p.len()) + t) as u64).wrapping_mul(MAGIC),
            q,
            rest,
        );
    }
}

/// Locates answer `i` in the bucket of its tail length.
proof fn lemma_neighbors_member(index: &KeyLookup, p: Seq<u8>, n: nat, i: int) -> (r: (nat, int))
    requires
        0 <= i < index.neighbors_upto(p, n).len(),
    ensures
        1 <= r.0 <= n,
        0 <= r.1 < index.group(p, r.0).len(),
        i == index.neighbors_upto(p, (r.0 - 1) as nat).len() + r.1,
        index.neighbors_upto(p, n)[i] == index.group(p, r.0)[r.1],
    decreases n,
{
    let prev = index.neighbors_upto(p, (n - 1) as nat);
    if i < prev.len() {
        lemma_neighbors_member(index, p, (n - 1) as nat, i)
    } else {
        (n, i - prev.len())
    }
}

proof fn lemma_neighbors_len_grows(index: &KeyLookup, p: Seq<u8>, a: nat, b: nat)
    requires
        a <= b,
    ensures
        index.neighbors_upto(p, a).len() <= index.neighbors_upto(p, b).len(),
    decreases b,
{
    if a < b {
        lemma_neighbors_len_grows(index, p, a, (b - 1) as nat);
    }
}

proof fn lemma_low_bytes_len(w: u64, n: nat)
    ensures
        low_bytes(w, n).len() == n,
    decreases n,
{
    if n > 0 {
        lemma_low_bytes_len(w >> 8u64, (n - 1) as nat);
    }
}

/// The answers of `find_neighbors` come by tail length, shorter first, and
/// by ascending hash within one length; so no hash comes twice for a length.
pub proof fn lemma_neighbors_ordered(index: &KeyLookup, p: Seq<u8>, a: int, b: int)
    requires
        index.well_formed(),
        0 <= a < b < index.neighbors_upto(p, 7).len(),
    ensures
        ({
            let ns = index.neighbors_upto(p, 7);
            ||| ns[a].1.len() < ns[b].1.len()
            ||| (ns[a].1.len() == ns[b].1.len() && ns[a].0 < ns[b].0)
        }),
{
    let (ta, ma) = lemma_neighbors_member(index, p, 7, a);
    let (tb, mb) = lemma_neighbors_member(index, p, 7, b);
    lemma_low_bytes_len(undo_end(index.group(p, ta)[ma].0) ^ prefix_state(p, ta), ta);
    lemma_low_bytes_len(undo_end(index.group(p, tb)[mb].0) ^ prefix_state(p, tb), tb);
    if ta > tb {
        lemma_neighbors_len_grows(index, p, tb, (ta - 1) as nat);
        assert(index.neighbors_upto(p, tb).len() == index.neighbors_upto(p, (tb - 1) as nat).len()
            + index.group(p, tb).len());
    } else if ta == tb {
        let key = bucket_key(prefix_state(p, ta), ta);
        if index.buckets@.contains_key(key) {
            assert(strictly_sorted(index.buckets@[key]@));
        }
        assert(index.group(p, ta)[ma].0 == index.bucket(key)[ma]);
        assert(index.group(p, tb)[mb].0 == index.bucket(key)[mb]);
    }
}

/// Answer `m` of the bucket for tail length `t` is among the answers.
proof fn lemma_group_in_neighbors(index: &KeyLookup, p: Seq<u8>, t: nat, n: nat, m: int)
    requires
        1 <= t <= n,
        0 <= m < index.group(p, t).len(),
    ensures
        index.neighbors_upto(p, n).contains(index.group(p, t)[m]),
    decreases n,
{
    let prev = index.neighbors_upto(p, (n - 1) as nat);
    let all = index.neighbors_upto(p, n);
    if t == n {
        assert(all[prev.len() + m] == index.group(p, t)[m]);
    } else {
        lemma_group_in_neighbors(index, p, t, (n - 1) as nat, m);
        let k = choose|k: int| 0 <= k < prev.len() && prev[k] == index.group(p, t)[m];
        assert(all[k] == prev[k]);
    }
}

} // verus!
