//! The trigram filter: a table over the trigrams of the key alphabet that
//! records which of them occur in known keys, and scores candidate tails.
use vstd::prelude::*;
use vstd::slice::slice_subrange;
use vstd::string::StringSliceAdditionalSpecFns;

verus! {

/// Number of symbols in the key alphabet `/`, `0`-`9`, `_`, `a`-`z`.
pub const RANGE: u16 = 38;

/// Number of slots in the filter table.
pub const SLOTS: usize = 0x10000;

/// The slot that every trigram with a byte outside the alphabet maps to.
pub const INVALID_TRIGRAM: u16 = 0xffff;

/// Position of `b` in the alphabet `/0123456789_abcdefghijklmnopqrstuvwxyz`,
/// or 255 for a byte outside it.
pub open spec fn symbol(b: u8) -> u8 {
    if b == 47 {
        0
    } else if 48 <= b <= 57 {
        (b - 47) as u8
    } else if b == 95 {
        11
    } else if 97 <= b <= 122 {
        (b - 85) as u8
    } else {
        255
    }
}

pub open spec fn in_alphabet(b: u8) -> bool {
    symbol(b) != 255
}

pub open spec fn all_in_alphabet(s: Seq<u8>) -> bool {
    forall|i: int| 0 <= i < s.len() ==> in_alphabet(#[trigger] s[i])
}

/// The table slot of the trigram `(a, b, c)`.
pub open spec fn trigram_index(a: u8, b: u8, c: u8) -> int {
    if !in_alphabet(a) || !in_alphabet(b) || !in_alphabet(c) {
        INVALID_TRIGRAM as int
    } else {
        symbol(a) * RANGE * RANGE + symbol(b) * RANGE + symbol(c)
    }
}

/// The slot of the trigram that starts at position `j` of `s`.
pub open spec fn window_index(s: Seq<u8>, j: int) -> int {
    trigram_index(s[j], s[j + 1], s[j + 2])
}

/// Some trigram among the first `n` bytes of `s` has slot `i`.
pub open spec fn has_window_before(s: Seq<u8>, n: int, i: int) -> bool {
    exists|j: int| 0 <= j && j + 3 <= n && #[trigger] window_index(s, j) == i
}

/// Some key of `keys` lies in the alphabet and holds a trigram with slot `i`.
pub open spec fn seen_in(keys: Seq<&str>, i: int) -> bool {
    exists|k: int|
        0 <= k < keys.len() && all_in_alphabet(keys[k].spec_bytes()) && #[trigger] has_window_before(
            keys[k].spec_bytes(),
            keys[k].spec_bytes().len() as int,
            i,
        )
}

/// The table of a filter that has seen no key.
pub open spec fn fresh_slots() -> Seq<u8> {
    Seq::new(SLOTS as nat, |i: int| if i == INVALID_TRIGRAM as int { 255u8 } else { 1u8 })
}

/// Sum of the slots of every trigram of `tail`.
pub open spec fn window_score(slots: Seq<u8>, tail: Seq<u8>) -> int
    decreases tail.len(),
{
    if tail.len() < 3 {
        0
    } else {
        slots[window_index(tail, 0)] + window_score(slots, tail.drop_first())
    }
}

/// The count of unknown trigrams of `tail` after a prefix that ends in
/// `prefix_end` (its last byte first): the two that straddle the boundary,
/// then those of the tail itself.
pub open spec fn unknown_count(slots: Seq<u8>, prefix_end: Seq<u8>, tail: Seq<u8>) -> int {
    slots[trigram_index(prefix_end[0], prefix_end[1], tail[0])] + (if tail.len() > 1 {
        slots[trigram_index(prefix_end[1], tail[0], tail[1])] as int
    } else {
        0
    }) + window_score(slots, tail)
}

/// Whether the filter admits `tail`.
pub open spec fn admits(slots: Seq<u8>, prefix_end: Seq<u8>, tail: Seq<u8>) -> bool {
    let unk = unknown_count(slots, prefix_end, tail);
    (1 <= tail.len() <= 5 && unk <= 4) || (6 <= tail.len() <= 7 && unk <= 3)
}

/// Position of `b` in the alphabet, or 255.
fn lookup(b: u8) -> (r: u8)
    ensures
        r == symbol(b),
{
    if b == 47 {
        0
    } else if 48 <= b && b <= 57 {
        b - 47
    } else if b == 95 {
        11
    } else if 97 <= b && b <= 122 {
        b - 85
    } else {
        255
    }
}

/// The table slot of the first three bytes of `trie`.
fn trie_to_index(trie: &[u8]) -> (r: u16)
    requires
        trie@.len() >= 3,
    ensures
        r as int == trigram_index(trie@[0], trie@[1], trie@[2]),
        r as int == INVALID_TRIGRAM as int || r < 54872,
{
    let a = lookup(trie[0]) as u16;
    let b = lookup(trie[1]) as u16;
    let c = lookup(trie[2]) as u16;
    if a == 0xff || b == 0xff || c == 0xff {
        return INVALID_TRIGRAM;
    }
    a * RANGE * RANGE + b * RANGE + c
}

/// Whether every byte of `key` lies in the key alphabet.
pub fn is_valid(key: &[u8]) -> (r: bool)
    ensures
        r == all_in_alphabet(key@),
{
    let mut i: usize = 0;
    while i < key.len()
        invariant
            i <= key@.len(),
            forall|j: int| 0 <= j < i ==> in_alphabet(#[trigger] key@[j]),
        decreases key@.len() - i,
    {
        if lookup(key[i]) == 0xff {
            return false;
        }
        i = i + 1;
    }
    true
}


/// A byte per trigram slot: 0 for a trigram seen in a known key, 1 for one
/// not seen yet, 255 in the slot of invalid trigrams.
pub struct FilterTrie {
    slots: Vec<u8>,
}

impl View for FilterTrie {
    type V = Seq<u8>;

    closed spec fn view(&self) -> Seq<u8> {
        self.slots@
    }
}

impl FilterTrie {
    /// The table has its full size, the invalid slot holds 255 and every
    /// other slot holds 0 or 1.
    pub open spec fn well_formed(&self) -> bool {
        &&& self@.len() == SLOTS
        &&& self@[INVALID_TRIGRAM as int] == 255
        &&& forall|i: int| 0 <= i < INVALID_TRIGRAM ==> #[trigger] self@[i] <= 1
    }

    /// A filter that has seen no key.
    pub fn new() -> (r: Self)
        ensures
            r.well_formed(),
            r@ == fresh_slots(),
    {
        let mut slots: Vec<u8> = Vec::new();
        let mut i: usize = 0;
        while i < SLOTS
            invariant
                i <= SLOTS,
                slots@.len() == i,
                forall|j: int| 0 <= j < i ==> #[trigger] slots@[j] == fresh_slots()[j],
            decreases SLOTS - i,
        {
            if i == INVALID_TRIGRAM as usize {
                slots.push(255);
            } else {
                slots.push(1);
            }
            i = i + 1;
        }
        let r = FilterTrie { slots };
        assert(r@ =~= fresh_slots());
        r
    }

    /// Marks every trigram of every key that lies in the alphabet as seen;
    /// keys with a byte outside the alphabet are skipped.
    pub fn add_keys(&mut self, keys: &[&str])
        requires
            old(self).well_formed(),
        ensures
            final(self).well_formed(),
            forall|i: int|
                0 <= i < SLOTS ==> #[trigger] final(self)@[i] == if seen_in(keys@, i) {
                    0
                } else {
                    old(self)@[i]
                },
    {
        let ghost old_slots = self@;
        let mut k: usize = 0;
        while k < keys.len()
            invariant
                k <= keys@.len(),
                self.well_formed(),
                forall|i: int|
                    0 <= i < SLOTS ==> #[trigger] self@[i] == if seen_in(keys@.take(k as int), i) {
                        0
                    } else {
                        old_slots[i]
                    },
            decreases keys@.len() - k,
        {
            let key: &[u8] = keys[k].as_bytes();
            let ghost before = self@;
            self.add_key(key);
            proof {
                assert forall|i: int| 0 <= i < SLOTS implies #[trigger] self@[i] == if seen_in(keys@.take(k + 1), i) {
                    0
                } else {
                    old_slots[i]
                } by {
                    lemma_seen_step(keys@, k as int, i);
                }
            }
            k = k + 1;
        }
        assert(keys@.take(keys@.len() as int) =~= keys@);
    }

    /// Marks every trigram of `key` as seen, if `key` lies in the alphabet.
    pub fn add_key(&mut self, key: &[u8])
        requires
            old(self).well_formed(),
        ensures
            final(self).well_formed(),
            forall|i: int|
                0 <= i < SLOTS ==> #[trigger] final(self)@[i] == if all_in_alphabet(key@)
                    && has_window_before(key@, key@.len() as int, i) {
                    0
                } else {
                    old(self)@[i]
                },
    {
        let ghost before = self@;
        if is_valid(key) {
            let mut j: usize = 0;
            while key.len() >= 3 && j <= key.len() - 3
                invariant
                    all_in_alphabet(key@),
                    self.well_formed(),
                    j + 2 <= key@.len() || j == 0,
                    forall|i: int|
                        0 <= i < SLOTS ==> #[trigger] self@[i] == if has_window_before(
                            key@,
                            j + 2,
                            i,
                        ) {
                            0
                        } else {
                            before[i]
                        },
                decreases key@.len() + 2 - j,
            {
                let idx = trie_to_index(slice_subrange(key, j, j + 3));
                proof {
                    assert(window_index(key@, j as int) == idx);
                    assert(idx != INVALID_TRIGRAM);
                }
                self.slots.set(idx as usize, 0);
                proof {
                    assert forall|i: int| 0 <= i < SLOTS implies #[trigger] self@[i] == if has_window_before(
                        key@,
                        j + 3,
                        i,
                    ) {
                        0
                    } else {
                        before[i]
                    } by {
                        if i == idx {
                            assert(window_index(key@, j as int) == i);
                        } else if has_window_before(key@, j + 3, i) {
                            let w = choose|w: int| 0 <= w && w + 3 <= j + 3 && #[trigger] window_index(key@, w) == i;
                            assert(w != j);
                            assert(has_window_before(key@, j + 2, i));
                        }
                    }
                }
                j = j + 1;
            }
            proof {
                assert forall|i: int| 0 <= i < SLOTS implies #[trigger] self@[i] == if has_window_before(key@, key@.len() as int, i) {
                    0
                } else {
                    before[i]
                } by {
                    if has_window_before(key@, j + 2, i) {
                        let w = choose|w: int| 0 <= w && w + 3 <= j + 2 && #[trigger] window_index(key@, w) == i;
                        assert(has_window_before(key@, key@.len() as int, i));
                    }
                    if has_window_before(key@, key@.len() as int, i) {
                        let w = choose|w: int| 0 <= w && w + 3 <= key@.len() && #[trigger] window_index(key@, w) == i;
                        assert(has_window_before(key@, j + 2, i));
                    }
                }
            }
        }
    }

    /// Whether `tail` is admitted after a prefix whose last two bytes are
    /// `prefix_end`, last byte first.
    pub fn check_trie(&self, prefix_end: [u8; 2], tail: &[u8]) -> (r: bool)
        requires
            self.well_formed(),
            tail@.len() >= 1,
        ensures
            r == admits(self@, prefix_end@, tail@),
    {
        if tail.len() > 7 {
            return false;
        }
        let mut unk: u32 = 0;
        let first = [prefix_end[0], prefix_end[1], tail[0]];
        let idx = trie_to_index(first.as_slice());
        unk = unk + self.slots[idx as usize] as u32;
        if tail.len() > 1 {
            let second = [prefix_end[1], tail[0], tail[1]];
            let idx = trie_to_index(second.as_slice());
            unk = unk + self.slots[idx as usize] as u32;
        }
        let ghost boundary = unk as int;
        assert(boundary == unknown_count(self@, prefix_end@, tail@) - window_score(self@, tail@));
        assert(tail@.skip(0) =~= tail@);
        let mut j: usize = 0;
        while j + 3 <= tail.len()
            invariant
                self.well_formed(),
                1 <= tail@.len() <= 7,
                j <= tail@.len(),
                unk as int + window_score(self@, tail@.skip(j as int)) == unknown_count(
                    self@,
                    prefix_end@,
                    tail@,
                ),
                unk <= 255 * (j + 2),
            decreases tail@.len() - j,
        {
            let idx = trie_to_index(slice_subrange(tail, j, j + 3));
            proof {
                let rest = tail@.skip(j as int);
                assert(rest.drop_first() =~= tail@.skip(j + 1));
                assert(window_index(rest, 0) == window_index(tail@, j as int));
            }
            unk = unk + self.slots[idx as usize] as u32;
            j = j + 1;
        }
        assert(window_score(self@, tail@.skip(j as int)) == 0);
        let len = tail.len();
        (1 <= len && len <= 5 && unk <= 4) || (6 <= len && len <= 7 && unk <= 3)
    }
}

proof fn lemma_seen_step(keys: Seq<&str>, k: int, i: int)
    requires
        0 <= k < keys.len(),
    ensures
        seen_in(keys.take(k + 1), i) == (seen_in(keys.take(k), i) || (all_in_alphabet(
            keys[k].spec_bytes(),
        ) && has_window_before(keys[k].spec_bytes(), keys[k].spec_bytes().len() as int, i))),
{
    let a = keys.take(k + 1);
    let b = keys.take(k);
    if seen_in(a, i) {
        let m = choose|m: int|
            0 <= m < a.len() && all_in_alphabet(a[m].spec_bytes()) && #[trigger] has_window_before(
                a[m].spec_bytes(),
                a[m].spec_bytes().len() as int,
                i,
            );
        if m < k {
            assert(b[m] == a[m]);
        }
    }
    if seen_in(b, i) {
        let m = choose|m: int|
            0 <= m < b.len() && all_in_alphabet(b[m].spec_bytes()) && #[trigger] has_window_before(
                b[m].spec_bytes(),
                b[m].spec_bytes().len() as int,
                i,
            );
        assert(a[m] == b[m]);
    }
    if all_in_alphabet(keys[k].spec_bytes()) && has_window_before(keys[k].spec_bytes(), keys[k].spec_bytes().len() as int, i) {
        assert(a[k] == keys[k]);
    }
}

} // verus!
