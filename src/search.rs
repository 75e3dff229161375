//! One round of the search: every key of the frontier is used as a prefix,
//! the neighbour index is queried with its whole blocks, and the tails that
//! the filter admits become candidate keys.
use crate::filter::{admits, all_in_alphabet, has_window_before, is_valid, FilterTrie, SLOTS};
use crate::hash::{aligned_len, murmur64a};
use crate::hash::mmh64a;
use crate::lookup::{answers, lemma_neighbors_sound, lemma_targets_finite, KeyLookup};
use vstd::prelude::*;
use vstd::slice::slice_subrange;

verus! {

/// No two entries of `v` hold the same bytes.
pub open spec fn distinct_keys(v: Seq<Vec<u8>>) -> bool {
    forall|i: int, j: int| 0 <= i < j < v.len() ==> v[i]@ != v[j]@
}

/// Some entry of `v` holds the bytes `c`.
pub open spec fn holds(v: Seq<Vec<u8>>, c: Seq<u8>) -> bool {
    exists|m: int| 0 <= m < v.len() && #[trigger] v[m]@ == c
}

/// The head of `k` made of whole eight-byte blocks.
pub open spec fn block_prefix(k: Seq<u8>) -> Seq<u8> {
    k.take(aligned_len(k.len()) as int)
}

/// The last two bytes of `p`, last byte first.
pub open spec fn block_end(p: Seq<u8>) -> Seq<u8> {
    seq![p[p.len() - 1], p[p.len() - 2]]
}

/// The key that answer `j` of a query with the blocks of `k` stands for.
pub open spec fn answer_key(index: KeyLookup, k: Seq<u8>, j: int) -> Seq<u8> {
    block_prefix(k) + index.neighbors_upto(block_prefix(k), 7)[j].1
}

/// Answer `j` of the query with the blocks of `k` exists (the blocks are at
/// least one) and is admitted by the filter (`admitted`), or else turned away
/// with a tail that lies in the alphabet (`!admitted`).
pub open spec fn answer_taken(
    slots: Seq<u8>,
    index: KeyLookup,
    k: Seq<u8>,
    j: int,
    admitted: bool,
) -> bool {
    let p = block_prefix(k);
    let ans = index.neighbors_upto(p, 7);
    &&& p.len() >= 8
    &&& 0 <= j < ans.len()
    &&& if admitted {
        admits(slots, block_end(p), ans[j].1)
    } else {
        !admits(slots, block_end(p), ans[j].1) && all_in_alphabet(ans[j].1)
    }
}

/// `c` is a key taken from the answers of the first `n` keys of `frontier`,
/// or from the first `m` answers of key `n`.
pub open spec fn round_part(
    slots: Seq<u8>,
    index: KeyLookup,
    frontier: Seq<Vec<u8>>,
    n: int,
    m: int,
    admitted: bool,
    c: Seq<u8>,
) -> bool {
    ||| exists|k: int, j: int|
        0 <= k < n && #[trigger] answer_taken(slots, index, frontier[k]@, j, admitted)
            && answer_key(index, frontier[k]@, j) == c
    ||| exists|j: int|
        0 <= j < m && #[trigger] answer_taken(slots, index, frontier[n]@, j, admitted)
            && answer_key(index, frontier[n]@, j) == c
}

/// `c` is a key that one round over `frontier` takes: admitted by the filter
/// (`admitted`), or turned away with its tail in the alphabet (`!admitted`).
pub open spec fn round_keys(
    slots: Seq<u8>,
    index: KeyLookup,
    frontier: Seq<Vec<u8>>,
    admitted: bool,
    c: Seq<u8>,
) -> bool {
    round_part(slots, index, frontier, frontier.len() as int, 0, admitted, c)
}

/// Whether some entry of `v` holds the bytes `k`.
fn holds_key(v: &Vec<Vec<u8>>, k: &Vec<u8>) -> (r: bool)
    ensures
        r == holds(v@, k@),
{
    let mut i: usize = 0;
    while i < v.len()
        invariant
            i <= v@.len(),
            forall|j: int| 0 <= j < i ==> #[trigger] v@[j]@ != k@,
        decreases v@.len() - i,
    {
        if same_bytes(&v[i], k) {
            return true;
        }
        i = i + 1;
    }
    false
}

/// Adds `c` to `v` unless it is held: what `v` held stays held, `c` is held,
/// and no bytes are held twice.
fn push_new(v: &mut Vec<Vec<u8>>, c: Vec<u8>)
    requires
        distinct_keys(old(v)@),
    ensures
        distinct_keys(final(v)@),
        holds(final(v)@, c@),
        forall|x: Seq<u8>| #[trigger] holds(final(v)@, x) <==> (holds(old(v)@, x) || x == c@),
        final(v)@.len() >= old(v)@.len(),
        final(v)@.take(old(v)@.len() as int) == old(v)@,
        forall|i: int| old(v)@.len() <= i < final(v)@.len() ==> #[trigger] final(v)@[i]@ == c@,
{
    let ghost before = v@;
    if !holds_key(v, &c) {
        let ghost cv = c@;
        v.push(c);
        proof {
            assert(v@.take(before.len() as int) =~= before);
            assert(v@[before.len() as int]@ == cv);
            assert forall|a: int, b: int| 0 <= a < b < v@.len() implies v@[a]@ != v@[b]@ by {
                if b == before.len() {
                    assert(v@[a] == before[a]);
                }
            }
            assert forall|x: Seq<u8>| #[trigger] holds(v@, x) <==> (holds(before, x) || x == cv) by {
                if holds(v@, x) {
                    let m = choose|m: int| 0 <= m < v@.len() && #[trigger] v@[m]@ == x;
                    if m < before.len() {
                        assert(before[m]@ == x);
                    }
                }
                if holds(before, x) {
                    let m = choose|m: int| 0 <= m < before.len() && #[trigger] before[m]@ == x;
                    assert(v@[m]@ == x);
                }
            }
        }
    } else {
        assert(v@.take(before.len() as int) =~= before);
    }
}

/// Whether `a` and `b` hold the same bytes.
fn same_bytes(a: &Vec<u8>, b: &Vec<u8>) -> (r: bool)
    ensures
        r == (a@ == b@),
{
    if a.len() != b.len() {
        return false;
    }
    let mut i: usize = 0;
    while i < a.len()
        invariant
            i <= a@.len() == b@.len(),
            forall|j: int| 0 <= j < i ==> a@[j] == b@[j],
        decreases a@.len() - i,
    {
        if a[i] != b[i] {
            return false;
        }
        i = i + 1;
    }
    assert(a@ =~= b@);
    true
}

/// `prefix` followed by `tail`.
fn join(prefix: &[u8], tail: &[u8]) -> (r: Vec<u8>)
    ensures
        r@ == prefix@ + tail@,
{
    let mut out: Vec<u8> = Vec::new();
    let mut i: usize = 0;
    while i < prefix.len()
        invariant
            i <= prefix@.len(),
            out@ == prefix@.take(i as int),
        decreases prefix@.len() - i,
    {
        out.push(prefix[i]);
        i = i + 1;
        assert(out@ =~= prefix@.take(i as int));
    }
    let mut j: usize = 0;
    while j < tail.len()
        invariant
            j <= tail@.len(),
            out@ == prefix@ + tail@.take(j as int),
        decreases tail@.len() - j,
    {
        out.push(tail[j]);
        j = j + 1;
        assert(out@ =~= prefix@ + tail@.take(j as int));
    }
    assert(tail@.take(tail@.len() as int) =~= tail@);
    out
}

/// Queries the index with the whole blocks of each key of `frontier` (keys
/// shorter than one block are passed over) and adds each resulting key, the
/// blocks followed by a reported tail, that is not held yet: to `found` where
/// the filter admits its tail, else to `filtered` where the tail lies in the
/// alphabet. Every key added to `found` hashes to a target of the index.
pub fn expand(
    filter: &FilterTrie,
    index: &KeyLookup,
    frontier: &Vec<Vec<u8>>,
    found: &mut Vec<Vec<u8>>,
    filtered: &mut Vec<Vec<u8>>,
)
    requires
        filter.well_formed(),
        index.well_formed(),
        distinct_keys(old(found)@),
        distinct_keys(old(filtered)@),
    ensures
        distinct_keys(final(found)@),
        distinct_keys(final(filtered)@),
        final(found)@.len() >= old(found)@.len(),
        final(found)@.take(old(found)@.len() as int) == old(found)@,
        final(filtered)@.len() >= old(filtered)@.len(),
        final(filtered)@.take(old(filtered)@.len() as int) == old(filtered)@,
        forall|c: Seq<u8>|
            #[trigger] round_keys(filter@, *index, frontier@, true, c) ==> holds(final(found)@, c),
        forall|c: Seq<u8>|
            #[trigger] round_keys(filter@, *index, frontier@, false, c) ==> holds(final(filtered)@, c),
        forall|i: int|
            old(found)@.len() <= i < final(found)@.len() ==> round_keys(
                filter@,
                *index,
                frontier@,
                true,
                #[trigger] final(found)@[i]@,
            ),
        forall|i: int|
            old(filtered)@.len() <= i < final(filtered)@.len() ==> round_keys(
                filter@,
                *index,
                frontier@,
                false,
                #[trigger] final(filtered)@[i]@,
            ),
        forall|i: int|
            old(found)@.len() <= i < final(found)@.len() ==> index.targets().contains(
                murmur64a(#[trigger] final(found)@[i]@),
            ),
{
    let ghost found0 = found@;
    let ghost filtered0 = filtered@;
    let ghost slots = filter@;
    let ghost idx = *index;
    let ghost fr = frontier@;
    let mut k: usize = 0;
    while k < frontier.len()
        invariant
            k <= fr.len(),
            fr == frontier@,
            slots == filter@,
            idx == *index,
            filter.well_formed(),
            index.well_formed(),
            distinct_keys(found@),
            distinct_keys(filtered@),
            found@.len() >= found0.len(),
            found@.take(found0.len() as int) == found0,
            filtered@.len() >= filtered0.len(),
            filtered@.take(filtered0.len() as int) == filtered0,
            forall|i: int| found0.len() <= i < found@.len() ==> index.targets().contains(murmur64a(#[trigger] found@[i]@)),
            forall|i: int| found0.len() <= i < found@.len() ==> round_keys(slots, idx, fr, true, #[trigger] found@[i]@),
            forall|i: int| filtered0.len() <= i < filtered@.len() ==> round_keys(slots, idx, fr, false, #[trigger] filtered@[i]@),
            forall|c: Seq<u8>| #[trigger] round_part(slots, idx, fr, k as int, 0, true, c) ==> holds(found@, c),
            forall|c: Seq<u8>| #[trigger] round_part(slots, idx, fr, k as int, 0, false, c) ==> holds(filtered@, c),
        decreases fr.len() - k,
    {
        let key = frontier[k].as_slice();
        let len = key.len() - key.len() % 8;
        proof {
            assert(key@.take(len as int).len() == len);
            assert(block_prefix(key@) == key@.take(len as int));
        }
        if len >= 8 {
            let prefix = slice_subrange(key, 0, len);
            let prefix_end: [u8; 2] = [prefix[len - 1], prefix[len - 2]];
            proof {
                assert(aligned_len(prefix@.len()) == prefix@.len()) by (nonlinear_arith)
                    requires prefix@.len() == key@.len() - key@.len() % 8;
                assert(prefix@.take(prefix@.len() as int) =~= prefix@);
                assert(prefix@ =~= block_prefix(key@));
                assert(prefix_end@ =~= block_end(prefix@));
            }
            let answers_found = index.find_neighbors(prefix);
            let mut j: usize = 0;
            while j < answers_found.len()
                invariant
                    k < fr.len(),
                    fr == frontier@,
                    slots == filter@,
                    idx == *index,
                    key@ == fr[k as int]@,
                    prefix@ == block_prefix(key@),
                    prefix@.len() >= 8,
                    prefix_end@ == block_end(prefix@),
                    j <= answers_found@.len(),
                    filter.well_formed(),
                    index.well_formed(),
                    aligned_len(prefix@.len()) == prefix@.len(),
                    prefix@.take(prefix@.len() as int) == prefix@,
                    answers(answers_found@) == index.neighbors_upto(prefix@, 7),
                    distinct_keys(found@),
                    distinct_keys(filtered@),
                    found@.len() >= found0.len(),
                    found@.take(found0.len() as int) == found0,
                    filtered@.len() >= filtered0.len(),
                    filtered@.take(filtered0.len() as int) == filtered0,
                    forall|i: int| found0.len() <= i < found@.len() ==> index.targets().contains(murmur64a(#[trigger] found@[i]@)),
                    forall|i: int| found0.len() <= i < found@.len() ==> round_keys(slots, idx, fr, true, #[trigger] found@[i]@),
                    forall|i: int| filtered0.len() <= i < filtered@.len() ==> round_keys(slots, idx, fr, false, #[trigger] filtered@[i]@),
                    forall|c: Seq<u8>| #[trigger] round_part(slots, idx, fr, k as int, j as int, true, c) ==> holds(found@, c),
                    forall|c: Seq<u8>| #[trigger] round_part(slots, idx, fr, k as int, j as int, false, c) ==> holds(filtered@, c),
                decreases answers_found@.len() - j,
            {
                let tail = answers_found[j].1.as_bytes();
                let ghost found1 = found@;
                let ghost filtered1 = filtered@;
                proof {
                    lemma_neighbors_sound(index, prefix@, j as int);
                    assert(answers(answers_found@)[j as int] == (answers_found@[j as int].0, answers_found@[j as int].1@));
                }
                let admitted = filter.check_trie(prefix_end, tail);
                let valid = is_valid(tail);
                let ghost ck = prefix@ + tail@;
                proof {
                    assert(answer_key(idx, fr[k as int]@, j as int) == ck);
                    assert(answer_taken(slots, idx, fr[k as int]@, j as int, true) == admitted);
                    assert(answer_taken(slots, idx, fr[k as int]@, j as int, false) == (!admitted && valid));
                }
                if admitted {
                    let cand = join(prefix, tail);
                    push_new(found, cand);
                } else if valid {
                    let cand = join(prefix, tail);
                    push_new(filtered, cand);
                }
                proof {
                    assert forall|c: Seq<u8>| #[trigger] round_part(slots, idx, fr, k as int, j + 1, true, c) implies holds(found@, c) by {
                        if round_part(slots, idx, fr, k as int, j as int, true, c) {
                            assert(holds(found1, c));
                        } else {
                            let jj = choose|jj: int| 0 <= jj < j + 1 && #[trigger] answer_taken(slots, idx, fr[k as int]@, jj, true)
                                && answer_key(idx, fr[k as int]@, jj) == c;
                            if jj < j {
                                assert(round_part(slots, idx, fr, k as int, j as int, true, c));
                            }
                        }
                    }
                    assert forall|c: Seq<u8>| #[trigger] round_part(slots, idx, fr, k as int, j + 1, false, c) implies holds(filtered@, c) by {
                        if round_part(slots, idx, fr, k as int, j as int, false, c) {
                            assert(holds(filtered1, c));
                        } else {
                            let jj = choose|jj: int| 0 <= jj < j + 1 && #[trigger] answer_taken(slots, idx, fr[k as int]@, jj, false)
                                && answer_key(idx, fr[k as int]@, jj) == c;
                            if jj < j {
                                assert(round_part(slots, idx, fr, k as int, j as int, false, c));
                            }
                        }
                    }
                    assert forall|i: int| found0.len() <= i < found@.len() implies round_keys(slots, idx, fr, true, #[trigger] found@[i]@) by {
                        if i >= found1.len() {
                            assert(answer_taken(slots, idx, fr[k as int]@, j as int, true));
                        } else {
                            assert(found@[i] == found1[i]);
                        }
                    }
                    assert forall|i: int| filtered0.len() <= i < filtered@.len() implies round_keys(slots, idx, fr, false, #[trigger] filtered@[i]@) by {
                        if i >= filtered1.len() {
                            assert(answer_taken(slots, idx, fr[k as int]@, j as int, false));
                        } else {
                            assert(filtered@[i] == filtered1[i]);
                        }
                    }
                    assert forall|i: int| found0.len() <= i < found@.len() implies index.targets().contains(murmur64a(#[trigger] found@[i]@)) by {
                        if i < found1.len() {
                            assert(found@[i] == found1[i]);
                        }
                    }
                    assert(found@.take(found0.len() as int) =~= found1.take(found0.len() as int));
                    assert(filtered@.take(filtered0.len() as int) =~= filtered1.take(filtered0.len() as int));
                }
                j = j + 1;
            }
            proof {
                lemma_part_next(slots, idx, fr, k as int, answers_found@.len() as int, true);
                lemma_part_next(slots, idx, fr, k as int, answers_found@.len() as int, false);
            }
        } else {
            proof {
                lemma_part_next(slots, idx, fr, k as int, 0, true);
                lemma_part_next(slots, idx, fr, k as int, 0, false);
            }
        }
        k = k + 1;
    }
}

/// Once the answers of key `k` are used up, what was taken so far is what
/// the first `k + 1` keys give.
proof fn lemma_part_next(
    slots: Seq<u8>,
    index: KeyLookup,
    frontier: Seq<Vec<u8>>,
    k: int,
    m: int,
    admitted: bool,
)
    requires
        0 <= k < frontier.len(),
        forall|j: int| m <= j ==> !#[trigger] answer_taken(slots, index, frontier[k]@, j, admitted),
    ensures
        forall|c: Seq<u8>|
            #[trigger] round_part(slots, index, frontier, k + 1, 0, admitted, c) ==> round_part(
                slots,
                index,
                frontier,
                k,
                m,
                admitted,
                c,
            ),
{
    assert forall|c: Seq<u8>| #[trigger] round_part(slots, index, frontier, k + 1, 0, admitted, c) implies round_part(slots, index, frontier, k, m, admitted, c) by {
        let (kk, jj) = choose|kk: int, jj: int| 0 <= kk < k + 1 && #[trigger] answer_taken(slots, index, frontier[kk]@, jj, admitted)
            && answer_key(index, frontier[kk]@, jj) == c;
        if kk < k {
        } else {
            assert(jj < m);
        }
    }
}

/// The hashes of the keys held in `v`.
pub open spec fn hashes_of(v: Seq<Vec<u8>>) -> Set<u64> {
    Set::new(|h: u64| exists|x: Seq<u8>| #[trigger] holds(v, x) && murmur64a(x) == h)
}

/// Some key held in `v` lies in the alphabet and has a trigram with slot `i`.
pub open spec fn marked(v: Seq<Vec<u8>>, i: int) -> bool {
    exists|x: Seq<u8>|
        #[trigger] holds(v, x) && all_in_alphabet(x) && has_window_before(x, x.len() as int, i)
}

proof fn lemma_holds_extend(a: Seq<Vec<u8>>, b: Seq<Vec<u8>>)
    requires
        b.len() >= a.len(),
        b.take(a.len() as int) == a,
    ensures
        forall|c: Seq<u8>| #[trigger] holds(a, c) ==> holds(b, c),
{
    assert forall|c: Seq<u8>| #[trigger] holds(a, c) implies holds(b, c) by {
        let m = choose|m: int| 0 <= m < a.len() && #[trigger] a[m]@ == c;
        assert(b.take(a.len() as int)[m] == b[m]);
        assert(b[m]@ == c);
    }
}

proof fn lemma_holds_take_next(v: Seq<Vec<u8>>, i: int)
    requires
        0 <= i < v.len(),
    ensures
        forall|c: Seq<u8>|
            #[trigger] holds(v.take(i + 1), c) <==> (holds(v.take(i), c) || c == v[i]@),
{
    assert forall|c: Seq<u8>| #[trigger] holds(v.take(i + 1), c) <==> (holds(v.take(i), c) || c == v[i]@) by {
        if holds(v.take(i + 1), c) {
            let m = choose|m: int| 0 <= m < i + 1 && #[trigger] v.take(i + 1)[m]@ == c;
            if m < i {
                assert(v.take(i)[m] == v[m]);
            }
        }
        if holds(v.take(i), c) {
            let m = choose|m: int| 0 <= m < i && #[trigger] v.take(i)[m]@ == c;
            assert(v.take(i + 1)[m] == v[m]);
        }
        if c == v[i]@ {
            assert(v.take(i + 1)[i] == v[i]);
        }
    }
}

/// The entries of `v` whose bytes `remove` does not hold.
fn without(v: &Vec<Vec<u8>>, remove: &Vec<Vec<u8>>) -> (r: Vec<Vec<u8>>)
    requires
        distinct_keys(v@),
    ensures
        distinct_keys(r@),
        forall|x: Seq<u8>| #[trigger] holds(r@, x) <==> (holds(v@, x) && !holds(remove@, x)),
{
    let mut out: Vec<Vec<u8>> = Vec::new();
    let mut i: usize = 0;
    while i < v.len()
        invariant
            i <= v@.len(),
            distinct_keys(out@),
            forall|x: Seq<u8>| #[trigger] holds(out@, x) <==> (holds(v@.take(i as int), x) && !holds(remove@, x)),
        decreases v@.len() - i,
    {
        proof {
            lemma_holds_take_next(v@, i as int);
        }
        let key = v[i].clone();
        assert(key@ == v@[i as int]@);
        if !holds_key(remove, &key) {
            push_new(&mut out, key);
        }
        i = i + 1;
    }
    assert(v@.take(v@.len() as int) =~= v@);
    out
}

/// Runs rounds until one finds no new key. The first round starts from
/// `known`; each later one from the keys found in the round before, after
/// they were added to `filter` and their hashes taken out of `index`.
/// Returns the keys found and the keys that the filter turned away, less
/// those found. Every key of the first round is among them; each found key
/// hashes to a target that the index held at the start; the index ends
/// without the hashes of the found keys, and the filter with their trigrams.
pub fn recover(filter: &mut FilterTrie, index: &mut KeyLookup, known: Vec<Vec<u8>>) -> (r: (
    Vec<Vec<u8>>,
    Vec<Vec<u8>>,
))
    requires
        old(filter).well_formed(),
        old(index).well_formed(),
    ensures
        final(filter).well_formed(),
        final(index).well_formed(),
        distinct_keys(r.0@),
        distinct_keys(r.1@),
        forall|c: Seq<u8>|
            #[trigger] round_keys(old(filter)@, *old(index), known@, true, c) ==> holds(r.0@, c),
        forall|c: Seq<u8>|
            #[trigger] round_keys(old(filter)@, *old(index), known@, false, c) && !holds(r.0@, c)
                ==> holds(r.1@, c),
        forall|c: Seq<u8>| #[trigger] holds(r.1@, c) ==> !holds(r.0@, c),
        forall|i: int| 0 <= i < r.0@.len() ==> old(index).targets().contains(murmur64a(#[trigger] r.0@[i]@)),
        final(index).targets() == old(index).targets().difference(hashes_of(r.0@)),
        forall|i: int|
            0 <= i < SLOTS ==> #[trigger] final(filter)@[i] == if marked(r.0@, i) {
                0
            } else {
                old(filter)@[i]
            },
{
    let ghost targets0 = index.targets();
    let ghost f0 = filter@;
    let ghost i0 = *index;
    let ghost known0 = known@;
    let ghost mut started = false;
    let mut all_found: Vec<Vec<u8>> = Vec::new();
    let mut filtered: Vec<Vec<u8>> = Vec::new();
    let mut frontier = known;
    proof {
        assert(targets0.difference(hashes_of(all_found@)) =~= targets0);
    }
    loop
        invariant
            filter.well_formed(),
            index.well_formed(),
            !started ==> filter@ == f0 && *index == i0 && frontier@ == known0,
            started ==> forall|c: Seq<u8>| #[trigger] round_keys(f0, i0, known0, true, c) ==> holds(all_found@, c),
            started ==> forall|c: Seq<u8>| #[trigger] round_keys(f0, i0, known0, false, c) ==> holds(filtered@, c),
            index.targets() == targets0.difference(hashes_of(all_found@)),
            forall|i: int| 0 <= i < SLOTS ==> #[trigger] filter@[i] == if marked(all_found@, i) { 0 } else { f0[i] },
            distinct_keys(all_found@),
            distinct_keys(filtered@),
            forall|i: int| 0 <= i < all_found@.len() ==> targets0.contains(murmur64a(#[trigger] all_found@[i]@)),
        ensures
            forall|c: Seq<u8>| #[trigger] round_keys(f0, i0, known0, true, c) ==> holds(all_found@, c),
            forall|c: Seq<u8>| #[trigger] round_keys(f0, i0, known0, false, c) ==> holds(filtered@, c),
        decreases index.targets().len(),
    {
        let mut found: Vec<Vec<u8>> = Vec::new();
        let ghost filtered_before = filtered@;
        expand(filter, index, &frontier, &mut found, &mut filtered);
        proof {
            lemma_holds_extend(filtered_before, filtered@);
            assert forall|c: Seq<u8>| #[trigger] round_keys(f0, i0, known0, true, c) implies holds(all_found@, c) || holds(found@, c) by {
            }
            assert forall|c: Seq<u8>| #[trigger] round_keys(f0, i0, known0, false, c) implies holds(filtered@, c) by {
                if started {
                    assert(holds(filtered_before, c));
                }
            }
        }
        if found.len() == 0 {
            proof {
                assert forall|c: Seq<u8>| #[trigger] round_keys(f0, i0, known0, true, c) implies holds(all_found@, c) by {
                    assert(!holds(found@, c));
                }
            }
            break;
        }
        proof {
            lemma_targets_finite(index);
        }
        let ghost start_targets = index.targets();
        let ghost start_slots = filter@;
        let mut i: usize = 0;
        assert(found@.take(0) =~= Seq::<Vec<u8>>::empty());
        assert(start_targets.difference(hashes_of(found@.take(0))) =~= start_targets);
        while i < found.len()
            invariant
                i <= found@.len(),
                found@.len() > 0,
                filter.well_formed(),
                index.well_formed(),
                start_targets.finite(),
                index.targets() == start_targets.difference(hashes_of(found@.take(i as int))),
                forall|s: int| 0 <= s < SLOTS ==> #[trigger] filter@[s] == if marked(found@.take(i as int), s) { 0 } else { start_slots[s] },
                forall|j: int| 0 <= j < found@.len() ==> start_targets.contains(murmur64a(#[trigger] found@[j]@)),
            decreases found@.len() - i,
        {
            proof {
                lemma_holds_take_next(found@, i as int);
            }
            let ghost x = found@[i as int]@;
            let ghost prev_slots = filter@;
            filter.add_key(found[i].as_slice());
            index.remove(mmh64a(found[i].as_slice()));
            proof {
                assert(index.targets() =~= start_targets.difference(hashes_of(found@.take(i + 1)))) by {
                    assert forall|h: u64| hashes_of(found@.take(i + 1)).contains(h) <==> (hashes_of(found@.take(i as int)).contains(h) || h == murmur64a(x)) by {
                        if hashes_of(found@.take(i + 1)).contains(h) {
                            let y = choose|y: Seq<u8>| #[trigger] holds(found@.take(i + 1), y) && murmur64a(y) == h;
                            if y != x {
                                assert(holds(found@.take(i as int), y));
                            }
                        }
                        if hashes_of(found@.take(i as int)).contains(h) {
                            let y = choose|y: Seq<u8>| #[trigger] holds(found@.take(i as int), y) && murmur64a(y) == h;
                            assert(holds(found@.take(i + 1), y));
                        }
                        if h == murmur64a(x) {
                            assert(holds(found@.take(i + 1), x));
                        }
                    }
                }
                assert forall|s: int| 0 <= s < SLOTS implies #[trigger] filter@[s] == if marked(found@.take(i + 1), s) { 0 } else { start_slots[s] } by {
                    if marked(found@.take(i + 1), s) {
                        let y = choose|y: Seq<u8>| #[trigger] holds(found@.take(i + 1), y) && all_in_alphabet(y) && has_window_before(y, y.len() as int, s);
                        if y != x {
                            assert(holds(found@.take(i as int), y));
                        }
                    }
                    if marked(found@.take(i as int), s) {
                        let y = choose|y: Seq<u8>| #[trigger] holds(found@.take(i as int), y) && all_in_alphabet(y) && has_window_before(y, y.len() as int, s);
                        assert(holds(found@.take(i + 1), y));
                    }
                    if all_in_alphabet(x) && has_window_before(x, x.len() as int, s) {
                        assert(holds(found@.take(i + 1), x));
                    }
                }
            }
            i = i + 1;
        }
        assert(found@.take(found@.len() as int) =~= found@);
        proof {
            let h0 = murmur64a(found@[0]@);
            assert(holds(found@, found@[0]@));
            assert(hashes_of(found@).contains(h0));
            assert(!index.targets().contains(h0));
            assert(start_targets.contains(h0));
            assert(index.targets().subset_of(start_targets.remove(h0)));
            vstd::set_lib::lemma_len_subset(index.targets(), start_targets.remove(h0));
        }
        let ghost before = all_found@;
        let mut k: usize = 0;
        assert(found@.take(0) =~= Seq::<Vec<u8>>::empty());
        while k < found.len()
            invariant
                k <= found@.len(),
                distinct_keys(all_found@),
                forall|x: Seq<u8>| #[trigger] holds(all_found@, x) <==> (holds(before, x) || holds(found@.take(k as int), x)),
                forall|m: int| 0 <= m < all_found@.len() ==> targets0.contains(murmur64a(#[trigger] all_found@[m]@)),
                forall|j: int| 0 <= j < found@.len() ==> targets0.contains(murmur64a(#[trigger] found@[j]@)),
            decreases found@.len() - k,
        {
            proof {
                lemma_holds_take_next(found@, k as int);
            }
            let key = found[k].clone();
            assert(key@ == found@[k as int]@);
            let ghost prev = all_found@;
            push_new(&mut all_found, key);
            proof {
                assert forall|m: int| 0 <= m < all_found@.len() implies targets0.contains(murmur64a(#[trigger] all_found@[m]@)) by {
                    if m < prev.len() {
                        assert(all_found@.take(prev.len() as int)[m] == all_found@[m]);
                    }
                }
            }
            k = k + 1;
        }
        proof {
            assert forall|x: Seq<u8>| #[trigger] holds(all_found@, x) <==> (holds(before, x) || holds(found@, x)) by {}
            assert(hashes_of(all_found@) =~= hashes_of(before).union(hashes_of(found@))) by {
                assert forall|h: u64| hashes_of(all_found@).contains(h) <==> hashes_of(before).union(hashes_of(found@)).contains(h) by {
                    if hashes_of(all_found@).contains(h) {
                        let y = choose|y: Seq<u8>| #[trigger] holds(all_found@, y) && murmur64a(y) == h;
                        if holds(before, y) {} else { assert(holds(found@, y)); }
                    }
                    if hashes_of(before).contains(h) {
                        let y = choose|y: Seq<u8>| #[trigger] holds(before, y) && murmur64a(y) == h;
                        assert(holds(all_found@, y));
                    }
                    if hashes_of(found@).contains(h) {
                        let y = choose|y: Seq<u8>| #[trigger] holds(found@, y) && murmur64a(y) == h;
                        assert(holds(all_found@, y));
                    }
                }
            }
            assert(index.targets() =~= targets0.difference(hashes_of(all_found@)));
            assert forall|s: int| 0 <= s < SLOTS implies #[trigger] filter@[s] == if marked(all_found@, s) { 0 } else { f0[s] } by {
                assert(start_slots[s] == if marked(before, s) { 0 } else { f0[s] });
                if marked(all_found@, s) {
                    let y = choose|y: Seq<u8>| #[trigger] holds(all_found@, y) && all_in_alphabet(y) && has_window_before(y, y.len() as int, s);
                    if holds(before, y) {} else { assert(holds(found@, y)); }
                }
                if marked(before, s) {
                    let y = choose|y: Seq<u8>| #[trigger] holds(before, y) && all_in_alphabet(y) && has_window_before(y, y.len() as int, s);
                    assert(holds(all_found@, y));
                }
                if marked(found@, s) {
                    let y = choose|y: Seq<u8>| #[trigger] holds(found@, y) && all_in_alphabet(y) && has_window_before(y, y.len() as int, s);
                    assert(holds(all_found@, y));
                }
            }
            assert forall|c: Seq<u8>| #[trigger] round_keys(f0, i0, known0, true, c) implies holds(all_found@, c) by {
                if holds(before, c) {}
            }
        }
        frontier = found;
        proof {
            started = true;
        }
    }
    let rest = without(&filtered, &all_found);
    (all_found, rest)
}

/// Whether some entry of `v` equals `h`.
fn holds_hash(v: &Vec<u64>, h: u64) -> (r: bool)
    ensures
        r == v@.contains(h),
{
    let mut i: usize = 0;
    while i < v.len()
        invariant
            i <= v@.len(),
            forall|j: int| 0 <= j < i ==> v@[j] != h,
        decreases v@.len() - i,
    {
        if v[i] == h {
            return true;
        }
        i = i + 1;
    }
    false
}

/// The hashes of `hashes`, in order, without those that a key of `keys`
/// hashes to: the targets that are still unknown.
pub fn unknown_targets(keys: &Vec<Vec<u8>>, hashes: &Vec<u64>) -> (r: Vec<u64>)
    ensures
        forall|h: u64|
            r@.contains(h) <==> (hashes@.contains(h) && !(exists|i: int|
                0 <= i < keys@.len() && #[trigger] murmur64a(keys@[i]@) == h)),
{
    let mut known: Vec<u64> = Vec::new();
    let mut i: usize = 0;
    while i < keys.len()
        invariant
            i <= keys@.len(),
            known@.len() == i,
            forall|j: int| 0 <= j < i ==> known@[j] == murmur64a(#[trigger] keys@[j]@),
        decreases keys@.len() - i,
    {
        known.push(mmh64a(keys[i].as_slice()));
        i = i + 1;
    }
    let mut out: Vec<u64> = Vec::new();
    let mut k: usize = 0;
    while k < hashes.len()
        invariant
            k <= hashes@.len(),
            known@.len() == keys@.len(),
            forall|j: int| 0 <= j < keys@.len() ==> known@[j] == murmur64a(#[trigger] keys@[j]@),
            forall|h: u64|
                out@.contains(h) <==> (hashes@.take(k as int).contains(h) && !known@.contains(h)),
        decreases hashes@.len() - k,
    {
        let h = hashes[k];
        let ghost prev = out@;
        if !holds_hash(&known, h) {
            out.push(h);
        }
        proof {
            assert(hashes@.take(k + 1) =~= hashes@.take(k as int).push(h));
            assert(hashes@.take(k + 1)[k as int] == h);
            assert forall|x: u64| out@.contains(x) <==> (hashes@.take(k + 1).contains(x) && !known@.contains(x)) by {
                assert(prev.contains(x) <==> (hashes@.take(k as int).contains(x) && !known@.contains(x)));
                if out@.contains(x) && x != h {
                    let m = choose|m: int| 0 <= m < out@.len() && out@[m] == x;
                    assert(prev[m] == x);
                }
                if hashes@.take(k as int).contains(x) {
                    let m = choose|m: int| 0 <= m < k && #[trigger] hashes@.take(k as int)[m] == x;
                    assert(hashes@.take(k + 1)[m] == x);
                }
                if hashes@.take(k + 1).contains(x) && x != h {
                    let m = choose|m: int| 0 <= m < k + 1 && #[trigger] hashes@.take(k + 1)[m] == x;
                    assert(hashes@.take(k as int)[m] == x);
                }
                if prev.contains(x) {
                    let m = choose|m: int| 0 <= m < prev.len() && prev[m] == x;
                    assert(out@[m] == x);
                }
                if x == h && !known@.contains(x) {
                    assert(out@[out@.len() - 1] == x);
                }
            }
        }
        k = k + 1;
    }
    assert(hashes@.take(hashes@.len() as int) =~= hashes@);
    assert forall|h: u64| known@.contains(h) <==> (exists|i: int| 0 <= i < keys@.len() && #[trigger] murmur64a(keys@[i]@) == h) by {
        if known@.contains(h) {
            let m = choose|m: int| 0 <= m < known@.len() && known@[m] == h;
            assert(murmur64a(keys@[m]@) == h);
        }
        if exists|i: int| 0 <= i < keys@.len() && #[trigger] murmur64a(keys@[i]@) == h {
            let m = choose|i: int| 0 <= i < keys@.len() && #[trigger] murmur64a(keys@[i]@) == h;
            assert(known@[m] == h);
        }
    }
    out
}

/// `a` comes before `b` in lexicographic byte order.
pub open spec fn lex_less(a: Seq<u8>, b: Seq<u8>) -> bool
    decreases a.len(),
{
    if a.len() == 0 {
        b.len() > 0
    } else if b.len() == 0 {
        false
    } else if a[0] != b[0] {
        a[0] < b[0]
    } else {
        lex_less(a.drop_first(), b.drop_first())
    }
}

/// Each entry of `v` comes before every later one.
pub open spec fn lex_sorted(v: Seq<Vec<u8>>) -> bool {
    forall|i: int, j: int| 0 <= i < j < v.len() ==> lex_less(v[i]@, v[j]@)
}

proof fn lemma_lex_total(a: Seq<u8>, b: Seq<u8>)
    ensures
        a != b ==> lex_less(a, b) || lex_less(b, a),
        !(lex_less(a, b) && lex_less(b, a)),
        !lex_less(a, a),
    decreases a.len(),
{
    if a.len() > 0 && b.len() > 0 {
        lemma_lex_total(a.drop_first(), b.drop_first());
        if a[0] == b[0] && a.drop_first() == b.drop_first() {
            assert(a =~= seq![a[0]] + a.drop_first());
            assert(b =~= seq![b[0]] + b.drop_first());
        }
    } else if a.len() > 0 {
        lemma_lex_total(a.drop_first(), a.drop_first());
    } else if b.len() == 0 {
        assert(a =~= b);
    }
}

proof fn lemma_lex_trans(a: Seq<u8>, b: Seq<u8>, c: Seq<u8>)
    requires
        lex_less(a, b),
        lex_less(b, c),
    ensures
        lex_less(a, c),
    decreases a.len(),
{
    if a.len() > 0 && b.len() > 0 && c.len() > 0 && a[0] == b[0] && b[0] == c[0] {
        lemma_lex_trans(a.drop_first(), b.drop_first(), c.drop_first());
    }
}

/// Whether `a` comes before `b` in lexicographic byte order.
fn lex_before(a: &Vec<u8>, b: &Vec<u8>) -> (r: bool)
    ensures
        r == lex_less(a@, b@),
{
    let mut i: usize = 0;
    assert(a@.skip(0) =~= a@);
    assert(b@.skip(0) =~= b@);
    while i < a.len() && i < b.len()
        invariant
            i <= a@.len(),
            i <= b@.len(),
            lex_less(a@, b@) == lex_less(a@.skip(i as int), b@.skip(i as int)),
        decreases a@.len() - i,
    {
        if a[i] != b[i] {
            return a[i] < b[i];
        }
        proof {
            assert(a@.skip(i as int).drop_first() =~= a@.skip(i + 1));
            assert(b@.skip(i as int).drop_first() =~= b@.skip(i + 1));
        }
        i = i + 1;
    }
    i == a.len() && i < b.len()
}

/// The keys of `keys` in lexicographic byte order, each once.
pub fn sort_keys(keys: Vec<Vec<u8>>) -> (r: Vec<Vec<u8>>)
    ensures
        lex_sorted(r@),
        forall|x: Seq<u8>| #[trigger] holds(r@, x) <==> holds(keys@, x),
{
    let mut out: Vec<Vec<u8>> = Vec::new();
    let mut i: usize = 0;
    while i < keys.len()
        invariant
            i <= keys@.len(),
            lex_sorted(out@),
            forall|x: Seq<u8>| #[trigger] holds(out@, x) <==> holds(keys@.take(i as int), x),
        decreases keys@.len() - i,
    {
        proof {
            lemma_holds_take_next(keys@, i as int);
        }
        let key = keys[i].clone();
        assert(key@ == keys@[i as int]@);
        let mut pos: usize = 0;
        while pos < out.len() && lex_before(&out[pos], &key)
            invariant
                pos <= out@.len(),
                forall|m: int| 0 <= m < pos ==> lex_less(#[trigger] out@[m]@, key@),
            decreases out@.len() - pos,
        {
            pos = pos + 1;
        }
        let ghost prev = out@;
        if pos < out.len() && same_bytes(&out[pos], &key) {
            assert(holds(prev, key@));
        } else {
            out.insert(pos, key);
            proof {
                if pos < prev.len() {
                    lemma_lex_total(prev[pos as int]@, key@);
                }
                assert forall|a: int, b: int| 0 <= a < b < out@.len() implies lex_less(out@[a]@, out@[b]@) by {
                    if b == pos {
                        assert(out@[a] == prev[a]);
                    } else if a == pos {
                        assert(out@[b] == prev[b - 1]);
                        if b - 1 > pos {
                            lemma_lex_trans(key@, prev[pos as int]@, prev[b - 1]@);
                        }
                    } else if b < pos {
                        assert(out@[a] == prev[a] && out@[b] == prev[b]);
                    } else if a < pos {
                        assert(out@[a] == prev[a] && out@[b] == prev[b - 1]);
                    } else {
                        assert(out@[a] == prev[a - 1] && out@[b] == prev[b - 1]);
                    }
                }
                assert forall|x: Seq<u8>| #[trigger] holds(out@, x) <==> (holds(prev, x) || x == key@) by {
                    if holds(out@, x) {
                        let m = choose|m: int| 0 <= m < out@.len() && #[trigger] out@[m]@ == x;
                        if m < pos {
                            assert(prev[m]@ == x);
                        } else if m > pos {
                            assert(prev[m - 1]@ == x);
                        }
                    }
                    if holds(prev, x) {
                        let m = choose|m: int| 0 <= m < prev.len() && #[trigger] prev[m]@ == x;
                        if m < pos {
                            assert(out@[m]@ == x);
                        } else {
                            assert(out@[m + 1]@ == x);
                        }
                    }
                    if x == key@ {
                        assert(out@[pos as int]@ == x);
                    }
                }
            }
        }
        i = i + 1;
    }
    assert(keys@.take(keys@.len() as int) =~= keys@);
    out
}

} // verus!
