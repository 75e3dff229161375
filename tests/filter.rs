use murmur_xor::filter::{is_valid, FilterTrie};

#[test]
fn fresh_filter_rejects_unseen_tails() {
    let filter = FilterTrie::new();
    // the two boundary trigrams and one inner trigram are all unseen: 3 <= 4
    assert!(filter.check_trie(*b"na", b"abc"));
    // 2 + 4 inner trigrams unseen: 6 > 4
    assert!(!filter.check_trie(*b"na", b"abcdef"));
    assert!(filter.check_trie(*b"na", b"a"));
}

#[test]
fn seen_trigrams_score_zero() {
    let mut filter = FilterTrie::new();
    filter.add_keys(&["abcdefgh", "xxcbb"]);
    // boundary trigrams (c, b, a) and (b, a, b) are unseen, the tail's own are seen
    assert!(filter.check_trie(*b"cb", b"bcdefg"));
    let fresh = FilterTrie::new();
    assert!(!fresh.check_trie(*b"cb", b"bcdefg"));
}

#[test]
fn invalid_bytes_are_rejected() {
    let mut filter = FilterTrie::new();
    filter.add_keys(&["abc", "ab-c"]);
    assert!(!filter.check_trie(*b"ab", b"c-"));
    assert!(!filter.check_trie(*b"ab", b"C"));
    assert!(!filter.check_trie(*b"ab", b"abcdefgh"));
}

#[test]
fn keys_with_invalid_bytes_are_skipped() {
    let mut filter = FilterTrie::new();
    filter.add_keys(&["ab-cde"]);
    let fresh = FilterTrie::new();
    for tail in [&b"cde"[..], b"de", b"abcdefg"] {
        assert_eq!(filter.check_trie(*b"xy", tail), fresh.check_trie(*b"xy", tail));
    }
}

#[test]
fn long_tails_need_a_lower_score() {
    let mut filter = FilterTrie::new();
    filter.add_keys(&["zabcdefg"]);
    // boundary (a, z, a) and (z, a, b) unseen, (a, b, c) .. seen: unk = 2
    assert!(filter.check_trie(*b"az", b"abcdef"));
    // (q, q, a), (q, a, b), (d, e, x) unseen: unk = 3 is admitted for six bytes
    assert!(filter.check_trie(*b"qq", b"abcdex"));
    // (q, q, a), (q, a, b), (c, d, x), (d, x, y) unseen: unk = 4 is not
    assert!(!filter.check_trie(*b"qq", b"abcdxy"));
    // five bytes with (q, q, a), (q, a, b), (c, d, x) unseen: admitted
    assert!(filter.check_trie(*b"qq", b"abcdx"));
}

#[test]
fn validity_of_keys() {
    assert!(is_valid(b"known/key_0"));
    assert!(is_valid(b""));
    assert!(!is_valid(b"Known"));
    assert!(!is_valid(b"a-b"));
}
