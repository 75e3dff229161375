use murmur_xor::filter::FilterTrie;
use murmur_xor::hash::mmh64a;
use murmur_xor::lookup::KeyLookup;
use murmur_xor::search::{expand, recover, sort_keys, unknown_targets};

#[test]
fn one_round_recovers_neighbors() {
    let mut filter = FilterTrie::new();
    filter.add_keys(&["known/key", "key_a"]);
    let targets = [mmh64a(b"known/key_a"), mmh64a(b"other/xx")];
    let lookup = KeyLookup::new(&targets);
    let frontier = vec![b"known/key".to_vec(), b"short".to_vec()];
    let mut found = Vec::new();
    let mut filtered = Vec::new();
    expand(&filter, &lookup, &frontier, &mut found, &mut filtered);
    assert_eq!(found, vec![b"known/key_a".to_vec()]);
    assert!(filtered.is_empty());
    // a second query of the same frontier adds nothing new
    expand(&filter, &lookup, &frontier, &mut found, &mut filtered);
    assert_eq!(found.len(), 1);
}

#[test]
fn rejected_tails_are_kept_apart() {
    let filter = FilterTrie::new();
    let lookup = KeyLookup::new(&[mmh64a(b"known/key_seven")]);
    let mut found = Vec::new();
    let mut filtered = Vec::new();
    expand(&filter, &lookup, &vec![b"known/ke".to_vec()], &mut found, &mut filtered);
    assert!(found.is_empty());
    assert_eq!(filtered, vec![b"known/key_seven".to_vec()]);
}

#[test]
fn recovery_reaches_a_fixed_point() {
    let known = vec![b"known/key".to_vec()];
    let mut filter = FilterTrie::new();
    filter.add_keys(&["known/key"]);
    // "known/key_abc" scores 5 against the known key alone; once
    // "known/key_ab" is found it scores 3 and is admitted in the next round
    let chain = ["known/key_a", "known/key_ab", "known/key_abc"];
    let hashes: Vec<u64> = chain.iter().map(|k| mmh64a(k.as_bytes())).collect();
    let mut lookup = KeyLookup::new(&hashes);
    let (mut found, filtered) = recover(&mut filter, &mut lookup, known);
    found.sort();
    let expected: Vec<Vec<u8>> = chain.iter().map(|k| k.as_bytes().to_vec()).collect();
    assert_eq!(found, expected);
    // turned away in the first round, found in the second: not reported as filtered
    assert!(filtered.iter().all(|k| k.as_slice() != b"known/key_abc"));
    assert!(lookup.find_neighbors(b"known/ke").is_empty());
}

#[test]
fn first_round_alone_misses_the_later_key() {
    let mut filter = FilterTrie::new();
    filter.add_keys(&["known/key"]);
    let chain = ["known/key_a", "known/key_ab", "known/key_abc"];
    let hashes: Vec<u64> = chain.iter().map(|k| mmh64a(k.as_bytes())).collect();
    let lookup = KeyLookup::new(&hashes);
    let mut found = Vec::new();
    let mut filtered = Vec::new();
    expand(&filter, &lookup, &vec![b"known/key".to_vec()], &mut found, &mut filtered);
    found.sort();
    assert_eq!(found, vec![b"known/key_a".to_vec(), b"known/key_ab".to_vec()]);
    assert_eq!(filtered, vec![b"known/key_abc".to_vec()]);
}

#[test]
fn known_hashes_are_not_targets() {
    let keys = vec![b"abc".to_vec(), b"known/key".to_vec()];
    let hashes = vec![mmh64a(b"abc"), 7, mmh64a(b"zzz"), 7];
    assert_eq!(unknown_targets(&keys, &hashes), vec![7, mmh64a(b"zzz"), 7]);
    assert!(unknown_targets(&keys, &vec![]).is_empty());
}

#[test]
fn keys_sort_bytewise_once() {
    let keys = vec![
        b"b".to_vec(),
        b"ab".to_vec(),
        b"a".to_vec(),
        b"ab".to_vec(),
        b"".to_vec(),
        b"a/".to_vec(),
    ];
    let expected = vec![
        b"".to_vec(),
        b"a".to_vec(),
        b"a/".to_vec(),
        b"ab".to_vec(),
        b"b".to_vec(),
    ];
    assert_eq!(sort_keys(keys), expected);
    assert!(sort_keys(vec![]).is_empty());
}
