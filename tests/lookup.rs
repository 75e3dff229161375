use murmur_xor::hash::mmh64a;
use murmur_xor::lookup::KeyLookup;

const KEY: &str = "known/key";

const NEIGHBORS: [&str; 5] = [
    "known/key_a",
    "known/key_b",
    "known/key_c",
    "known/key_seven",
    "known/key_six6",
];

#[test]
fn key_lookup() {
    let hashes = NEIGHBORS.map(|s| mmh64a(s.as_bytes()));
    let lookup = KeyLookup::new(&hashes);

    let key = KEY;
    let mut map = std::collections::HashMap::new();
    for (hash, tail) in lookup.find_neighbors(key.as_bytes()) {
        let neighbor = format!("{}{}", &key[..key.len() - key.len() % 8], tail.as_str());
        map.insert(neighbor, hash);
    }

    assert!(map.len() == NEIGHBORS.len());
    for neighbor in NEIGHBORS {
        let hash = map.get(neighbor).unwrap();
        assert_eq!(*hash, mmh64a(neighbor.as_bytes()));
    }
}

#[test]
fn removed_hash_is_not_found() {
    let hashes = NEIGHBORS.map(|s| mmh64a(s.as_bytes()));
    let mut lookup = KeyLookup::new(&hashes);
    let gone = mmh64a(b"known/key_b");
    lookup.remove(gone);
    let found = lookup.find_neighbors(b"known/ke");
    assert_eq!(found.len(), NEIGHBORS.len() - 1);
    assert!(found.iter().all(|(h, _)| *h != gone));
    // removing a hash that is not held changes nothing
    lookup.remove(12345);
    assert_eq!(lookup.find_neighbors(b"known/ke").len(), NEIGHBORS.len() - 1);
}

#[test]
fn neighbors_come_shorter_tails_first() {
    let keys = ["known/key_seven", "known/key_a"];
    let hashes = keys.map(|s| mmh64a(s.as_bytes()));
    let lookup = KeyLookup::new(&hashes);
    let found = lookup.find_neighbors(b"known/ke");
    let tails: Vec<&[u8]> = found.iter().map(|(_, t)| t.as_bytes()).collect();
    assert_eq!(tails, vec![&b"y_a"[..], &b"y_seven"[..]]);
    assert_eq!(found[0].0, hashes[1]);
}

#[test]
fn duplicate_targets_are_held_once() {
    let h = mmh64a(b"known/key_a");
    let lookup = KeyLookup::new(&[h, h]);
    assert_eq!(lookup.find_neighbors(b"known/ke").len(), 1);
}

#[test]
fn empty_index_finds_nothing() {
    let lookup = KeyLookup::new(&[]);
    assert!(lookup.find_neighbors(b"known/ke").is_empty());
}
