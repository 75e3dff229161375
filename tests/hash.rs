use murmur_xor::hash::{mmh64a, mmh64a_prefix7, mmh64a_undo_end, MAGIC};

fn finalize(mut h: u64) -> u64 {
    h ^= h >> 47;
    h = h.wrapping_mul(MAGIC);
    h ^ (h >> 47)
}

#[test]
fn hash_of_empty_key() {
    assert_eq!(mmh64a(b""), 0);
}

#[test]
fn hash_vectors() {
    assert_eq!(mmh64a(b"known/key"), 0xd4c1b7c3a3a401c9);
    assert_eq!(mmh64a(b"abc"), 0x9cc9c33498a95efb);
    assert_eq!(mmh64a(b"0123456789abcdef"), 0x93a92d1a91a24bc7);
}

#[test]
fn undo_end_inverts_end_mix() {
    for x in [0u64, 1, 0xdead_beef, u64::MAX, 0x8000_0000_0000_0000] {
        assert_eq!(mmh64a_undo_end(finalize(x.wrapping_mul(MAGIC))), x);
        let h = x ^ 0x1234_5678_9abc_def0;
        assert_eq!(finalize(mmh64a_undo_end(h).wrapping_mul(MAGIC)), h);
    }
    assert_ne!(mmh64a_undo_end(7), 7);
}

#[test]
fn prefix_states_recover_hashes() {
    let prefix = b"known/ke";
    let states = mmh64a_prefix7(prefix);
    let tails: [&[u8]; 7] = [b"y", b"y_", b"y_a", b"y_ab", b"y_abc", b"y_abcd", b"y_abcde"];
    for (t, tail) in tails.iter().enumerate() {
        let mut word = [0u8; 8];
        word[..tail.len()].copy_from_slice(tail);
        let w = u64::from_le_bytes(word);
        let mut key = prefix.to_vec();
        key.extend_from_slice(tail);
        assert_eq!(finalize((states[t] ^ w).wrapping_mul(MAGIC)), mmh64a(&key));
    }
}

#[test]
fn prefix_states_ignore_a_partial_block() {
    assert_eq!(mmh64a_prefix7(b"known/key"), mmh64a_prefix7(b"known/ke"));
    let empty = mmh64a_prefix7(b"");
    assert_eq!(empty[0], MAGIC);
    assert_eq!(finalize((empty[0] ^ b'a' as u64).wrapping_mul(MAGIC)), mmh64a(b"a"));
}
