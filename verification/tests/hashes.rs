use std::collections::HashMap;

use jag::entry_hash;

#[test]
fn test_known_entry_hashes() {
    let mut map = HashMap::new();

    map.insert("jagex.jag", 1827744299u32);
    map.insert("testing", 903262442);
    map.insert("hello.world", 241581634);
    map.insert("1234567890", 2318125913);
    map.insert("AbCdEfGhIJkLmNoPqRsTuVwXyZ", 4115466251);

    for (k, v) in map.into_iter() {
        assert_eq!(entry_hash(k), v);
    }
}

#[test]
fn test_hash_is_deterministic() {
    assert_eq!(entry_hash("some entry name"), entry_hash("some entry name"));
    assert_eq!(entry_hash(""), 0);
}

#[test]
fn test_hash_folds_case() {
    assert_eq!(entry_hash("logo.tga"), entry_hash("LOGO.TGA"));
    assert_eq!(entry_hash("logo.tga"), entry_hash("Logo.Tga"));
}

#[test]
fn test_hash_wraps_below_space() {
    // A byte below 0x20 makes the `byte - 32` step wrap; the fold must
    // keep going modulo 2^32 rather than fail.
    let low = "\u{1}";
    assert_eq!(entry_hash(low), 0u32.wrapping_sub(31));
}
