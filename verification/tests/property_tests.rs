//! One concrete scenario for each stated law of the table, plus exact
//! vectors for the FNV-1a hash.

use hash_table::table::{Key, Table, Value};

/// Known FNV-1a 32-bit values: the offset basis for the empty string, and
/// the classic vectors for "a" and "foobar".
#[test]
fn test_fnv1a_vectors() {
    assert_eq!(Key::new("").hash_code(), 2166136261);
    assert_eq!(Key::new("a").hash_code(), 0xe40c292c);
    assert_eq!(Key::new("foobar").hash_code(), 0xbf9cf968);
    // hashing runs over UTF-8 bytes, so a two-byte character counts twice
    assert_eq!(Key::new("h\u{e9}llo").hash_code(), 0x4aa48540);
}

/// The empty string is an ordinary key.
#[test]
fn test_empty_string_key() {
    let mut table = Table::new();
    table.set(&Key::new(""), &Value::Boolean(true));
    assert_eq!(table.get(&Key::new("")), Some(Value::Boolean(true)));
    table.delete(&Key::new(""));
    assert_eq!(table.get(&Key::new("")), None);
}

/// Equal strings give equal hash codes, independently built.
#[test]
fn test_hash_deterministic() {
    assert_eq!(Key::new("some key").hash_code(), Key::new("some key").hash_code());
}

/// Round trip: set then get returns the stored value, for each variant.
#[test]
fn test_round_trip() {
    let mut table = Table::new();
    table.set(&Key::new("b"), &Value::Boolean(true));
    table.set(&Key::new("n"), &Value::Number(2.5f64.to_bits()));
    table.set(&Key::new("t"), &Value::Text("payload".to_string()));
    assert_eq!(table.get(&Key::new("b")), Some(Value::Boolean(true)));
    assert_eq!(table.get(&Key::new("n")), Some(Value::Number(2.5f64.to_bits())));
    assert_eq!(table.get(&Key::new("t")), Some(Value::Text("payload".to_string())));
}

/// Absence: a key never stored is absent, in an empty and a busy table.
#[test]
fn test_absence() {
    let mut table = Table::new();
    assert_eq!(table.get(&Key::new("missing")), None);
    table.set(&Key::new("present"), &Value::Boolean(true));
    assert_eq!(table.get(&Key::new("missing")), None);
}

/// Overwrite: the second set replaces the value and leaves count unchanged.
#[test]
fn test_overwrite() {
    let mut table = Table::new();
    table.set(&Key::new("k"), &Value::Number(1.0f64.to_bits()));
    let count_before = table.count;
    table.set(&Key::new("k"), &Value::Number(2.0f64.to_bits()));
    assert_eq!(table.get(&Key::new("k")), Some(Value::Number(2.0f64.to_bits())));
    assert_eq!(table.count, count_before);
}

/// Delete then absent; deleting an absent key is a no-op, count untouched.
#[test]
fn test_delete_then_absent() {
    let mut table = Table::new();
    table.set(&Key::new("k"), &Value::Boolean(false));
    table.delete(&Key::new("k"));
    assert_eq!(table.get(&Key::new("k")), None);
    let count_before = table.count;
    let capacity_before = table.capacity();
    table.delete(&Key::new("never there"));
    assert_eq!(table.count, count_before);
    assert_eq!(table.capacity(), capacity_before);
}

/// Tombstone reuse loses no data. The keys "aa" and "ai" both start their
/// probe walk at slot 7 of an eight-slot array, so after "aa" is deleted the
/// insert of "ai" probes straight into its tombstone.
#[test]
fn test_tombstone_reuse() {
    let mut table = Table::new();
    let k1 = Key::new("aa");
    let k2 = Key::new("ai");
    assert_eq!(k1.hash_code() % 8, k2.hash_code() % 8);
    table.set(&k1, &Value::Number(1.0f64.to_bits()));
    table.delete(&k1);
    table.set(&k2, &Value::Number(2.0f64.to_bits()));
    assert_eq!(table.get(&k2), Some(Value::Number(2.0f64.to_bits())));
    assert_eq!(table.get(&k1), None);
    // the tombstone was reused: one slot taken, not two
    assert_eq!(table.count, 1);
}

/// Growth correctness: a thousand distinct keys force several doublings;
/// every key stays retrievable with its latest value, and the capacity is
/// a power of two of at least eight throughout.
#[test]
fn test_growth() {
    let mut table = Table::new();
    for i in 0..1000u32 {
        let name = format!("key{}", i);
        table.set(&Key::new(&name), &Value::Number((i as f64).to_bits()));
        let c = table.capacity();
        assert!(c >= 8 && c.is_power_of_two());
    }
    assert_eq!(table.capacity(), 2048);
    for i in 0..1000u32 {
        let name = format!("key{}", i);
        assert_eq!(table.get(&Key::new(&name)), Some(Value::Number((i as f64).to_bits())));
    }
}

/// Load factor bound: after any set, count is at most three quarters of the
/// capacity — also across deletes, whose tombstones keep their slots taken.
#[test]
fn test_load_factor_bound() {
    let mut table = Table::new();
    for i in 0..300u32 {
        let name = format!("k{}", i);
        table.set(&Key::new(&name), &Value::Boolean(i % 2 == 0));
        assert!(4 * table.count <= 3 * table.capacity());
        if i % 3 == 0 {
            table.delete(&Key::new(&name));
            assert!(4 * table.count <= 3 * table.capacity());
        }
    }
}
