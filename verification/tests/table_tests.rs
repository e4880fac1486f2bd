//! The table exercised end to end: mixed workloads, random keys, deletes.

use hash_table::table::{Key, Table, Value};
use rand::distr::Alphanumeric;
use rand::Rng;

/// Random printable strings, length uniform in 1..=100, alphanumeric,
/// pairwise distinct (short strings repeat easily, and the workloads below
/// count on distinct keys).
fn random_strings(n: usize) -> Vec<String> {
    let mut rng = rand::rng();
    let mut out: Vec<String> = Vec::new();
    while out.len() < n {
        let length = rng.random_range(1..=100);
        let s: String = (&mut rng)
            .sample_iter(Alphanumeric)
            .take(length)
            .map(char::from)
            .collect();
        if !out.contains(&s) {
            out.push(s);
        }
    }
    out
}

#[test]
fn test_general() {
    let mut table = Table::new();
    table.set(&Key::new("key1"), &Value::Boolean(false));
    table.set(&Key::new("key2"), &Value::Number(10.0f64.to_bits()));
    table.set(&Key::new("key3"), &Value::Text("hi".to_string()));
    assert!(table.get(&Key::new("key1")).unwrap() == Value::Boolean(false));
    assert!(table.get(&Key::new("key2")).unwrap() == Value::Number(10.0f64.to_bits()));
    assert!(table.get(&Key::new("key3")).unwrap() == Value::Text("hi".to_string()));
    assert!(table.get(&Key::new("key4")).is_none());
    table.delete(&Key::new("key1"));
    assert!(table.get(&Key::new("key1")).is_none());
    table.delete(&Key::new("key4"));
    assert!(table.get(&Key::new("key4")).is_none());
}

#[test]
fn test_set_get() {
    let mut table = Table::new();

    for s in random_strings(1000) {
        let key = Key::new(&s);
        let value = Value::Text(s);
        table.set(&key, &value);
        assert!(table.get(&key).unwrap() == value);
    }
}

#[test]
fn test_delete() {
    let mut table = Table::new();

    let keys = random_strings(1000)
        .iter()
        .map(|s| Key::new(s))
        .collect::<Vec<Key>>();

    for k in &keys {
        table.set(k, &Value::Number(0.0f64.to_bits()));
        println!(
            "count = {:?}, capacipty = {:?}, load_factor = {:?}",
            table.count,
            table.capacity(),
            table.count as f32 / table.capacity() as f32
        )
    }

    for (i, k) in keys.iter().enumerate() {
        if i % 2 == 0 {
            table.delete(&k);
            println!(
                "count = {:?}, capacipty = {:?}, load_factor = {:?}",
                table.count,
                table.capacity(),
                table.count as f32 / table.capacity() as f32
            )
        }
    }

    for (i, k) in keys.iter().enumerate() {
        if i % 2 == 0 {
            assert!(table.get(k).is_none());
        } else {
            assert!(table.get(k).is_some());
        }
    }

    let keys = random_strings(500)
        .iter()
        .map(|s| Key::new(s))
        .collect::<Vec<Key>>();

    for k in &keys {
        table.set(k, &Value::Number(0.0f64.to_bits()));
        println!(
            "count = {:?}, capacipty = {:?}, load_factor = {:?}",
            table.count,
            table.capacity(),
            table.count as f32 / table.capacity() as f32
        )
    }
}
