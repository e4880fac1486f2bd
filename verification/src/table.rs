//! The hash table itself: keys, values, slots, the probing primitive and
//! the public get / set / delete interface.

use vstd::arithmetic::div_mod::{
    lemma_add_mod_noop, lemma_mod_add_multiples_vanish, lemma_mod_pos_bound, lemma_small_mod,
};
use vstd::prelude::*;
use vstd::string::StrSliceExecFns;
use vstd::utf8::encode_utf8;

verus! {

// ---------------------------------------------------------------------------
// FNV-1a, 32 bit
// ---------------------------------------------------------------------------
/// One FNV-1a round: fold the next byte into the running hash by XOR, then
/// multiply by the FNV prime 16777619 modulo 2^32.
pub open spec fn fnv1a_step(h: u32, b: u8) -> u32 {
    ((((h ^ (b as u32)) as int) * 16777619) % 0x1_0000_0000) as u32
}

/// The 32-bit FNV-1a hash of a byte sequence: start from the offset basis
/// 2166136261 and fold the bytes in from left to right.
pub open spec fn fnv1a(bytes: Seq<u8>) -> u32
    decreases bytes.len(),
{
    if bytes.len() == 0 {
        2166136261u32
    } else {
        fnv1a_step(fnv1a(bytes.drop_last()), bytes.last())
    }
}

/// The hash code a key carries: FNV-1a over the UTF-8 bytes of its name.
pub open spec fn hash_of(name: Seq<char>) -> u32 {
    fnv1a(encode_utf8(name))
}

// ---------------------------------------------------------------------------
// Keys and values
// ---------------------------------------------------------------------------
/// An immutable key: a string together with its hash code, computed once at
/// construction. Two keys are the same entry exactly when their strings are
/// equal; the hash only accelerates probing.
#[derive(Debug)]
pub struct Key {
    name: String,
    hash: u32,
}

impl View for Key {
    type V = Seq<char>;

    closed spec fn view(&self) -> Seq<char> {
        self.name@
    }
}

impl Key {
    /// The stored hash code.
    pub closed spec fn spec_hash(&self) -> u32 {
        self.hash
    }

    /// A key is well formed when its hash field caches exactly the FNV-1a
    /// hash of its name.
    pub open spec fn wf(&self) -> bool {
        self.spec_hash() == hash_of(self@)
    }

    /// Build a key from a string, computing its FNV-1a hash code.
    pub fn new(name: &str) -> (k: Key)
        ensures
            k.wf(),
            k@ == name@,
    {
        let bytes: Vec<u8> = name.as_bytes_vec();
        let mut hash: u32 = 2166136261;
        let mut i: usize = 0;
        while i < bytes.len()
            invariant
                i <= bytes@.len(),
                hash == fnv1a(bytes@.take(i as int)),
            decreases bytes@.len() - i,
        {
            let x: u32 = hash ^ (bytes[i] as u32);
            let p: u64 = (x as u64) * 16777619;
            proof {
                assert(bytes@.take(i + 1).drop_last() =~= bytes@.take(i as int));
                assert(bytes@.take(i + 1).last() == bytes@[i as int]);
            }
            hash = (p % 0x1_0000_0000) as u32;
            i = i + 1;
        }
        proof {
            assert(bytes@.take(bytes@.len() as int) =~= bytes@);
        }
        Key { name: name.to_owned(), hash }
    }

    /// The hash code, as the probing layer uses it.
    pub fn hash_code(&self) -> (h: u32)
        requires
            self.wf(),
        ensures
            h == hash_of(self@),
    {
        self.hash
    }
}

impl Clone for Key {
    fn clone(&self) -> (r: Self)
        ensures
            r == *self,
    {
        Key { name: self.name.clone(), hash: self.hash }
    }
}

/// A stored value: a boolean, a 64-bit floating-point number carried as its
/// IEEE 754 bit pattern (so that the container itself stays free of
/// floating-point arithmetic), or a string. Equality is by variant and
/// payload.
#[derive(Debug, PartialEq, Eq)]
pub enum Value {
    Boolean(bool),
    Number(u64),
    Text(String),
}

impl Clone for Value {
    fn clone(&self) -> (r: Self)
        ensures
            r == *self,
    {
        match self {
            Value::Boolean(b) => Value::Boolean(*b),
            Value::Number(n) => Value::Number(*n),
            Value::Text(s) => Value::Text(s.clone()),
        }
    }
}

// ---------------------------------------------------------------------------
// Slots
// ---------------------------------------------------------------------------
/// One slot of the backing array. A slot is never written back to `Empty`:
/// deletion leaves a `Tombstone`, and empty slots reappear only when growth
/// rebuilds the whole array.
#[derive(Debug)]
pub enum Entry {
    KeyValue(KeyValue),
    Tombstone,
    Empty,
}

/// The contents of an occupied slot.
#[derive(Debug)]
pub struct KeyValue {
    key: Key,
    value: Value,
}

impl Clone for KeyValue {
    fn clone(&self) -> (r: Self)
        ensures
            r == *self,
    {
        KeyValue { key: self.key.clone(), value: self.value.clone() }
    }
}

/// What the probing primitive reports: the key's own slot, a never-written
/// slot where it could be placed, or the first tombstone crossed on the way
/// to one (reused so that probe chains stay short).
enum FindResult {
    Found(usize),
    Available(usize),
    Tombstone(usize),
}

// ---------------------------------------------------------------------------
// The mathematical model of a slot array
// ---------------------------------------------------------------------------
spec fn entry_key(e: Entry) -> Seq<char> {
    match e {
        Entry::KeyValue(kv) => kv.key@,
        _ => Seq::empty(),
    }
}

spec fn entry_value(e: Entry) -> Value {
    match e {
        Entry::KeyValue(kv) => kv.value,
        _ => Value::Boolean(false),
    }
}

spec fn entry_hash(e: Entry) -> u32 {
    match e {
        Entry::KeyValue(kv) => kv.key.spec_hash(),
        _ => 0,
    }
}

spec fn occupied_with(e: Entry, k: Seq<char>) -> bool {
    e is KeyValue && entry_key(e) == k
}

/// Number of slots that are occupied or tombstones.
spec fn num_nonempty(s: Seq<Entry>) -> nat
    decreases s.len(),
{
    if s.len() == 0 {
        0
    } else {
        num_nonempty(s.drop_last()) + (if s.last() is Empty {
            0nat
        } else {
            1nat
        })
    }
}

/// Number of occupied slots.
spec fn num_occupied(s: Seq<Entry>) -> nat
    decreases s.len(),
{
    if s.len() == 0 {
        0
    } else {
        num_occupied(s.drop_last()) + (if s.last() is KeyValue {
            1nat
        } else {
            0nat
        })
    }
}

/// Where the probe walk for hash `h` begins.
spec fn start_of(h: u32, cap: int) -> int
    recommends
        cap > 0,
{
    (h as int) % cap
}

/// The slot visited at step `t` of a probe walk that begins at `st`.
spec fn probe_at(st: int, t: int, cap: int) -> int
    recommends
        cap > 0,
{
    (st + t) % cap
}

/// How many steps a probe walk beginning at `st` takes to reach slot `i`.
spec fn slot_dist(st: int, i: int, cap: int) -> int
    recommends
        cap > 0,
{
    (i - st) % cap
}

/// Slot `i` is reachable for hash `h`: no slot strictly earlier on the probe
/// walk of `h` is empty, so a probe for `h` cannot stop before reaching `i`.
spec fn insert_pos_ok(s: Seq<Entry>, h: u32, i: int) -> bool {
    forall|t: int|
        0 <= t < slot_dist(start_of(h, s.len() as int), i, s.len() as int) ==> !(s[#[trigger] probe_at(
            start_of(h, s.len() as int),
            t,
            s.len() as int,
        )] is Empty)
}

/// Every occupied slot caches the hash of its own key.
spec fn keys_wf(s: Seq<Entry>) -> bool {
    forall|i: int|
        0 <= i < s.len() && (#[trigger] s[i]) is KeyValue ==> entry_hash(s[i]) == hash_of(
            entry_key(s[i]),
        )
}

/// No key occupies two slots.
spec fn keys_unique(s: Seq<Entry>) -> bool {
    forall|i: int, j: int|
        0 <= i < s.len() && 0 <= j < s.len() && i != j && (#[trigger] s[i]) is KeyValue && (
        #[trigger] s[j]) is KeyValue ==> entry_key(s[i]) != entry_key(s[j])
}

/// Every occupied slot is reachable from its key's probe start.
spec fn chains_ok(s: Seq<Entry>) -> bool {
    forall|i: int|
        0 <= i < s.len() && (#[trigger] s[i]) is KeyValue ==> insert_pos_ok(s, entry_hash(s[i]), i)
}

spec fn entries_wf(s: Seq<Entry>) -> bool {
    keys_wf(s) && keys_unique(s) && chains_ok(s)
}

spec fn has_key(s: Seq<Entry>, k: Seq<char>) -> bool {
    exists|i: int| 0 <= i < s.len() && occupied_with(#[trigger] s[i], k)
}

spec fn index_of_key(s: Seq<Entry>, k: Seq<char>) -> int {
    choose|i: int| 0 <= i < s.len() && occupied_with(#[trigger] s[i], k)
}

/// The map a slot array denotes: each occupied slot's key, bound to the
/// value stored beside it.
spec fn live_map(s: Seq<Entry>) -> Map<Seq<char>, Value> {
    Map::new(|k: Seq<char>| has_key(s, k), |k: Seq<char>| entry_value(s[index_of_key(s, k)]))
}

/// True of the capacities the table takes: zero before anything is stored,
/// afterwards a power of two no smaller than eight.
pub open spec fn is_pow2(n: int) -> bool
    decreases n,
{
    if n <= 0 {
        false
    } else if n == 1 {
        true
    } else {
        n % 2 == 0 && is_pow2(n / 2)
    }
}

pub open spec fn cap_ok(cap: int) -> bool {
    cap == 0 || (cap >= 8 && is_pow2(cap))
}

/// Whether a `set` on a table with this count and capacity grows the array
/// first: it does exactly when one more taken slot would push the count
/// strictly over three quarters of the capacity.
pub open spec fn needs_grow(count: int, cap: int) -> bool {
    4 * (count + 1) > 3 * cap
}

/// The capacity a `set` leaves behind: unchanged unless the table grows;
/// a growing table jumps to eight, then doubles.
pub open spec fn grown_capacity(count: int, cap: int) -> int {
    if needs_grow(count, cap) {
        if cap < 8 {
            8
        } else {
            2 * cap
        }
    } else {
        cap
    }
}

// ---------------------------------------------------------------------------
// Modular arithmetic of the probe walk
// ---------------------------------------------------------------------------
proof fn lemma_probe_dist(st: int, i: int, cap: int)
    requires
        0 <= st < cap,
        0 <= i < cap,
    ensures
        0 <= slot_dist(st, i, cap) < cap,
        probe_at(st, slot_dist(st, i, cap), cap) == i,
{
    if i >= st {
        lemma_small_mod((i - st) as nat, cap as nat);
        lemma_small_mod(i as nat, cap as nat);
    } else {
        lemma_mod_add_multiples_vanish(i - st, cap);
        lemma_small_mod((cap + i - st) as nat, cap as nat);
        lemma_mod_add_multiples_vanish(i, cap);
        lemma_small_mod(i as nat, cap as nat);
    }
}

proof fn lemma_dist_probe(st: int, t: int, cap: int)
    requires
        0 <= st < cap,
        0 <= t < cap,
    ensures
        0 <= probe_at(st, t, cap) < cap,
        slot_dist(st, probe_at(st, t, cap), cap) == t,
{
    lemma_mod_pos_bound(st + t, cap);
    if st + t < cap {
        lemma_small_mod((st + t) as nat, cap as nat);
        lemma_small_mod(t as nat, cap as nat);
    } else {
        lemma_mod_add_multiples_vanish(st + t - cap, cap);
        lemma_small_mod((st + t - cap) as nat, cap as nat);
        lemma_mod_add_multiples_vanish(t - cap, cap);
        lemma_small_mod(t as nat, cap as nat);
    }
}

proof fn lemma_probe_step(st: int, t: int, cap: int)
    requires
        0 <= st < cap,
        0 <= t,
    ensures
        probe_at(st, t + 1, cap) == (probe_at(st, t, cap) + 1) % cap,
{
    lemma_add_mod_noop(st + t, 1, cap);
    lemma_mod_pos_bound(st + t, cap);
    lemma_mod_pos_bound(st + t + 1, cap);
    if cap == 1 {
        lemma_mod_pos_bound(probe_at(st, t, cap) + 1, cap);
    } else {
        lemma_small_mod(1nat, cap as nat);
    }
}

// ---------------------------------------------------------------------------
// Counting lemmas
// ---------------------------------------------------------------------------
proof fn lemma_num_nonempty_update(s: Seq<Entry>, i: int, e: Entry)
    requires
        0 <= i < s.len(),
    ensures
        num_nonempty(s.update(i, e)) as int == num_nonempty(s) as int - (if s[i] is Empty {
            0int
        } else {
            1int
        }) + (if e is Empty {
            0int
        } else {
            1int
        }),
    decreases s.len(),
{
    let s2 = s.update(i, e);
    if i == s.len() - 1 {
        assert(s2.drop_last() =~= s.drop_last());
        assert(s2.last() == e);
        assert(s.last() == s[i]);
    } else {
        assert(s2.drop_last() =~= s.drop_last().update(i, e));
        lemma_num_nonempty_update(s.drop_last(), i, e);
        assert(s2.last() == s.last());
        assert(s.drop_last()[i] == s[i]);
    }
}

proof fn lemma_num_occupied_update(s: Seq<Entry>, i: int, e: Entry)
    requires
        0 <= i < s.len(),
    ensures
        num_occupied(s.update(i, e)) as int == num_occupied(s) as int - (if s[i] is KeyValue {
            1int
        } else {
            0int
        }) + (if e is KeyValue {
            1int
        } else {
            0int
        }),
    decreases s.len(),
{
    let s2 = s.update(i, e);
    if i == s.len() - 1 {
        assert(s2.drop_last() =~= s.drop_last());
        assert(s2.last() == e);
        assert(s.last() == s[i]);
    } else {
        assert(s2.drop_last() =~= s.drop_last().update(i, e));
        lemma_num_occupied_update(s.drop_last(), i, e);
        assert(s2.last() == s.last());
        assert(s.drop_last()[i] == s[i]);
    }
}

proof fn lemma_counts_push(s: Seq<Entry>, e: Entry)
    ensures
        num_occupied(s.push(e)) == num_occupied(s) + (if e is KeyValue {
            1nat
        } else {
            0nat
        }),
        num_nonempty(s.push(e)) == num_nonempty(s) + (if e is Empty {
            0nat
        } else {
            1nat
        }),
{
    assert(s.push(e).drop_last() =~= s);
    assert(s.push(e).last() == e);
}

proof fn lemma_occupied_le_nonempty(s: Seq<Entry>)
    ensures
        num_occupied(s) <= num_nonempty(s),
    decreases s.len(),
{
    if s.len() > 0 {
        lemma_occupied_le_nonempty(s.drop_last());
    }
}

proof fn lemma_num_occupied_take_le(s: Seq<Entry>, i: int)
    requires
        0 <= i <= s.len(),
    ensures
        num_occupied(s.take(i)) <= num_occupied(s),
    decreases s.len() - i,
{
    if i == s.len() {
        assert(s.take(i) =~= s);
    } else {
        assert(s.take(i + 1).drop_last() =~= s.take(i));
        assert(s.take(i + 1).last() == s[i]);
        lemma_num_occupied_take_le(s, i + 1);
    }
}

proof fn lemma_exists_empty(s: Seq<Entry>)
    requires
        num_nonempty(s) < s.len(),
    ensures
        exists|i: int| 0 <= i < s.len() && (#[trigger] s[i]) is Empty,
    decreases s.len(),
{
    if s.last() is Empty {
        assert(s[s.len() - 1] is Empty);
    } else {
        lemma_exists_empty(s.drop_last());
        let i = choose|i: int| 0 <= i < s.drop_last().len() && (#[trigger] s.drop_last()[i]) is Empty;
        assert(s[i] is Empty);
    }
}

proof fn lemma_all_empty(s: Seq<Entry>)
    requires
        num_nonempty(s) == 0,
    ensures
        forall|i: int| 0 <= i < s.len() ==> (#[trigger] s[i]) is Empty,
    decreases s.len(),
{
    if s.len() > 0 {
        lemma_all_empty(s.drop_last());
        assert forall|i: int| 0 <= i < s.len() implies (#[trigger] s[i]) is Empty by {
            if i < s.len() - 1 {
                assert(s.drop_last()[i] == s[i]);
            } else {
                assert(s[i] == s.last());
            }
        }
    }
}

proof fn lemma_empty_seq_counts(s: Seq<Entry>)
    requires
        forall|i: int| 0 <= i < s.len() ==> (#[trigger] s[i]) is Empty,
    ensures
        num_nonempty(s) == 0,
        num_occupied(s) == 0,
    decreases s.len(),
{
    if s.len() > 0 {
        assert forall|i: int| 0 <= i < s.drop_last().len() implies (#[trigger] s.drop_last()[i]) is Empty by {
            assert(s.drop_last()[i] == s[i]);
        }
        lemma_empty_seq_counts(s.drop_last());
        assert(s.last() == s[s.len() - 1]);
    }
}

proof fn lemma_no_occupied_no_map(s: Seq<Entry>)
    requires
        forall|i: int| 0 <= i < s.len() ==> !((#[trigger] s[i]) is KeyValue),
    ensures
        live_map(s) == Map::<Seq<char>, Value>::empty(),
{
    assert forall|k: Seq<char>| !(#[trigger] has_key(s, k)) by {
        if has_key(s, k) {
            let i = choose|i: int| 0 <= i < s.len() && occupied_with(#[trigger] s[i], k);
            assert(!(s[i] is KeyValue));
        }
    }
    assert(live_map(s) =~= Map::<Seq<char>, Value>::empty());
}

// ---------------------------------------------------------------------------
// How updating one slot changes the model
// ---------------------------------------------------------------------------
proof fn lemma_index_of(s: Seq<Entry>, i: int)
    requires
        keys_unique(s),
        0 <= i < s.len(),
        s[i] is KeyValue,
    ensures
        has_key(s, entry_key(s[i])),
        index_of_key(s, entry_key(s[i])) == i,
        live_map(s).contains_key(entry_key(s[i])),
        live_map(s)[entry_key(s[i])] == entry_value(s[i]),
{
    let k = entry_key(s[i]);
    assert(occupied_with(s[i], k));
    let j = index_of_key(s, k);
    assert(0 <= j < s.len() && occupied_with(s[j], k));
    if j != i {
        assert(entry_key(s[j]) != entry_key(s[i]));
    }
}

/// Lifting reachability across a write that leaves no slot empty that was
/// not empty before.
proof fn lemma_insert_pos_lift(s: Seq<Entry>, i: int, e: Entry, h: u32, p: int)
    requires
        0 <= i < s.len(),
        !(e is Empty),
        insert_pos_ok(s, h, p),
    ensures
        insert_pos_ok(s.update(i, e), h, p),
{
    let s2 = s.update(i, e);
    let cap = s.len() as int;
    let st = start_of(h, cap);
    assert forall|t: int| 0 <= t < slot_dist(st, p, cap) implies !(s2[#[trigger] probe_at(
        st,
        t,
        cap,
    )] is Empty) by {
        let q = probe_at(st, t, cap);
        if q != i {
            assert(s2[q] == s[q]);
            assert(!(s[probe_at(st, t, cap)] is Empty));
        }
    }
}

/// Writing an occupied slot for a key the table does not hold, at a slot
/// that is reachable for the key's hash, adds exactly that binding.
proof fn lemma_fill_slot(s: Seq<Entry>, i: int, kv: KeyValue)
    requires
        entries_wf(s),
        0 <= i < s.len(),
        !(s[i] is KeyValue),
        !has_key(s, kv.key@),
        kv.key.wf(),
        insert_pos_ok(s, kv.key.spec_hash(), i),
    ensures
        entries_wf(s.update(i, Entry::KeyValue(kv))),
        live_map(s.update(i, Entry::KeyValue(kv))) == live_map(s).insert(kv.key@, kv.value),
{
    let s2 = s.update(i, Entry::KeyValue(kv));
    let k0 = kv.key@;
    assert(keys_wf(s2)) by {
        assert forall|j: int|
            0 <= j < s2.len() && (#[trigger] s2[j]) is KeyValue implies entry_hash(s2[j]) == hash_of(
            entry_key(s2[j]),
        ) by {
            if j != i {
                assert(s2[j] == s[j]);
            }
        }
    }
    assert(keys_unique(s2)) by {
        assert forall|a: int, b: int|
            0 <= a < s2.len() && 0 <= b < s2.len() && a != b && (#[trigger] s2[a]) is KeyValue && (
            #[trigger] s2[b]) is KeyValue implies entry_key(s2[a]) != entry_key(s2[b]) by {
            if a == i {
                assert(s2[b] == s[b]);
                if entry_key(s[b]) == k0 {
                    assert(occupied_with(s[b], k0));
                }
            } else if b == i {
                assert(s2[a] == s[a]);
                if entry_key(s[a]) == k0 {
                    assert(occupied_with(s[a], k0));
                }
            } else {
                assert(s2[a] == s[a]);
                assert(s2[b] == s[b]);
            }
        }
    }
    assert(chains_ok(s2)) by {
        assert forall|j: int|
            0 <= j < s2.len() && (#[trigger] s2[j]) is KeyValue implies insert_pos_ok(
            s2,
            entry_hash(s2[j]),
            j,
        ) by {
            if j == i {
                lemma_insert_pos_lift(s, i, Entry::KeyValue(kv), kv.key.spec_hash(), i);
            } else {
                assert(s2[j] == s[j]);
                assert(insert_pos_ok(s, entry_hash(s[j]), j));
                lemma_insert_pos_lift(s, i, Entry::KeyValue(kv), entry_hash(s[j]), j);
            }
        }
    }
    let m1 = live_map(s2);
    let m2 = live_map(s).insert(k0, kv.value);
    assert forall|k: Seq<char>| #[trigger] m1.contains_key(k) implies m2.contains_key(k) && m1[k]
        == m2[k] by {
        let j = choose|j: int| 0 <= j < s2.len() && occupied_with(#[trigger] s2[j], k);
        if j == i {
            lemma_index_of(s2, i);
        } else {
            assert(s2[j] == s[j]);
            lemma_index_of(s2, j);
            lemma_index_of(s, j);
        }
    }
    assert forall|k: Seq<char>| #[trigger] m2.contains_key(k) implies m1.contains_key(k) by {
        if k == k0 {
            lemma_index_of(s2, i);
        } else {
            let j = choose|j: int| 0 <= j < s.len() && occupied_with(#[trigger] s[j], k);
            assert(s2[j] == s[j]);
            assert(occupied_with(s2[j], k));
        }
    }
    assert(m1 =~= m2);
}

/// Overwriting the value in a key's own slot replaces that key's binding.
proof fn lemma_overwrite_slot(s: Seq<Entry>, i: int, kv: KeyValue)
    requires
        entries_wf(s),
        0 <= i < s.len(),
        s[i] is KeyValue,
        entry_key(s[i]) == kv.key@,
        kv.key.wf(),
    ensures
        entries_wf(s.update(i, Entry::KeyValue(kv))),
        live_map(s.update(i, Entry::KeyValue(kv))) == live_map(s).insert(kv.key@, kv.value),
{
    let s2 = s.update(i, Entry::KeyValue(kv));
    let k0 = kv.key@;
    assert(keys_wf(s2)) by {
        assert forall|j: int|
            0 <= j < s2.len() && (#[trigger] s2[j]) is KeyValue implies entry_hash(s2[j]) == hash_of(
            entry_key(s2[j]),
        ) by {
            if j != i {
                assert(s2[j] == s[j]);
            }
        }
    }
    assert(keys_unique(s2)) by {
        assert forall|a: int, b: int|
            0 <= a < s2.len() && 0 <= b < s2.len() && a != b && (#[trigger] s2[a]) is KeyValue && (
            #[trigger] s2[b]) is KeyValue implies entry_key(s2[a]) != entry_key(s2[b]) by {
            if a == i {
                assert(s2[b] == s[b]);
                assert(entry_key(s[i]) != entry_key(s[b]));
            } else if b == i {
                assert(s2[a] == s[a]);
                assert(entry_key(s[a]) != entry_key(s[i]));
            } else {
                assert(s2[a] == s[a]);
                assert(s2[b] == s[b]);
            }
        }
    }
    assert(chains_ok(s2)) by {
        assert(entry_hash(s2[i]) == entry_hash(s[i]));
        assert forall|j: int|
            0 <= j < s2.len() && (#[trigger] s2[j]) is KeyValue implies insert_pos_ok(
            s2,
            entry_hash(s2[j]),
            j,
        ) by {
            if j == i {
                assert(insert_pos_ok(s, entry_hash(s[i]), i));
                lemma_insert_pos_lift(s, i, Entry::KeyValue(kv), entry_hash(s[i]), i);
            } else {
                assert(s2[j] == s[j]);
                assert(insert_pos_ok(s, entry_hash(s[j]), j));
                lemma_insert_pos_lift(s, i, Entry::KeyValue(kv), entry_hash(s[j]), j);
            }
        }
    }
    let m1 = live_map(s2);
    let m2 = live_map(s).insert(k0, kv.value);
    assert forall|k: Seq<char>| #[trigger] m1.contains_key(k) implies m2.contains_key(k) && m1[k]
        == m2[k] by {
        let j = choose|j: int| 0 <= j < s2.len() && occupied_with(#[trigger] s2[j], k);
        if j == i {
            lemma_index_of(s2, i);
        } else {
            assert(s2[j] == s[j]);
            lemma_index_of(s2, j);
            lemma_index_of(s, j);
            assert(entry_key(s[j]) != entry_key(s[i]));
        }
    }
    assert forall|k: Seq<char>| #[trigger] m2.contains_key(k) implies m1.contains_key(k) by {
        if k == k0 {
            lemma_index_of(s2, i);
        } else {
            let j = choose|j: int| 0 <= j < s.len() && occupied_with(#[trigger] s[j], k);
            assert(j != i);
            assert(s2[j] == s[j]);
            assert(occupied_with(s2[j], k));
        }
    }
    assert(m1 =~= m2);
}

/// Turning a key's slot into a tombstone removes exactly that binding.
proof fn lemma_delete_slot(s: Seq<Entry>, i: int)
    requires
        entries_wf(s),
        0 <= i < s.len(),
        s[i] is KeyValue,
    ensures
        entries_wf(s.update(i, Entry::Tombstone)),
        live_map(s.update(i, Entry::Tombstone)) == live_map(s).remove(entry_key(s[i])),
{
    let s2 = s.update(i, Entry::Tombstone);
    let k0 = entry_key(s[i]);
    assert(keys_wf(s2)) by {
        assert forall|j: int|
            0 <= j < s2.len() && (#[trigger] s2[j]) is KeyValue implies entry_hash(s2[j]) == hash_of(
            entry_key(s2[j]),
        ) by {
            assert(s2[j] == s[j]);
        }
    }
    assert(keys_unique(s2)) by {
        assert forall|a: int, b: int|
            0 <= a < s2.len() && 0 <= b < s2.len() && a != b && (#[trigger] s2[a]) is KeyValue && (
            #[trigger] s2[b]) is KeyValue implies entry_key(s2[a]) != entry_key(s2[b]) by {
            assert(s2[a] == s[a]);
            assert(s2[b] == s[b]);
        }
    }
    assert(chains_ok(s2)) by {
        assert forall|j: int|
            0 <= j < s2.len() && (#[trigger] s2[j]) is KeyValue implies insert_pos_ok(
            s2,
            entry_hash(s2[j]),
            j,
        ) by {
            assert(s2[j] == s[j]);
            assert(insert_pos_ok(s, entry_hash(s[j]), j));
            lemma_insert_pos_lift(s, i, Entry::Tombstone, entry_hash(s[j]), j);
        }
    }
    let m1 = live_map(s2);
    let m2 = live_map(s).remove(k0);
    assert forall|k: Seq<char>| #[trigger] m1.contains_key(k) implies m2.contains_key(k) && m1[k]
        == m2[k] by {
        let j = choose|j: int| 0 <= j < s2.len() && occupied_with(#[trigger] s2[j], k);
        assert(j != i);
        assert(s2[j] == s[j]);
        lemma_index_of(s2, j);
        lemma_index_of(s, j);
        assert(entry_key(s[j]) != entry_key(s[i]));
    }
    assert forall|k: Seq<char>| #[trigger] m2.contains_key(k) implies m1.contains_key(k) by {
        let j = choose|j: int| 0 <= j < s.len() && occupied_with(#[trigger] s[j], k);
        if j == i {
            assert(k == k0);
        } else {
            assert(s2[j] == s[j]);
            assert(occupied_with(s2[j], k));
        }
    }
    assert(m1 =~= m2);
}

/// Appending a slot that is not occupied denotes the same map.
proof fn lemma_live_push_skip(s: Seq<Entry>, e: Entry)
    requires
        !(e is KeyValue),
        keys_unique(s),
    ensures
        live_map(s.push(e)) == live_map(s),
        keys_unique(s.push(e)),
{
    let s2 = s.push(e);
    assert(keys_unique(s2)) by {
        assert forall|a: int, b: int|
            0 <= a < s2.len() && 0 <= b < s2.len() && a != b && (#[trigger] s2[a]) is KeyValue && (
            #[trigger] s2[b]) is KeyValue implies entry_key(s2[a]) != entry_key(s2[b]) by {
            assert(a < s.len() && b < s.len());
            assert(s2[a] == s[a]);
            assert(s2[b] == s[b]);
        }
    }
    let m1 = live_map(s2);
    let m2 = live_map(s);
    assert forall|k: Seq<char>| #[trigger] m1.contains_key(k) implies m2.contains_key(k) && m1[k]
        == m2[k] by {
        let j = choose|j: int| 0 <= j < s2.len() && occupied_with(#[trigger] s2[j], k);
        assert(j < s.len());
        assert(s2[j] == s[j]);
        lemma_index_of(s2, j);
        lemma_index_of(s, j);
    }
    assert forall|k: Seq<char>| #[trigger] m2.contains_key(k) implies m1.contains_key(k) by {
        let j = choose|j: int| 0 <= j < s.len() && occupied_with(#[trigger] s[j], k);
        assert(s2[j] == s[j]);
        assert(occupied_with(s2[j], k));
    }
    assert(m1 =~= m2);
}

/// Appending an occupied slot for a fresh key adds exactly that binding.
proof fn lemma_live_push_occupied(s: Seq<Entry>, e: Entry)
    requires
        e is KeyValue,
        keys_unique(s),
        !has_key(s, entry_key(e)),
    ensures
        live_map(s.push(e)) == live_map(s).insert(entry_key(e), entry_value(e)),
        keys_unique(s.push(e)),
{
    let s2 = s.push(e);
    let k0 = entry_key(e);
    let n = s.len() as int;
    assert(s2[n] == e);
    assert(keys_unique(s2)) by {
        assert forall|a: int, b: int|
            0 <= a < s2.len() && 0 <= b < s2.len() && a != b && (#[trigger] s2[a]) is KeyValue && (
            #[trigger] s2[b]) is KeyValue implies entry_key(s2[a]) != entry_key(s2[b]) by {
            if a == n {
                assert(s2[b] == s[b]);
                if entry_key(s[b]) == k0 {
                    assert(occupied_with(s[b], k0));
                }
            } else if b == n {
                assert(s2[a] == s[a]);
                if entry_key(s[a]) == k0 {
                    assert(occupied_with(s[a], k0));
                }
            } else {
                assert(s2[a] == s[a]);
                assert(s2[b] == s[b]);
            }
        }
    }
    let m1 = live_map(s2);
    let m2 = live_map(s).insert(k0, entry_value(e));
    assert forall|k: Seq<char>| #[trigger] m1.contains_key(k) implies m2.contains_key(k) && m1[k]
        == m2[k] by {
        let j = choose|j: int| 0 <= j < s2.len() && occupied_with(#[trigger] s2[j], k);
        if j == n {
            lemma_index_of(s2, n);
        } else {
            assert(s2[j] == s[j]);
            lemma_index_of(s2, j);
            lemma_index_of(s, j);
            assert(entry_key(s2[j]) != entry_key(s2[n]));
        }
    }
    assert forall|k: Seq<char>| #[trigger] m2.contains_key(k) implies m1.contains_key(k) by {
        if k == k0 {
            lemma_index_of(s2, n);
        } else {
            let j = choose|j: int| 0 <= j < s.len() && occupied_with(#[trigger] s[j], k);
            assert(s2[j] == s[j]);
            assert(occupied_with(s2[j], k));
        }
    }
    assert(m1 =~= m2);
}

// ---------------------------------------------------------------------------
// The probing primitive
// ---------------------------------------------------------------------------
/// When a probe walk reaches an empty slot without having met its key, the
/// key occupies no slot at all: an occupied slot for it would have to be
/// reachable without crossing an empty slot.
proof fn lemma_no_key_when_empty(s: Seq<Entry>, k: Seq<char>, h: u32, j: int)
    requires
        s.len() > 0,
        entries_wf(s),
        h == hash_of(k),
        0 <= j < s.len(),
        forall|t: int|
            0 <= t < j ==> !(s[#[trigger] probe_at(start_of(h, s.len() as int), t, s.len() as int)] is Empty),
        forall|t: int|
            0 <= t < j ==> !occupied_with(
                s[#[trigger] probe_at(start_of(h, s.len() as int), t, s.len() as int)],
                k,
            ),
        s[probe_at(start_of(h, s.len() as int), j, s.len() as int)] is Empty,
    ensures
        !has_key(s, k),
{
    let cap = s.len() as int;
    let st = start_of(h, cap);
    lemma_mod_pos_bound(h as int, cap);
    assert forall|p: int| 0 <= p < s.len() implies !occupied_with(#[trigger] s[p], k) by {
        if occupied_with(s[p], k) {
            let dp = slot_dist(st, p, cap);
            lemma_probe_dist(st, p, cap);
            assert(entry_hash(s[p]) == hash_of(entry_key(s[p])));
            assert(insert_pos_ok(s, entry_hash(s[p]), p));
            if dp < j {
                assert(!occupied_with(s[probe_at(st, dp, cap)], k));
            } else if dp == j {
                assert(s[probe_at(st, j, cap)] is Empty);
            } else {
                assert(!(s[probe_at(st, j, cap)] is Empty));
            }
        }
    }
}

/// Walk the probe sequence of `key` from its hash's start slot. An exact
/// key match wins immediately; otherwise the walk remembers the first
/// tombstone it crosses and stops at the first empty slot, reporting the
/// remembered tombstone if there was one and the empty slot itself if not.
fn find_entry(entries: &Vec<Entry>, key: &Key) -> (res: FindResult)
    requires
        entries@.len() > 0,
        entries_wf(entries@),
        key.wf(),
        num_nonempty(entries@) < entries@.len(),
    ensures
        ({
            let s = entries@;
            match res {
                FindResult::Found(i) => i < s.len() && s[i as int] is KeyValue && entry_key(
                    s[i as int],
                ) == key@,
                FindResult::Available(i) => i < s.len() && s[i as int] is Empty && !has_key(s, key@)
                    && insert_pos_ok(s, key.spec_hash(), i as int),
                FindResult::Tombstone(i) => i < s.len() && s[i as int] is Tombstone && !has_key(
                    s,
                    key@,
                ) && insert_pos_ok(s, key.spec_hash(), i as int),
            }
        }),
{
    let cap = entries.len();
    let st = (key.hash as usize) % cap;
    proof {
        lemma_mod_pos_bound(key.hash as int, cap as int);
        lemma_exists_empty(entries@);
    }
    let ghost e_idx = choose|e: int| 0 <= e < entries@.len() && (#[trigger] entries@[e]) is Empty;
    let ghost de = slot_dist(st as int, e_idx, cap as int);
    proof {
        lemma_probe_dist(st as int, e_idx, cap as int);
        lemma_small_mod(st as nat, cap as nat);
    }
    let mut index = st;
    let mut tombstone: Option<usize> = None;
    let ghost mut j: int = 0;
    let ghost mut tdist: int = 0;
    loop
        invariant
            cap == entries@.len(),
            cap > 0,
            entries_wf(entries@),
            key.wf(),
            st < cap,
            st as int == start_of(key.spec_hash(), cap as int),
            0 <= j <= de,
            de < cap,
            entries@[probe_at(st as int, de, cap as int)] is Empty,
            index < cap,
            index as int == probe_at(st as int, j, cap as int),
            forall|t: int|
                0 <= t < j ==> !(entries@[#[trigger] probe_at(st as int, t, cap as int)] is Empty),
            forall|t: int|
                0 <= t < j ==> !occupied_with(
                    entries@[#[trigger] probe_at(st as int, t, cap as int)],
                    key@,
                ),
            match tombstone {
                Option::Some(ti) => 0 <= tdist < j && ti < cap && ti as int == probe_at(
                    st as int,
                    tdist,
                    cap as int,
                ) && entries@[ti as int] is Tombstone,
                Option::None => true,
            },
        decreases cap - j,
    {
        match &entries[index] {
            Entry::KeyValue(kv) => {
                if kv.key.name == key.name {
                    return FindResult::Found(index);
                }
            },
            Entry::Tombstone => {
                if tombstone.is_none() {
                    tombstone = Some(index);
                    proof {
                        tdist = j;
                    }
                }
            },
            Entry::Empty => {
                proof {
                    lemma_no_key_when_empty(entries@, key@, key.spec_hash(), j);
                }
                match tombstone {
                    Some(ti) => {
                        proof {
                            lemma_dist_probe(st as int, tdist, cap as int);
                        }
                        return FindResult::Tombstone(ti);
                    },
                    None => {
                        proof {
                            lemma_dist_probe(st as int, j, cap as int);
                        }
                        return FindResult::Available(index);
                    },
                }
            },
        }
        proof {
            assert(!(entries@[index as int] is Empty));
            assert(!occupied_with(entries@[index as int], key@));
            if j == de {
                assert(entries@[index as int] is Empty);
            }
            lemma_probe_step(st as int, j, cap as int);
            j = j + 1;
        }
        index = (index + 1) % cap;
    }
}

// ---------------------------------------------------------------------------
// Capacity arithmetic
// ---------------------------------------------------------------------------
#[verifier::rlimit(50)]
proof fn lemma_pow2_double(n: int)
    requires
        is_pow2(n),
        n >= 1,
    ensures
        is_pow2(2 * n),
{
    assert((2 * n) % 2 == 0);
    assert((2 * n) / 2 == n);
}

#[verifier::rlimit(50)]
proof fn lemma_pow2_multiple_of_4(n: int)
    requires
        is_pow2(n),
        n >= 8,
    ensures
        n % 4 == 0,
        4 * (n / 4) == n,
        n / 4 >= 2,
{
    assert(n % 2 == 0 && is_pow2(n / 2));
    assert(n == 2 * (n / 2));
    assert((n / 2) % 2 == 0);
    assert(n / 2 == 2 * ((n / 2) / 2));
    assert(n == 4 * ((n / 2) / 2));
    assert(n % 4 == 0);
    assert(4 * (n / 4) == n);
}

/// The executable growth test `count + 1 > 3 * (cap / 4)` agrees with
/// `needs_grow` on every capacity the table takes.
proof fn lemma_grow_check(count: int, cap: int)
    requires
        cap_ok(cap),
        count >= 0,
    ensures
        needs_grow(count, cap) <==> (count + 1 > 3 * (cap / 4)),
{
    if cap == 0 {
        assert(cap / 4 == 0);
    } else {
        lemma_pow2_multiple_of_4(cap);
    }
}

// ---------------------------------------------------------------------------
// The table
// ---------------------------------------------------------------------------
/// The hash table: a slot array plus the number of slots taken since the
/// last rebuild. `count` counts the non-empty slots — live entries and
/// tombstones together, since a delete leaves its slot taken; the growth
/// check therefore accounts for tombstones, and a probe always has an empty
/// slot to stop at.
#[derive(Debug)]
pub struct Table {
    pub count: usize,
    entries: Vec<Entry>,
}

impl View for Table {
    type V = Map<Seq<char>, Value>;

    /// The live contents: each key held by an occupied slot, bound to the
    /// value stored beside it.
    closed spec fn view(&self) -> Map<Seq<char>, Value> {
        live_map(self.entries@)
    }
}

impl Table {
    /// The length of the slot array.
    pub closed spec fn spec_capacity(&self) -> nat {
        self.entries@.len()
    }

    /// The `count` field, for contracts: the number of non-empty slots.
    pub closed spec fn spec_count(&self) -> nat {
        self.count as nat
    }

    /// The number of occupied slots: the keys the table actually holds.
    /// At most `spec_count()`; the difference is the tombstones.
    pub closed spec fn spec_live(&self) -> nat {
        num_occupied(self.entries@)
    }

    /// Internal consistency: occupied slots cache correct hashes, no key
    /// occupies two slots, every occupied slot is reachable from its probe
    /// start without crossing an empty slot, `count` counts the non-empty
    /// slots, the capacity is zero or a power of two of at least eight, and
    /// the non-empty slots never exceed three quarters of the capacity.
    pub closed spec fn wf(&self) -> bool {
        &&& entries_wf(self.entries@)
        &&& self.count as nat == num_nonempty(self.entries@)
        &&& cap_ok(self.entries@.len() as int)
        &&& 4 * (self.count as int) <= 3 * (self.entries@.len() as int)
    }

    /// A fresh table: no slots, nothing stored.
    pub fn new() -> (t: Table)
        ensures
            t.wf(),
            t@ == Map::<Seq<char>, Value>::empty(),
            t.spec_count() == 0,
            t.spec_live() == 0,
            t.spec_capacity() == 0,
    {
        let t = Table { count: 0, entries: Vec::new() };
        proof {
            lemma_no_occupied_no_map(t.entries@);
        }
        t
    }

    /// The current length of the slot array.
    pub fn capacity(&self) -> (c: usize)
        ensures
            c as nat == self.spec_capacity(),
    {
        self.entries.len()
    }

    /// Look a key up: the value stored under it, or nothing when the table
    /// does not hold the key. Never changes the table.
    pub fn get(&self, key: &Key) -> (r: Option<Value>)
        requires
            self.wf(),
            key.wf(),
        ensures
            r == (if self@.contains_key(key@) {
                Option::Some(self@[key@])
            } else {
                Option::<Value>::None
            }),
    {
        if self.entries.len() == 0 {
            proof {
                assert(!has_key(self.entries@, key@));
            }
            return None;
        }
        match find_entry(&self.entries, key) {
            FindResult::Found(index) => {
                match &self.entries[index] {
                    Entry::KeyValue(kv) => {
                        proof {
                            lemma_index_of(self.entries@, index as int);
                        }
                        Some(kv.value.clone())
                    },
                    _ => {
                        proof {
                            assert(false);
                        }
                        None
                    },
                }
            },
            _ => None,
        }
    }

    /// Rebuild the slot array at the given capacity: every occupied slot of
    /// the old array is re-probed into a fresh all-empty one, tombstones are
    /// dropped, and `count` is recomputed as the number of entries actually
    /// rewritten. The contents are unchanged.
    fn adjust_capacity(&mut self, capacity: usize)
        requires
            old(self).wf(),
            capacity >= 8,
            is_pow2(capacity as int),
            4 * (num_occupied(old(self).entries@) as int) <= 3 * (capacity as int),
        ensures
            final(self).wf(),
            final(self)@ == old(self)@,
            final(self).spec_capacity() == capacity as nat,
            final(self).count as nat == num_occupied(old(self).entries@),
            final(self).spec_live() == num_occupied(old(self).entries@),
            forall|j: int|
                0 <= j < final(self).entries@.len() ==> !((#[trigger] final(self).entries@[j]) is Tombstone),
    {
        let mut entries: Vec<Entry> = Vec::new();
        let mut i: usize = 0;
        while i < capacity
            invariant
                entries@.len() == i,
                i <= capacity,
                forall|j: int| 0 <= j < i ==> (#[trigger] entries@[j]) is Empty,
            decreases capacity - i,
        {
            entries.push(Entry::Empty);
            i = i + 1;
        }
        proof {
            lemma_empty_seq_counts(entries@);
            lemma_no_occupied_no_map(entries@);
            assert(old(self).entries@.take(0) =~= Seq::<Entry>::empty());
            lemma_no_occupied_no_map(old(self).entries@.take(0));
        }
        self.count = 0;
        let ghost old_entries = self.entries@;
        let mut idx: usize = 0;
        while idx < self.entries.len()
            invariant
                self.entries@ == old_entries,
                entries_wf(old_entries),
                idx <= old_entries.len(),
                capacity >= 8,
                4 * (num_occupied(old_entries) as int) <= 3 * (capacity as int),
                entries@.len() == capacity,
                entries_wf(entries@),
                forall|j: int| 0 <= j < entries@.len() ==> !((#[trigger] entries@[j]) is Tombstone),
                self.count as nat == num_nonempty(entries@),
                self.count as nat == num_occupied(entries@),
                self.count as nat == num_occupied(old_entries.take(idx as int)),
                live_map(entries@) == live_map(old_entries.take(idx as int)),
            decreases old_entries.len() - idx,
        {
            let ghost pre_take = old_entries.take(idx as int);
            proof {
                assert(old_entries.take(idx as int + 1) =~= pre_take.push(
                    old_entries[idx as int],
                ));
                lemma_counts_push(pre_take, old_entries[idx as int]);
                lemma_num_occupied_take_le(old_entries, idx as int);
                assert forall|a: int, b: int|
                    0 <= a < pre_take.len() && 0 <= b < pre_take.len() && a != b && (
                    #[trigger] pre_take[a]) is KeyValue && (#[trigger] pre_take[b]) is KeyValue implies entry_key(
                    pre_take[a],
                ) != entry_key(pre_take[b]) by {
                    assert(pre_take[a] == old_entries[a]);
                    assert(pre_take[b] == old_entries[b]);
                }
            }
            match &self.entries[idx] {
                Entry::KeyValue(kv) => {
                    let kvc = kv.clone();
                    let ghost kvg = kvc;
                    proof {
                        lemma_occupied_le_nonempty(entries@);
                    }
                    match find_entry(&entries, &kvc.key) {
                        FindResult::Available(fidx) => {
                            self.count = self.count + 1;
                            let ghost ea = entries@;
                            entries[fidx] = Entry::KeyValue(kvc);
                            proof {
                                assert(!has_key(pre_take, kvg.key@)) by {
                                    if has_key(pre_take, kvg.key@) {
                                        let w = choose|w: int|
                                            0 <= w < pre_take.len() && occupied_with(
                                                #[trigger] pre_take[w],
                                                kvg.key@,
                                            );
                                        assert(pre_take[w] == old_entries[w]);
                                        lemma_index_of(pre_take, w);
                                        assert(live_map(ea).contains_key(kvg.key@));
                                    }
                                };
                                lemma_fill_slot(ea, fidx as int, kvg);
                                lemma_num_nonempty_update(ea, fidx as int, Entry::KeyValue(kvg));
                                lemma_num_occupied_update(ea, fidx as int, Entry::KeyValue(kvg));
                                lemma_live_push_occupied(pre_take, old_entries[idx as int]);
                            }
                        },
                        FindResult::Found(f) => {
                            proof {
                                assert(occupied_with(entries@[f as int], kvg.key@));
                                assert(live_map(entries@).contains_key(kvg.key@));
                                let w = choose|w: int|
                                    0 <= w < pre_take.len() && occupied_with(
                                        #[trigger] pre_take[w],
                                        kvg.key@,
                                    );
                                assert(pre_take[w] == old_entries[w]);
                                assert(entry_key(old_entries[w]) == entry_key(
                                    old_entries[idx as int],
                                ));
                                assert(false);
                            }
                        },
                        FindResult::Tombstone(t) => {
                            proof {
                                assert(entries@[t as int] is Tombstone);
                                assert(false);
                            }
                        },
                    }
                },
                _ => {
                    proof {
                        lemma_live_push_skip(pre_take, old_entries[idx as int]);
                    }
                },
            }
            idx = idx + 1;
        }
        proof {
            assert(old_entries.take(old_entries.len() as int) =~= old_entries);
        }
        self.entries = entries;
    }

    /// Store `value` under `key`, overwriting any value already there. The
    /// array grows first — to eight slots, or to twice its size — whenever
    /// one more taken slot would exceed three quarters of the capacity;
    /// growth rebuilds the array from the live entries and drops tombstones.
    /// The write lands in the key's own slot if the key is present, in the
    /// first tombstone crossed on its probe walk if there is one, and in the
    /// first empty slot otherwise; only the last case raises `count`.
    pub fn set(&mut self, key: &Key, value: &Value)
        requires
            old(self).wf(),
            key.wf(),
            2 * old(self).spec_capacity() <= usize::MAX as nat,
        ensures
            final(self).wf(),
            final(self)@ == old(self)@.insert(key@, *value),
            final(self).spec_capacity() as int == grown_capacity(
                old(self).spec_count() as int,
                old(self).spec_capacity() as int,
            ),
            old(self)@.contains_key(key@) && !needs_grow(
                old(self).spec_count() as int,
                old(self).spec_capacity() as int,
            ) ==> final(self).spec_count() == old(self).spec_count(),
            final(self).spec_count() <= old(self).spec_count() + 1,
            needs_grow(old(self).spec_count() as int, old(self).spec_capacity() as int)
                && old(self)@.contains_key(key@) ==> final(self).spec_count() == old(
                self,
            ).spec_live(),
            needs_grow(old(self).spec_count() as int, old(self).spec_capacity() as int) && !old(
                self,
            )@.contains_key(key@) ==> final(self).spec_count() == old(self).spec_live() + 1,
            old(self).spec_count() <= final(self).spec_count() || needs_grow(
                old(self).spec_count() as int,
                old(self).spec_capacity() as int,
            ),
            old(self)@.contains_key(key@) ==> final(self).spec_live() == old(self).spec_live(),
            !old(self)@.contains_key(key@) ==> final(self).spec_live() == old(self).spec_live()
                + 1,
            4 * (final(self).spec_count() as int) <= 3 * (final(self).spec_capacity() as int),
    {
        let cap = self.entries.len();
        proof {
            lemma_grow_check(self.count as int, cap as int);
        }
        if self.count + 1 > 3 * (cap / 4) {
            let capacity = if cap < 8 {
                8
            } else {
                cap * 2
            };
            proof {
                lemma_occupied_le_nonempty(self.entries@);
                if cap >= 8 {
                    lemma_pow2_double(cap as int);
                } else {
                    reveal_with_fuel(is_pow2, 5);
                    assert(is_pow2(8));
                }
            }
            self.adjust_capacity(capacity);
        }
        let ghost s0 = self.entries@;
        proof {
            lemma_occupied_le_nonempty(s0);
        }
        let kv = KeyValue { key: key.clone(), value: value.clone() };
        let ghost kvg = kv;
        match find_entry(&self.entries, key) {
            FindResult::Found(index) => {
                proof {
                    lemma_index_of(s0, index as int);
                }
                self.entries[index] = Entry::KeyValue(kv);
                proof {
                    lemma_overwrite_slot(s0, index as int, kvg);
                    lemma_num_nonempty_update(s0, index as int, Entry::KeyValue(kvg));
                    lemma_num_occupied_update(s0, index as int, Entry::KeyValue(kvg));
                }
            },
            FindResult::Available(index) => {
                self.count = self.count + 1;
                self.entries[index] = Entry::KeyValue(kv);
                proof {
                    lemma_fill_slot(s0, index as int, kvg);
                    lemma_num_nonempty_update(s0, index as int, Entry::KeyValue(kvg));
                    lemma_num_occupied_update(s0, index as int, Entry::KeyValue(kvg));
                }
            },
            FindResult::Tombstone(index) => {
                self.entries[index] = Entry::KeyValue(kv);
                proof {
                    if needs_grow(
                        old(self).spec_count() as int,
                        old(self).spec_capacity() as int,
                    ) {
                        // a rebuilt array holds no tombstone to land in
                        assert(s0[index as int] is Tombstone);
                        assert(false);
                    }
                    lemma_fill_slot(s0, index as int, kvg);
                    lemma_num_nonempty_update(s0, index as int, Entry::KeyValue(kvg));
                    lemma_num_occupied_update(s0, index as int, Entry::KeyValue(kvg));
                }
            },
        }
    }

    /// Remove `key`: its slot becomes a tombstone, so later probes still
    /// walk across it. A delete never changes `count` or the capacity, and
    /// deleting a key the table does not hold changes nothing at all.
    pub fn delete(&mut self, key: &Key)
        requires
            old(self).wf(),
            key.wf(),
        ensures
            final(self).wf(),
            final(self)@ == old(self)@.remove(key@),
            final(self).spec_count() == old(self).spec_count(),
            final(self).spec_capacity() == old(self).spec_capacity(),
            old(self)@.contains_key(key@) ==> final(self).spec_live() + 1 == old(self).spec_live(),
            !old(self)@.contains_key(key@) ==> final(self).spec_live() == old(self).spec_live(),
    {
        if self.count == 0 {
            proof {
                lemma_all_empty(self.entries@);
                lemma_no_occupied_no_map(self.entries@);
                assert(self@.remove(key@) =~= self@);
            }
            return;
        }
        let ghost s0 = self.entries@;
        match find_entry(&self.entries, key) {
            FindResult::Found(index) => {
                proof {
                    lemma_index_of(s0, index as int);
                }
                self.entries[index] = Entry::Tombstone;
                proof {
                    lemma_delete_slot(s0, index as int);
                    lemma_num_nonempty_update(s0, index as int, Entry::Tombstone);
                    lemma_num_occupied_update(s0, index as int, Entry::Tombstone);
                }
            },
            _ => {
                proof {
                    assert(self@.remove(key@) =~= self@);
                }
            },
        }
    }
}

/// Shape of any well-formed table: the capacity is zero or a power of two
/// of at least eight, and the taken slots — the `count` field — never
/// exceed three quarters of the capacity, so a probe walk always has an
/// empty slot to stop at.
pub proof fn lemma_table_shape(t: Table)
    requires
        t.wf(),
    ensures
        t.spec_capacity() == 0 || (t.spec_capacity() >= 8 && is_pow2(t.spec_capacity() as int)),
        4 * (t.spec_count() as int) <= 3 * (t.spec_capacity() as int),
        t.spec_live() <= t.spec_count(),
{
    lemma_occupied_le_nonempty(t.entries@);
}

} // verus!
