//! Laws relating the public operations to one another, stated over the
//! mathematical map that `get`, `set` and `delete` are specified against:
//! `set` yields a table whose view is `old@.insert(key@, value)`, `delete`
//! one whose view is `old@.remove(key@)`, and `get` returns `Some(self@[key@])`
//! exactly when `self@` contains the key.

use crate::table::{Key, Table, Value};
use vstd::prelude::*;

verus! {

/// Round trip: storing `v` under `k` and immediately looking `k` up yields
/// exactly `v`. `t1` is any table a `set` of `(k, v)` on `t0` leaves behind;
/// by `get`'s contract, the lookup then returns `Some(v)`.
pub proof fn lemma_round_trip(t0: Table, t1: Table, k: Key, v: Value)
    requires
        t1@ == t0@.insert(k@, v),
    ensures
        t1@.contains_key(k@),
        t1@[k@] == v,
{
}

/// Absence: a key that was never stored is reported absent. A fresh table
/// (`Table::new` yields the empty map) holds no key, storing a different key
/// does not make it present, and no delete makes it present; by `get`'s
/// contract, the lookup of such a key returns `None`.
pub proof fn lemma_absence(t: Table, k: Key, other: Key, v: Value)
    ensures
        !Map::<Seq<char>, Value>::empty().contains_key(k@),
        !t@.contains_key(k@) && other@ != k@ ==> !t@.insert(other@, v).contains_key(k@),
        !t@.contains_key(k@) ==> !t@.remove(other@).contains_key(k@),
{
}

/// Overwrite: a second set of the same key replaces the value, and a lookup
/// afterwards yields the newer one. The first set leaves the key present,
/// so by `set`'s contract the second set leaves `count` unchanged whenever
/// it does not grow the table.
pub proof fn lemma_overwrite(t0: Table, t1: Table, t2: Table, k: Key, v1: Value, v2: Value)
    requires
        t1@ == t0@.insert(k@, v1),
        t2@ == t1@.insert(k@, v2),
    ensures
        t1@.contains_key(k@),
        t2@.contains_key(k@),
        t2@[k@] == v2,
{
}

/// Delete then absent: after storing `k` and deleting it, a lookup of `k`
/// reports it absent.
pub proof fn lemma_delete_then_absent(t0: Table, t1: Table, t2: Table, k: Key, v: Value)
    requires
        t1@ == t0@.insert(k@, v),
        t2@ == t1@.remove(k@),
    ensures
        !t2@.contains_key(k@),
{
}

/// Deleting a key the table does not hold changes nothing: the view after
/// the delete is the view before it (and `delete`'s own contract already
/// keeps `count` and the capacity).
pub proof fn lemma_delete_absent_noop(t: Table, k: Key)
    requires
        !t@.contains_key(k@),
    ensures
        t@.remove(k@) == t@,
{
    assert(t@.remove(k@) =~= t@);
}

/// Reusing a deleted key's slot loses no data: after storing `k1`, deleting
/// it, and storing a different key `k2` — however the probe walks land —
/// `k2` is retrievable with its value and `k1` stays absent.
pub proof fn lemma_reinsert_after_delete(
    t0: Table,
    t1: Table,
    t2: Table,
    t3: Table,
    k1: Key,
    k2: Key,
    v1: Value,
    v2: Value,
)
    requires
        k1@ != k2@,
        t1@ == t0@.insert(k1@, v1),
        t2@ == t1@.remove(k1@),
        t3@ == t2@.insert(k2@, v2),
    ensures
        t3@.contains_key(k2@),
        t3@[k2@] == v2,
        !t3@.contains_key(k1@),
{
}

/// Growth loses no data: a set — growth and rebuild included — changes no
/// other key's presence or value, so every key stored earlier stays
/// retrievable with its latest value.
pub proof fn lemma_set_preserves_others(t0: Table, t1: Table, k: Key, v: Value, other: Seq<char>)
    requires
        t1@ == t0@.insert(k@, v),
        other != k@,
    ensures
        t1@.contains_key(other) == t0@.contains_key(other),
        t0@.contains_key(other) ==> t1@[other] == t0@[other],
{
}

} // verus!
