use vstd::prelude::*;
use crate::format::{EntryView, entries_view, latest};

verus! {

/// No two rows of the table share a name.
pub open spec fn keys_unique<V>(t: Seq<(Vec<u8>, V)>) -> bool {
    forall|i: int, j: int| 0 <= i < j < t.len() ==> t[i].0@ != t[j].0@
}

/// Some row of the table has the name `k`.
pub open spec fn has_key<V>(t: Seq<(Vec<u8>, V)>, k: Seq<u8>) -> bool {
    exists|i: int| 0 <= i < t.len() && #[trigger] t[i].0@ == k
}

/// The table has exactly the names of the mapping, once each.
pub open spec fn keys_match<V>(t: Seq<(Vec<u8>, V)>, m: Map<Seq<u8>, Seq<u8>>) -> bool {
    &&& keys_unique(t)
    &&& forall|k: Seq<u8>| #[trigger] m.contains_key(k) <==> has_key(t, k)
}

/// The table holds the mapping: its names, once each, with their payloads.
pub open spec fn holds(t: Seq<(Vec<u8>, Vec<u8>)>, m: Map<Seq<u8>, Seq<u8>>) -> bool {
    &&& keys_match(t, m)
    &&& forall|i: int| 0 <= i < t.len() ==> m[#[trigger] t[i].0@] == t[i].1@
}

/// Sets the value for `name`: the row of that name is replaced, or a row
/// is added at the end.
pub fn insert_latest<V>(table: &mut Vec<(Vec<u8>, V)>, name: Vec<u8>, value: V)
    requires
        keys_unique(old(table)@),
    ensures
        keys_unique(final(table)@),
        (exists|i: int|
            0 <= i < old(table)@.len() && #[trigger] old(table)@[i].0@ == name@ && final(table)@
                == old(table)@.update(i, (name, value))) || (!has_key(old(table)@, name@)
            && final(table)@ == old(table)@.push((name, value))),
{
    let ghost orig = table@;
    let ghost key = name@;
    let mut i: usize = 0;
    while i < table.len()
        invariant
            i <= table.len(),
            table@ == orig,
            orig == old(table)@,
            keys_unique(orig),
            key == name@,
            forall|k: int| 0 <= k < i ==> (#[trigger] table@[k]).0@ != name@,
        decreases table.len() - i,
    {
        if vec_eq(&table[i].0, &name) {
            let ghost before = table@;
            let ghost row = (name, value);
            table.set(i, (name, value));
            assert(before[i as int].0@ == key);
            assert(table@ == before.update(i as int, row));
            assert(keys_unique(table@)) by {
                assert forall|a: int, b: int| 0 <= a < b < table@.len() implies table@[a].0@
                    != table@[b].0@ by {
                    if a != i && b != i {
                        assert(table@[a] == before[a] && table@[b] == before[b]);
                    } else if a == i {
                        assert(table@[b] == before[b]);
                        assert(table@[a].0@ == key);
                    } else {
                        assert(table@[a] == before[a]);
                        assert(table@[b].0@ == key);
                    }
                }
            }
            assert(orig[i as int].0@ == key && table@ == orig.update(i as int, row));
            return;
        }
        i += 1;
    }
    assert(!has_key(orig, key));
    table.push((name, value));
    assert(keys_unique(table@)) by {
        assert forall|a: int, b: int| 0 <= a < b < table@.len() implies table@[a].0@
            != table@[b].0@ by {
            if b < orig.len() {
                assert(table@[a] == orig[a] && table@[b] == orig[b]);
            } else {
                assert(table@[a] == orig[a]);
            }
        }
    }
}

/// Byte-wise equality of two names.
pub fn vec_eq(a: &Vec<u8>, b: &Vec<u8>) -> (r: bool)
    ensures
        r == (a@ == b@),
{
    if a.len() != b.len() {
        return false;
    }
    let mut i: usize = 0;
    while i < a.len()
        invariant
            i <= a.len(),
            a.len() == b.len(),
            forall|k: int| 0 <= k < i ==> a@[k] == b@[k],
        decreases a.len() - i,
    {
        if a[i] != b[i] {
            return false;
        }
        i += 1;
    }
    assert(a@ =~= b@);
    true
}

/// Keeping the table in step with `latest` over one more entry.
pub proof fn lemma_insert_keeps_keys<V>(
    before: Seq<(Vec<u8>, V)>,
    after: Seq<(Vec<u8>, V)>,
    es: Seq<EntryView>,
    name: Vec<u8>,
    value: V,
    payload: Seq<u8>,
)
    requires
        keys_match(before, latest(es)),
        keys_unique(after),
        (exists|i: int|
            0 <= i < before.len() && #[trigger] before[i].0@ == name@ && after == before.update(
                i,
                (name, value),
            )) || (!has_key(before, name@) && after == before.push((name, value))),
    ensures
        keys_match(after, latest(es.push((name@, payload)))),
        forall|i: int|
            0 <= i < after.len() ==> (#[trigger] after[i]).0@ == name@ && after[i].1 == value
                || exists|j: int| 0 <= j < before.len() && #[trigger] before[j] == after[i]
                && before[j].0@ != name@,
{
    let es2 = es.push((name@, payload));
    assert(es2.drop_last() =~= es);
    let m = latest(es2);
    assert(m == latest(es).insert(name@, payload));
    if exists|i: int|
        0 <= i < before.len() && #[trigger] before[i].0@ == name@ && after == before.update(
            i,
            (name, value),
        ) {
        let i = choose|i: int|
            0 <= i < before.len() && #[trigger] before[i].0@ == name@ && after == before.update(
                i,
                (name, value),
            );
        assert forall|k: Seq<u8>| #[trigger] m.contains_key(k) <==> has_key(after, k) by {
            if has_key(before, k) {
                let j = choose|j: int| 0 <= j < before.len() && #[trigger] before[j].0@ == k;
                assert(after[j].0@ == k);
            }
            if has_key(after, k) {
                let j = choose|j: int| 0 <= j < after.len() && #[trigger] after[j].0@ == k;
                assert(before[j].0@ == k);
            }
        }
        assert forall|a: int|
            0 <= a < after.len() implies (#[trigger] after[a]).0@ == name@ && after[a].1 == value
            || exists|j: int| 0 <= j < before.len() && #[trigger] before[j] == after[a]
            && before[j].0@ != name@ by {
            if a != i {
                assert(before[a] == after[a]);
                assert(before[a].0@ != name@);
            }
        }
    } else {
        assert forall|k: Seq<u8>| #[trigger] m.contains_key(k) <==> has_key(after, k) by {
            if has_key(before, k) {
                let j = choose|j: int| 0 <= j < before.len() && #[trigger] before[j].0@ == k;
                assert(after[j].0@ == k);
            }
            if has_key(after, k) {
                let j = choose|j: int| 0 <= j < after.len() && #[trigger] after[j].0@ == k;
                if j < before.len() {
                    assert(before[j].0@ == k);
                }
            }
            if k == name@ {
                assert(after[before.len() as int].0@ == k);
            }
        }
        assert forall|a: int|
            0 <= a < after.len() implies (#[trigger] after[a]).0@ == name@ && after[a].1 == value
            || exists|j: int| 0 <= j < before.len() && #[trigger] before[j] == after[a]
            && before[j].0@ != name@ by {
            if a < before.len() {
                assert(before[a] == after[a]);
                assert(before[a].0@ != name@);
            }
        }
    }
}

} // verus!
