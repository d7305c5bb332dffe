//! Tables that are kept as a list of entries, none of which has the key of
//! another: what such a list says, and what a change of it changes.

use vstd::prelude::*;

verus! {

/// Whether no key occurs twice.
pub open spec fn keys_differ<K, V>(entries: Seq<(K, V)>) -> bool {
    forall|i: int, j: int|
        0 <= i < j < entries.len() ==> (#[trigger] entries[i]).0 != (#[trigger] entries[j]).0
}

/// What the entries say, by the key.
pub open spec fn table_of<K, V>(entries: Seq<(K, V)>) -> Map<K, V>
    decreases entries.len(),
{
    if entries.len() == 0 {
        Map::empty()
    } else {
        table_of(entries.drop_last()).insert(entries.last().0, entries.last().1)
    }
}

/// What the entries say, entry by entry.
pub proof fn lemma_table<K, V>(entries: Seq<(K, V)>)
    requires
        keys_differ(entries),
    ensures
        forall|i: int|
            0 <= i < entries.len() ==> {
                &&& table_of(entries).contains_key((#[trigger] entries[i]).0)
                &&& table_of(entries)[entries[i].0] == entries[i].1
            },
        forall|key: K| #[trigger]
            table_of(entries).contains_key(key) ==> exists|i: int|
                0 <= i < entries.len() && (#[trigger] entries[i]).0 == key,
    decreases entries.len(),
{
    if entries.len() > 0 {
        let most = entries.drop_last();
        assert forall|i: int, j: int| 0 <= i < j < most.len() implies (#[trigger] most[i]).0 != (
        #[trigger] most[j]).0 by {
            assert(most[i] == entries[i] && most[j] == entries[j]);
        }
        lemma_table(most);
        assert forall|i: int| 0 <= i < entries.len() implies table_of(entries).contains_key(
            (#[trigger] entries[i]).0,
        ) && table_of(entries)[entries[i].0] == entries[i].1 by {
            if i < most.len() {
                assert(most[i] == entries[i]);
                assert(entries[i].0 != entries[entries.len() - 1].0);
            }
        }
        assert forall|key: K| #[trigger] table_of(entries).contains_key(key) implies exists|i: int|
            0 <= i < entries.len() && (#[trigger] entries[i]).0 == key by {
            if key == entries.last().0 {
                assert(entries[entries.len() - 1].0 == key);
            } else {
                assert(table_of(most).contains_key(key));
                let i = choose|i: int| 0 <= i < most.len() && (#[trigger] most[i]).0 == key;
                assert(entries[i].0 == key);
            }
        }
    }
}

/// An entry with a new key, put behind the others, adds that key.
pub proof fn lemma_table_push<K, V>(entries: Seq<(K, V)>, key: K, value: V)
    requires
        keys_differ(entries),
        forall|i: int| 0 <= i < entries.len() ==> (#[trigger] entries[i]).0 != key,
    ensures
        keys_differ(entries.push((key, value))),
        table_of(entries.push((key, value))) == table_of(entries).insert(key, value),
{
    let after = entries.push((key, value));
    assert(after.drop_last() == entries);
    assert forall|i: int, j: int| 0 <= i < j < after.len() implies (#[trigger] after[i]).0 != (
    #[trigger] after[j]).0 by {
        assert(after[i] == entries[i]);
        if j < entries.len() {
            assert(after[j] == entries[j]);
        }
    }
}

/// A new value in an entry changes what is said of its key, and nothing else.
pub proof fn lemma_table_update<K, V>(entries: Seq<(K, V)>, at: int, value: V)
    requires
        keys_differ(entries),
        0 <= at < entries.len(),
    ensures
        keys_differ(entries.update(at, (entries[at].0, value))),
        table_of(entries.update(at, (entries[at].0, value))) == table_of(entries).insert(
            entries[at].0,
            value,
        ),
{
    let after = entries.update(at, (entries[at].0, value));
    assert forall|i: int| 0 <= i < after.len() implies (#[trigger] after[i]).0 == entries[i].0 by {}
    assert forall|i: int, j: int| 0 <= i < j < after.len() implies (#[trigger] after[i]).0 != (
    #[trigger] after[j]).0 by {
        assert(entries[i].0 != entries[j].0);
    }
    lemma_table(entries);
    lemma_table(after);
    let expected = table_of(entries).insert(entries[at].0, value);
    assert forall|key: K| table_of(after).contains_key(key) <==> expected.contains_key(key) by {
        if table_of(after).contains_key(key) {
            let i = choose|i: int| 0 <= i < after.len() && (#[trigger] after[i]).0 == key;
            assert(entries[i].0 == key);
        }
        if table_of(entries).contains_key(key) {
            let i = choose|i: int| 0 <= i < entries.len() && (#[trigger] entries[i]).0 == key;
            assert(after[i].0 == key);
        }
        if key == entries[at].0 {
            assert(after[at].0 == key);
        }
    }
    assert forall|key: K| #[trigger] table_of(after).contains_key(key) implies table_of(after)[key]
        == expected[key] by {
        let i = choose|i: int| 0 <= i < after.len() && (#[trigger] after[i]).0 == key;
        assert(entries[i].0 == key);
        if i < at {
            assert(entries[i].0 != entries[at].0);
        } else if at < i {
            assert(entries[at].0 != entries[i].0);
        }
    }
    assert(table_of(after) =~= expected);
}

/// Taking an entry out takes its key out of the table, and nothing else.
pub proof fn lemma_table_remove<K, V>(entries: Seq<(K, V)>, at: int)
    requires
        keys_differ(entries),
        0 <= at < entries.len(),
    ensures
        keys_differ(entries.remove(at)),
        table_of(entries.remove(at)) == table_of(entries).remove(entries[at].0),
{
    let after = entries.remove(at);
    assert forall|i: int, j: int| 0 <= i < j < after.len() implies (#[trigger] after[i]).0 != (
    #[trigger] after[j]).0 by {
        let k = if i < at { i } else { i + 1 };
        let l = if j < at { j } else { j + 1 };
        assert(after[i] == entries[k] && after[j] == entries[l]);
    }
    lemma_table(entries);
    lemma_table(after);
    let expected = table_of(entries).remove(entries[at].0);
    assert forall|key: K| table_of(after).contains_key(key) <==> expected.contains_key(key) by {
        if table_of(after).contains_key(key) {
            let i = choose|i: int| 0 <= i < after.len() && (#[trigger] after[i]).0 == key;
            let k = if i < at { i } else { i + 1 };
            assert(after[i] == entries[k]);
            if k < at {
                assert(entries[k].0 != entries[at].0);
            } else {
                assert(entries[at].0 != entries[k].0);
            }
        }
        if expected.contains_key(key) {
            let k = choose|k: int| 0 <= k < entries.len() && (#[trigger] entries[k]).0 == key;
            let i = if k < at { k } else { k - 1 };
            assert(after[i] == entries[k]);
        }
    }
    assert forall|key: K| #[trigger] table_of(after).contains_key(key) implies table_of(after)[key]
        == expected[key] by {
        let i = choose|i: int| 0 <= i < after.len() && (#[trigger] after[i]).0 == key;
        let k = if i < at { i } else { i + 1 };
        assert(after[i] == entries[k]);
    }
    assert(table_of(after) =~= expected);
}

} // verus!
