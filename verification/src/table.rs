//! Tables: vectors of key-value pairs kept in the order of their keys, each
//! key at most once.
use crate::order::{strict_order, Placement, SortKey};
use vstd::prelude::*;

verus! {

/// The entry `i` is the one under `key`.
pub open spec fn entry_at<K: View, V>(entries: Seq<(K, V)>, key: K::V, i: int) -> bool {
    0 <= i < entries.len() && entries[i].0@ == key
}

/// Some entry is under `key`.
pub open spec fn has_key<K: View, V>(entries: Seq<(K, V)>, key: K::V) -> bool {
    exists|i: int| #[trigger] entry_at(entries, key, i)
}

/// The position of the entry under `key`.
pub open spec fn position<K: View, V>(entries: Seq<(K, V)>, key: K::V) -> int {
    choose|i: int| #[trigger] entry_at(entries, key, i)
}

/// The keys, in order.
pub open spec fn keys<K: View, V>(entries: Seq<(K, V)>) -> Seq<K::V> {
    Seq::new(entries.len(), |i: int| entries[i].0@)
}

/// The table as a map.
pub open spec fn contents<K: View, V>(entries: Seq<(K, V)>) -> Map<K::V, V> {
    Map::new(|key: K::V| has_key(entries, key), |key: K::V| entries[position(entries, key)].1)
}

/// The keys stand in ascending order, none of them twice.
pub open spec fn ascending<K: SortKey, V>(entries: Seq<(K, V)>) -> bool {
    forall|i: int, j: int|
        #![trigger entries[i], entries[j]]
        0 <= i < j < entries.len() ==> K::before(entries[i].0@, entries[j].0@)
}

/// In an ascending table each key has one position.
pub proof fn lemma_position<K: SortKey, V>(entries: Seq<(K, V)>, i: int)
    requires
        ascending(entries),
        0 <= i < entries.len(),
    ensures
        has_key(entries, entries[i].0@),
        position(entries, entries[i].0@) == i,
        contents(entries).contains_key(entries[i].0@),
        contents(entries)[entries[i].0@] == entries[i].1,
{
    K::lemma_before_order();
    let lt = |a: K::V, b: K::V| K::before(a, b);
    let key = entries[i].0@;
    assert(entry_at(entries, key, i));
    let j = position(entries, key);
    assert(entry_at(entries, key, j));
    assert(!lt(key, key));
}

/// Replacing the value of one entry replaces it in the map.
pub proof fn lemma_replaced<K: SortKey, V>(before: Seq<(K, V)>, after: Seq<(K, V)>, i: int)
    requires
        ascending(before),
        0 <= i < before.len(),
        after.len() == before.len(),
        after[i].0@ == before[i].0@,
        forall|j: int| 0 <= j < before.len() && j != i ==> after[j] == before[j],
    ensures
        ascending(after),
        contents(after) == contents(before).insert(before[i].0@, after[i].1),
{
    let key = before[i].0@;
    assert(ascending(after)) by {
        assert forall|p: int, q: int|
            #![trigger after[p], after[q]]
            0 <= p < q < after.len() implies K::before(after[p].0@, after[q].0@) by {
            assert(before[p].0@ == after[p].0@);
            assert(before[q].0@ == after[q].0@);
        }
    }
    lemma_position(before, i);
    lemma_position(after, i);
    assert forall|k: K::V| contents(after).contains_key(k) == contents(before).insert(
        key,
        after[i].1,
    ).contains_key(k) by {
        if has_key(after, k) {
            let j = position(after, k);
            assert(entry_at(before, k, j));
        }
        if has_key(before, k) {
            let j = position(before, k);
            assert(entry_at(after, k, j));
        }
    }
    assert forall|k: K::V| contents(after).contains_key(k) implies contents(after)[k]
        == contents(before).insert(key, after[i].1)[k] by {
        let j = position(after, k);
        assert(entry_at(after, k, j));
        lemma_position(after, j);
        lemma_position(before, j);
    }
    assert(contents(after) =~= contents(before).insert(key, after[i].1));
}

/// Inserting an entry at its place inserts it in the map.
pub proof fn lemma_inserted<K: SortKey, V>(
    before: Seq<(K, V)>,
    after: Seq<(K, V)>,
    i: int,
    key: K::V,
)
    requires
        ascending(before),
        0 <= i <= before.len(),
        after.len() == before.len() + 1,
        after[i].0@ == key,
        forall|j: int| 0 <= j < i ==> after[j] == before[j],
        forall|j: int| i <= j < before.len() ==> #[trigger] after[j + 1] == before[j],
        forall|j: int| 0 <= j < i ==> K::before((#[trigger] before[j]).0@, key),
        forall|j: int| i <= j < before.len() ==> K::before(key, (#[trigger] before[j]).0@),
    ensures
        ascending(after),
        !has_key(before, key),
        contents(after) == contents(before).insert(key, after[i].1),
{
    K::lemma_before_order();
    let lt = |a: K::V, b: K::V| K::before(a, b);
    assert(strict_order(lt));
    assert forall|p: int, q: int|
        #![trigger after[p], after[q]]
        0 <= p < q < after.len() implies K::before(after[p].0@, after[q].0@) by {
        if p >= i + 1 {
            assert(after[p] == before[p - 1]) by {
                assert(after[(p - 1) + 1] == before[p - 1]);
            }
        }
        if q >= i + 1 {
            assert(after[q] == before[q - 1]) by {
                assert(after[(q - 1) + 1] == before[q - 1]);
            }
        }
    }
    if has_key(before, key) {
        let j = position(before, key);
        assert(entry_at(before, key, j));
        assert(!lt(key, key));
        assert(false);
    }
    assert forall|k: K::V| contents(after).contains_key(k) == contents(before).insert(
        key,
        after[i].1,
    ).contains_key(k) by {
        if has_key(after, k) {
            let j = position(after, k);
            assert(entry_at(after, k, j));
            if j < i {
                assert(entry_at(before, k, j));
            } else if j > i {
                assert(after[(j - 1) + 1] == before[j - 1]);
                assert(entry_at(before, k, j - 1));
            }
        }
        if has_key(before, k) {
            let j = position(before, k);
            assert(entry_at(before, k, j));
            if j < i {
                assert(entry_at(after, k, j));
            } else {
                assert(after[j + 1] == before[j]);
                assert(entry_at(after, k, j + 1));
            }
        }
        if k == key {
            assert(entry_at(after, k, i));
        }
    }
    lemma_position(after, i);
    assert forall|k: K::V| contents(after).contains_key(k) implies contents(after)[k]
        == contents(before).insert(key, after[i].1)[k] by {
        let j = position(after, k);
        assert(entry_at(after, k, j));
        lemma_position(after, j);
        if j < i {
            lemma_position(before, j);
        } else if j > i {
            assert(after[(j - 1) + 1] == before[j - 1]);
            lemma_position(before, j - 1);
        }
    }
    assert(contents(after) =~= contents(before).insert(key, after[i].1));
}

/// One more entry of an ascending table.
pub proof fn lemma_next<K: SortKey, V>(entries: Seq<(K, V)>, i: int)
    requires
        ascending(entries),
        0 <= i < entries.len(),
    ensures
        !has_key(entries.take(i), entries[i].0@),
        contents(entries.take(i + 1)) == contents(entries.take(i)).insert(
            entries[i].0@,
            entries[i].1,
        ),
{
    assert(ascending(entries.take(i)));
    lemma_inserted(entries.take(i), entries.take(i + 1), i, entries[i].0@);
}

/// Ascending tables with the same keys have them at the same positions.
pub proof fn lemma_same_keys<K: SortKey, V>(a: Seq<(K, V)>, b: Seq<(K, V)>)
    requires
        ascending(a),
        ascending(b),
        contents(a).dom() == contents(b).dom(),
    ensures
        keys(a) == keys(b),
    decreases a.len(),
{
    K::lemma_before_order();
    let lt = |x: K::V, y: K::V| K::before(x, y);
    if a.len() == 0 {
        if b.len() > 0 {
            lemma_position(b, 0);
            assert(contents(a).dom().contains(b[0].0@));
        }
        assert(keys(a) =~= keys(b));
    } else {
        let m = a.len() - 1;
        lemma_position(a, m);
        assert(contents(b).dom().contains(a[m].0@));
        let j = position(b, a[m].0@);
        assert(entry_at(b, a[m].0@, j));
        let n = b.len() - 1;
        lemma_position(b, n);
        assert(contents(a).dom().contains(b[n].0@));
        let i = position(a, b[n].0@);
        assert(entry_at(a, b[n].0@, i));
        if a[m].0@ != b[n].0@ {
            assert(lt(a[i].0@, a[m].0@));
            assert(lt(b[j].0@, b[n].0@));
            assert(lt(a[m].0@, a[m].0@));
            assert(false);
        }
        let p = a.take(m);
        let q = b.take(n);
        lemma_next(a, m);
        lemma_next(b, n);
        assert(a.take(m + 1) =~= a);
        assert(b.take(n + 1) =~= b);
        assert(contents(p).dom() =~= contents(a).dom().remove(a[m].0@));
        assert(contents(q).dom() =~= contents(b).dom().remove(b[n].0@));
        lemma_same_keys(p, q);
        assert(keys(a) =~= keys(p).push(a[m].0@));
        assert(keys(b) =~= keys(q).push(b[n].0@));
    }
}

/// Finds the entry under `key`, or else the place where it would stand.
pub fn find<K: SortKey, V>(entries: &Vec<(K, V)>, key: &K) -> (r: Result<usize, usize>)
    requires
        ascending(entries@),
    ensures
        match r {
            Ok(i) => entry_at(entries@, key@, i as int),
            Err(i) => {
                &&& i <= entries@.len()
                &&& !has_key(entries@, key@)
                &&& forall|j: int| 0 <= j < i ==> K::before((#[trigger] entries@[j]).0@, key@)
                &&& forall|j: int|
                    i <= j < entries@.len() ==> K::before(key@, (#[trigger] entries@[j]).0@)
            },
        },
{
    proof {
        K::lemma_before_order();
    }
    let ghost lt = |a: K::V, b: K::V| K::before(a, b);
    let mut low: usize = 0;
    let mut high: usize = entries.len();
    while low < high
        invariant
            low <= high <= entries@.len(),
            ascending(entries@),
            lt == (|a: K::V, b: K::V| K::before(a, b)),
            strict_order(lt),
            forall|j: int| 0 <= j < low ==> K::before((#[trigger] entries@[j]).0@, key@),
            forall|j: int| high <= j < entries@.len() ==> K::before(key@, (#[trigger] entries@[j]).0@),
        decreases high - low,
    {
        let mid: usize = low + (high - low) / 2;
        match key.place(&entries[mid].0) {
            Placement::Same => {
                return Ok(mid);
            },
            Placement::Before => {
                assert forall|j: int| mid <= j < entries@.len() implies K::before(
                    key@,
                    (#[trigger] entries@[j]).0@,
                ) by {
                    if j > mid {
                        assert(lt(key@, entries@[mid as int].0@) && lt(
                            entries@[mid as int].0@,
                            entries@[j].0@,
                        ));
                        assert(lt(key@, entries@[j].0@));
                    }
                }
                high = mid;
            },
            Placement::After => {
                assert forall|j: int| 0 <= j < mid + 1 implies K::before(
                    (#[trigger] entries@[j]).0@,
                    key@,
                ) by {
                    if j < mid {
                        assert(lt(entries@[j].0@, entries@[mid as int].0@) && lt(
                            entries@[mid as int].0@,
                            key@,
                        ));
                        assert(lt(entries@[j].0@, key@));
                    }
                }
                low = mid + 1;
            },
        }
    }
    proof {
        if has_key(entries@, key@) {
            let j = position(entries@, key@);
            assert(entry_at(entries@, key@, j));
            assert(!lt(key@, key@));
            assert(false);
        }
    }
    Err(low)
}

/// Puts `value` under `key`, and returns the value it displaces.
pub fn put<K: SortKey, V>(entries: &mut Vec<(K, V)>, key: K, value: V) -> (r: Option<V>)
    requires
        ascending(old(entries)@),
    ensures
        ascending(final(entries)@),
        contents(final(entries)@) == contents(old(entries)@).insert(key@, value),
        r == (if contents(old(entries)@).contains_key(key@) {
            Some(contents(old(entries)@)[key@])
        } else {
            None
        }),
{
    match find(entries, &key) {
        Ok(i) => {
            let mut displaced = value;
            std::mem::swap(&mut displaced, &mut entries[i].1);
            proof {
                lemma_position(old(entries)@, i as int);
                lemma_replaced(old(entries)@, entries@, i as int);
            }
            Some(displaced)
        },
        Err(i) => {
            let ghost k = key@;
            entries.insert(i, (key, value));
            proof {
                lemma_inserted(old(entries)@, entries@, i as int, k);
            }
            None
        },
    }
}

/// The value under `key`, which is first put there as `fresh` if there is none.
pub fn slot<K: SortKey, V>(entries: &mut Vec<(K, V)>, key: K, fresh: V) -> (r: &mut V)
    requires
        ascending(old(entries)@),
    ensures
        *r == (if contents(old(entries)@).contains_key(key@) {
            contents(old(entries)@)[key@]
        } else {
            fresh
        }),
        ascending(final(entries)@),
        contents(final(entries)@) == contents(old(entries)@).insert(key@, *final(r)),
{
    let ghost k = key@;
    let i: usize = match find(entries, &key) {
        Ok(i) => {
            proof {
                lemma_position(entries@, i as int);
            }
            i
        },
        Err(i) => {
            entries.insert(i, (key, fresh));
            proof {
                lemma_inserted(old(entries)@, entries@, i as int, k);
            }
            i
        },
    };
    let ghost middle = entries@;
    proof {
        assert forall|value: V| #![trigger middle.update(i as int, (middle[i as int].0, value))]
            ascending(middle.update(i as int, (middle[i as int].0, value))) && contents(
            middle.update(i as int, (middle[i as int].0, value)),
        ) == contents(old(entries)@).insert(k, value) by {
            let after = middle.update(i as int, (middle[i as int].0, value));
            lemma_replaced(middle, after, i as int);
            assert(contents(middle).insert(k, value) =~= contents(old(entries)@).insert(k, value));
        }
        lemma_position(middle, i as int);
    }
    &mut entries[i].1
}

} // verus!
