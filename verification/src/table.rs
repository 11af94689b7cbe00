//! Tables of values under string keys, held as sequences of pairs. A key is
//! looked up from the end; storing under a key replaces the entry found in
//! place, or appends one where the key is absent.

use vstd::prelude::*;

verus! {

/// The position of the last entry with key `k`, or -1.
pub open spec fn key_index<V>(es: Seq<(Seq<char>, V)>, k: Seq<char>) -> int
    decreases es.len(),
{
    if es.len() == 0 {
        -1
    } else if es.last().0 == k {
        es.len() - 1
    } else {
        key_index(es.drop_last(), k)
    }
}

/// The value under `k`.
pub open spec fn lookup<V>(es: Seq<(Seq<char>, V)>, k: Seq<char>) -> Option<V> {
    let i = key_index(es, k);
    if i < 0 {
        None
    } else {
        Some(es[i].1)
    }
}

/// The table with `v` stored under `k`.
pub open spec fn put<V>(es: Seq<(Seq<char>, V)>, k: Seq<char>, v: V) -> Seq<(Seq<char>, V)> {
    let i = key_index(es, k);
    if i < 0 {
        es.push((k, v))
    } else {
        es.update(i, (k, v))
    }
}

/// The count under `k`, 0 where `k` is absent.
pub open spec fn count_of(es: Seq<(Seq<char>, u32)>, k: Seq<char>) -> nat {
    match lookup(es, k) {
        Some(c) => c as nat,
        None => 0,
    }
}

/// The table with the count under `k` raised by one (a new entry of 1 where `k` is absent).
pub open spec fn bump(es: Seq<(Seq<char>, u32)>, k: Seq<char>) -> Seq<(Seq<char>, u32)> {
    put(es, k, (count_of(es, k) + 1) as u32)
}

/// The model of a table of counts.
pub open spec fn count_views(v: Seq<(String, u32)>) -> Seq<(Seq<char>, u32)> {
    v.map_values(|e: (String, u32)| (e.0@, e.1))
}

pub proof fn lemma_key_index<V>(es: Seq<(Seq<char>, V)>, k: Seq<char>)
    ensures
        -1 <= key_index(es, k) < es.len(),
        key_index(es, k) >= 0 ==> es[key_index(es, k)].0 == k,
        forall|j: int| key_index(es, k) < j < es.len() ==> es[j].0 != k,
    decreases es.len(),
{
    if es.len() > 0 && es.last().0 != k {
        lemma_key_index(es.drop_last(), k);
        assert forall|j: int| key_index(es, k) < j < es.len() implies es[j].0 != k by {
            if j < es.len() - 1 {
                assert(es[j] == es.drop_last()[j]);
            }
        }
    }
}

/// Tables whose keys agree position by position find every key at the same position.
pub proof fn lemma_same_keys<V, W>(a: Seq<(Seq<char>, V)>, b: Seq<(Seq<char>, W)>, k: Seq<char>)
    requires
        a.len() == b.len(),
        forall|j: int| 0 <= j < a.len() ==> #[trigger] a[j].0 == b[j].0,
    ensures
        key_index(a, k) == key_index(b, k),
    decreases a.len(),
{
    if a.len() > 0 {
        assert(a.last().0 == b.last().0);
        assert forall|j: int| 0 <= j < a.len() - 1 implies #[trigger] a.drop_last()[j].0 == b.drop_last()[j].0 by {
            assert(a[j].0 == b[j].0);
        }
        lemma_same_keys(a.drop_last(), b.drop_last(), k);
    }
}

/// After `v` is stored under `k`, `k` gives `v` and every other key gives what it gave before.
pub proof fn lemma_lookup_put<V>(es: Seq<(Seq<char>, V)>, k: Seq<char>, v: V, k2: Seq<char>)
    ensures
        lookup(put(es, k, v), k2) == if k2 == k {
            Some(v)
        } else {
            lookup(es, k2)
        },
{
    lemma_key_index(es, k);
    let i = key_index(es, k);
    let t = put(es, k, v);
    lemma_key_index(es, k2);
    if i < 0 {
        assert(t.drop_last() =~= es);
        if k2 != k {
            let m = key_index(es, k2);
            if m >= 0 {
                assert(t[m] == es[m]);
            }
        }
    } else {
        assert forall|j: int| 0 <= j < t.len() implies #[trigger] t[j].0 == es[j].0 by {}
        lemma_same_keys(t, es, k2);
        let m = key_index(es, k2);
        if k2 != k && m >= 0 {
            assert(m != i);
            assert(t[m] == es[m]);
        }
    }
}

/// Looks for the key `k` in the table `es`, whose model `model` has the
/// same keys: the position of its last entry, or `None`.
pub(crate) fn find_key<V, W>(es: &Vec<(String, V)>, k: &String, Ghost(model): Ghost<Seq<(Seq<char>, W)>>) -> (r:
    Option<usize>)
    requires
        model.len() == es@.len(),
        forall|j: int| 0 <= j < es@.len() ==> #[trigger] model[j].0 == es@[j].0@,
    ensures
        match r {
            Some(i) => i as int == key_index(model, k@),
            None => key_index(model, k@) == -1,
        },
{
    let mut i = es.len();
    assert(model.take(i as int) =~= model);
    while i > 0
        invariant
            i <= es@.len(),
            model.len() == es@.len(),
            forall|j: int| 0 <= j < es@.len() ==> #[trigger] model[j].0 == es@[j].0@,
            key_index(model, k@) == key_index(model.take(i as int), k@),
        decreases i,
    {
        let ghost t = model.take(i as int);
        assert(t.last() == model[i - 1]);
        assert(model[i - 1].0 == es@[i - 1].0@);
        if es[i - 1].0 == *k {
            return Some(i - 1);
        }
        assert(t.drop_last() =~= model.take(i - 1));
        i = i - 1;
    }
    None
}

/// The count under `k` in the table of counts `table`.
pub fn lookup_count(table: &Vec<(String, u32)>, k: &String) -> (r: Option<u32>)
    ensures
        r == lookup(count_views(table@), k@),
{
    let ghost model = count_views(table@);
    match find_key::<u32, u32>(table, k, Ghost(model)) {
        Some(i) => {
            proof {
                lemma_key_index(model, k@);
            }
            Some(table[i].1)
        },
        None => None,
    }
}

} // verus!
