//! Lists of entries keyed by text, in which no key occurs twice: what a map
//! from names to values holds, in the order in which the keys first came.
use vstd::prelude::*;
use crate::text::str_eq;

verus! {

/// No key occurs twice.
pub open spec fn keys_unique<V>(m: Seq<(String, V)>) -> bool {
    forall|i: int, j: int|
        0 <= i < m.len() && 0 <= j < m.len() && i != j ==> (#[trigger] m[i]).0@ != (
        #[trigger] m[j]).0@
}

/// Some entry has key `k`.
pub open spec fn has_key<V>(m: Seq<(String, V)>, k: Seq<char>) -> bool {
    exists|i: int| 0 <= i < m.len() && (#[trigger] m[i]).0@ == k
}

/// The position of the entry with key `k` (meaningful where [`has_key`] holds).
pub open spec fn key_index<V>(m: Seq<(String, V)>, k: Seq<char>) -> int {
    choose|i: int| 0 <= i < m.len() && (#[trigger] m[i]).0@ == k
}

/// The list after `HashMap::insert(k, v)`: the value of an existing key is
/// replaced in place, a new key comes last.
pub open spec fn assoc_insert<V>(m: Seq<(String, V)>, k: String, v: V) -> Seq<(String, V)> {
    if has_key(m, k@) {
        m.update(key_index(m, k@), (k, v))
    } else {
        m.push((k, v))
    }
}

/// In a list without repeated keys, the entry with a key is the one found.
pub proof fn lemma_key_index_unique<V>(m: Seq<(String, V)>, i: int)
    requires
        keys_unique(m),
        0 <= i < m.len(),
    ensures
        has_key(m, m[i].0@),
        key_index(m, m[i].0@) == i,
{
    let k = m[i].0@;
    assert(has_key(m, k));
    let j = key_index(m, k);
    if j != i {
        assert(m[i].0@ != m[j].0@);
    }
}

/// Inserting keeps keys unique.
pub proof fn lemma_insert_unique<V>(m: Seq<(String, V)>, k: String, v: V)
    requires
        keys_unique(m),
    ensures
        keys_unique(assoc_insert(m, k, v)),
{
    let r = assoc_insert(m, k, v);
    if has_key(m, k@) {
        let p = key_index(m, k@);
        assert forall|i: int, j: int|
            0 <= i < r.len() && 0 <= j < r.len() && i != j implies (#[trigger] r[i]).0@ != (
            #[trigger] r[j]).0@ by {
            if i != p && j != p {
                assert(m[i].0@ != m[j].0@);
            } else if i == p {
                assert(m[p].0@ != m[j].0@);
            } else {
                assert(m[i].0@ != m[p].0@);
            }
        }
    } else {
        assert forall|i: int, j: int|
            0 <= i < r.len() && 0 <= j < r.len() && i != j implies (#[trigger] r[i]).0@ != (
            #[trigger] r[j]).0@ by {
            if i < m.len() && j < m.len() {
                assert(m[i].0@ != m[j].0@);
            } else if i < m.len() {
                assert(m[i].0@ != k@);
            } else {
                assert(m[j].0@ != k@);
            }
        }
    }
}

/// The position of the entry with key `k`, if any.
pub fn find_key<V>(m: &Vec<(String, V)>, k: &str) -> (r: Option<usize>)
    ensures
        r matches Some(i) ==> i < m@.len() && m@[i as int].0@ == k@,
        r is None <==> !has_key(m@, k@),
{
    let mut i: usize = 0;
    while i < m.len()
        invariant
            i <= m@.len(),
            forall|j: int| 0 <= j < i ==> (#[trigger] m@[j]).0@ != k@,
        decreases m@.len() - i,
    {
        if str_eq(m[i].0.as_str(), k) {
            return Some(i);
        }
        i = i + 1;
    }
    None
}

/// Inserts `v` under `k` as `HashMap::insert` does (see [`assoc_insert`]).
pub fn insert_entry<V>(m: &mut Vec<(String, V)>, k: String, v: V)
    requires
        keys_unique(old(m)@),
    ensures
        final(m)@ == assoc_insert(old(m)@, k, v),
        keys_unique(final(m)@),
{
    proof {
        lemma_insert_unique(old(m)@, k, v);
    }
    match find_key(m, k.as_str()) {
        Some(i) => {
            proof {
                lemma_key_index_unique(m@, i as int);
            }
            m.set(i, (k, v));
        },
        None => {
            m.push((k, v));
        },
    }
}

/// The position of the first entry with key `k`, or -1 when there is none.
pub open spec fn first_index<V>(m: Seq<(String, V)>, k: Seq<char>) -> int
    decreases m.len(),
{
    if m.len() == 0 {
        -1
    } else {
        let r = first_index(m.drop_last(), k);
        if r >= 0 {
            r
        } else if m.last().0@ == k {
            m.len() - 1
        } else {
            -1
        }
    }
}

/// The first entry with key `k` stands at `i`.
pub proof fn lemma_first_index<V>(m: Seq<(String, V)>, k: Seq<char>, i: int)
    requires
        0 <= i <= m.len(),
        forall|j: int| 0 <= j < i ==> (#[trigger] m[j]).0@ != k,
        i < m.len() ==> m[i].0@ == k,
    ensures
        first_index(m, k) == (if i < m.len() {
            i
        } else {
            -1
        }),
    decreases m.len(),
{
    if m.len() > 0 {
        let init = m.drop_last();
        if i < m.len() - 1 {
            assert forall|j: int| 0 <= j < i implies (#[trigger] init[j]).0@ != k by {
                assert(init[j] == m[j]);
            }
            assert(init[i] == m[i]);
            lemma_first_index(init, k, i);
        } else {
            assert forall|j: int| 0 <= j < init.len() implies (#[trigger] init[j]).0@ != k by {
                assert(init[j] == m[j]);
            }
            lemma_first_index(init, k, init.len() as int);
            if i == m.len() {
                assert(m[m.len() - 1].0@ != k);
            }
        }
    }
}

/// The position of the first entry with key `k`, if any.
pub fn find_first<V>(m: &Vec<(String, V)>, k: &str) -> (r: Option<usize>)
    ensures
        match r {
            Some(i) => first_index(m@, k@) == i as int && i < m@.len() && m@[i as int].0@ == k@,
            None => first_index(m@, k@) == -1,
        },
{
    let mut i: usize = 0;
    while i < m.len()
        invariant
            i <= m@.len(),
            forall|j: int| 0 <= j < i ==> (#[trigger] m@[j]).0@ != k@,
        decreases m@.len() - i,
    {
        if str_eq(m[i].0.as_str(), k) {
            proof {
                lemma_first_index(m@, k@, i as int);
            }
            return Some(i);
        }
        i = i + 1;
    }
    proof {
        lemma_first_index(m@, k@, i as int);
    }
    None
}

/// The map that a keyed list stands for, each value seen through `f`; a later
/// entry with the same key wins.
pub open spec fn keyed_view<V, W>(m: Seq<(String, V)>, f: spec_fn(V) -> W) -> Map<Seq<char>, W>
    decreases m.len(),
{
    if m.len() == 0 {
        Map::empty()
    } else {
        keyed_view(m.drop_last(), f).insert(m.last().0@, f(m.last().1))
    }
}

/// Replacing an entry of a list without repeated keys updates the map it stands for.
proof fn lemma_keyed_view_update<V, W>(m: Seq<(String, V)>, p: int, k: String, v: V, f: spec_fn(V) -> W)
    requires
        keys_unique(m),
        0 <= p < m.len(),
        m[p].0@ == k@,
    ensures
        keyed_view(m.update(p, (k, v)), f) == keyed_view(m, f).insert(k@, f(v)),
    decreases m.len(),
{
    let u = m.update(p, (k, v));
    let init = m.drop_last();
    if p == m.len() - 1 {
        assert(u.drop_last() =~= init);
        assert(keyed_view(init, f).insert(k@, f(v)) =~= keyed_view(init, f).insert(
            k@,
            f(m.last().1),
        ).insert(k@, f(v)));
    } else {
        assert(keys_unique(init)) by {
            assert forall|i: int, j: int|
                0 <= i < init.len() && 0 <= j < init.len() && i != j implies (#[trigger] init[i]).0@
                != (#[trigger] init[j]).0@ by {
                assert(init[i] == m[i] && init[j] == m[j]);
                assert(m[i].0@ != m[j].0@);
            }
        }
        assert(init[p] == m[p]);
        lemma_keyed_view_update(init, p, k, v, f);
        assert(u.drop_last() =~= init.update(p, (k, v)));
        assert(u.last() == m.last());
        assert(m[m.len() - 1].0@ != m[p].0@);
        assert(keyed_view(u, f) =~= keyed_view(m, f).insert(k@, f(v)));
    }
}

/// Inserting into a list without repeated keys inserts into the map it stands for.
pub proof fn lemma_keyed_view_insert<V, W>(m: Seq<(String, V)>, k: String, v: V, f: spec_fn(V) -> W)
    requires
        keys_unique(m),
    ensures
        keyed_view(assoc_insert(m, k, v), f) == keyed_view(m, f).insert(k@, f(v)),
{
    if has_key(m, k@) {
        let p = key_index(m, k@);
        lemma_keyed_view_update(m, p, k, v, f);
    } else {
        assert(m.push((k, v)).drop_last() =~= m);
    }
}

} // verus!
