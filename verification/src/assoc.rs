//! Association lists keyed by strings: the first entry with a key is the one that counts.
use crate::dataset::strings_view;
use vstd::prelude::*;

verus! {

/// The value of the first entry whose key is `k`.
pub open spec fn lookup<V>(m: Seq<(Seq<char>, V)>, k: Seq<char>) -> Option<V>
    decreases m.len(),
{
    if m.len() == 0 {
        None
    } else if m[0].0 == k {
        Some(m[0].1)
    } else {
        lookup(m.drop_first(), k)
    }
}

/// The keys of an association list.
pub open spec fn keys<V>(m: Seq<(Seq<char>, V)>) -> Seq<Seq<char>> {
    m.map_values(|e: (Seq<char>, V)| e.0)
}

pub proof fn lemma_lookup_step<V>(m: Seq<(Seq<char>, V)>, i: int, k: Seq<char>)
    requires
        0 <= i < m.len(),
    ensures
        lookup(m.subrange(i, m.len() as int), k) == if m[i].0 == k {
            Some(m[i].1)
        } else {
            lookup(m.subrange(i + 1, m.len() as int), k)
        },
{
    let t = m.subrange(i, m.len() as int);
    assert(t.drop_first() =~= m.subrange(i + 1, m.len() as int));
}

/// `lookup` finds a key exactly when the key occurs, and then the value of its first entry.
pub proof fn lemma_lookup_some<V>(m: Seq<(Seq<char>, V)>, k: Seq<char>)
    ensures
        lookup(m, k) is Some <==> keys(m).contains(k),
        lookup(m, k) is Some ==> exists|i: int|
            0 <= i < m.len() && m[i].0 == k && lookup(m, k) == Some(m[i].1) && forall|j: int|
                0 <= j < i ==> m[j].0 != k,
    decreases m.len(),
{
    if m.len() > 0 {
        lemma_lookup_some(m.drop_first(), k);
        if m[0].0 == k {
            assert(keys(m)[0] == k);
        } else {
            if keys(m).contains(k) {
                let i = choose|i: int| 0 <= i < keys(m).len() && keys(m)[i] == k;
                assert(keys(m.drop_first())[i - 1] == k);
            }
            if keys(m.drop_first()).contains(k) {
                let i = choose|i: int|
                    0 <= i < keys(m.drop_first()).len() && keys(m.drop_first())[i] == k;
                assert(keys(m)[i + 1] == k);
            }
            if lookup(m, k) is Some {
                let i = choose|i: int|
                    0 <= i < m.drop_first().len() && m.drop_first()[i].0 == k && lookup(
                        m.drop_first(),
                        k,
                    ) == Some(m.drop_first()[i].1) && forall|j: int|
                        0 <= j < i ==> m.drop_first()[j].0 != k;
                assert(m[i + 1].0 == k);
                assert forall|j: int| 0 <= j < i + 1 implies m[j].0 != k by {
                    if j > 0 {
                        assert(m.drop_first()[j - 1] == m[j]);
                    }
                }
            }
        }
    }
}

/// Appending an entry keeps earlier lookups, and finds the new key when it was absent.
pub proof fn lemma_lookup_push<V>(m: Seq<(Seq<char>, V)>, e: (Seq<char>, V), k: Seq<char>)
    ensures
        lookup(m.push(e), k) == if lookup(m, k) is Some {
            lookup(m, k)
        } else if e.0 == k {
            Some(e.1)
        } else {
            None::<V>
        },
    decreases m.len(),
{
    if m.len() == 0 {
        assert(m.push(e).drop_first() =~= Seq::<(Seq<char>, V)>::empty());
    } else {
        assert(m.push(e).drop_first() =~= m.drop_first().push(e));
        lemma_lookup_push(m.drop_first(), e, k);
    }
}

/// The entry with index `i` is the first with key `k`, so `lookup` gives its value.
pub proof fn lemma_lookup_first<V>(m: Seq<(Seq<char>, V)>, i: int, k: Seq<char>)
    requires
        0 <= i < m.len(),
        m[i].0 == k,
        forall|j: int| 0 <= j < i ==> m[j].0 != k,
    ensures
        lookup(m, k) == Some(m[i].1),
    decreases i,
{
    if i > 0 {
        lemma_lookup_first(m.drop_first(), i - 1, k);
    }
}

/// No entry has key `k`, so `lookup` finds nothing.
pub proof fn lemma_lookup_none<V>(m: Seq<(Seq<char>, V)>, k: Seq<char>)
    requires
        forall|j: int| 0 <= j < m.len() ==> m[j].0 != k,
    ensures
        lookup(m, k) is None,
    decreases m.len(),
{
    if m.len() > 0 {
        lemma_lookup_none(m.drop_first(), k);
    }
}

/// The index of the first entry whose key is `k`.
pub fn assoc_find<V>(m: &Vec<(String, V)>, k: &String) -> (r: Option<usize>)
    ensures
        match r {
            Some(i) => i < m@.len() && m@[i as int].0@ == k@ && forall|j: int|
                0 <= j < i ==> m@[j].0@ != k@,
            None => forall|j: int| 0 <= j < m@.len() ==> m@[j].0@ != k@,
        },
{
    let mut i: usize = 0;
    while i < m.len()
        invariant
            i <= m@.len(),
            forall|j: int| 0 <= j < i ==> m@[j].0@ != k@,
        decreases m@.len() - i,
    {
        if m[i].0 == *k {
            return Some(i);
        }
        i = i + 1;
    }
    None
}

/// Whether a string occurs in a list of strings.
pub fn contains_string(v: &Vec<String>, s: &String) -> (r: bool)
    ensures
        r == strings_view(v@).contains(s@),
{
    let mut i: usize = 0;
    while i < v.len()
        invariant
            i <= v@.len(),
            forall|k: int| 0 <= k < i ==> v@[k]@ != s@,
        decreases v@.len() - i,
    {
        if v[i] == *s {
            assert(strings_view(v@)[i as int] == s@);
            return true;
        }
        i = i + 1;
    }
    assert(!strings_view(v@).contains(s@)) by {
        if strings_view(v@).contains(s@) {
            let k = choose|k: int| 0 <= k < strings_view(v@).len() && strings_view(v@)[k] == s@;
            assert(v@[k]@ == s@);
        }
    }
    false
}

} // verus!
