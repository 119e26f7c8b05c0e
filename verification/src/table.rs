//! Association-list lookup: the mathematical model shared by every keyed
//! table in this crate (adjacency rows, transition tables, dwell tables).
//! A table is a sequence of `(key, value)` pairs; a lookup returns the value
//! of the first pair whose key matches.

use vstd::prelude::*;

verus! {

/// The value of the first pair in `s` whose key is `k`, if any.
pub open spec fn assoc_get<V>(s: Seq<(u32, V)>, k: u32) -> Option<V>
    decreases s.len(),
{
    if s.len() == 0 {
        None
    } else if s[0].0 == k {
        Some(s[0].1)
    } else {
        assoc_get(s.subrange(1, s.len() as int), k)
    }
}

/// Whether `s` holds a pair keyed by `k`.
pub open spec fn assoc_has<V>(s: Seq<(u32, V)>, k: u32) -> bool {
    assoc_get(s, k) is Some
}

/// A lookup is decided by the first occurrence of the key.
pub proof fn lemma_assoc_get_first<V>(s: Seq<(u32, V)>, k: u32, i: int)
    requires
        0 <= i < s.len(),
        s[i].0 == k,
        forall|j: int| 0 <= j < i ==> s[j].0 != k,
    ensures
        assoc_get(s, k) == Some(s[i].1),
    decreases s.len(),
{
    if i > 0 {
        lemma_assoc_get_first(s.subrange(1, s.len() as int), k, i - 1);
    }
}

/// A key that occurs in no pair is absent from the table.
pub proof fn lemma_assoc_get_absent<V>(s: Seq<(u32, V)>, k: u32)
    requires
        forall|j: int| 0 <= j < s.len() ==> s[j].0 != k,
    ensures
        assoc_get(s, k) is None,
    decreases s.len(),
{
    if s.len() > 0 {
        lemma_assoc_get_absent(s.subrange(1, s.len() as int), k);
    }
}

/// Appending a pair binds its key only if the key was absent, and binds no
/// other key.
pub proof fn lemma_assoc_get_push<V>(s: Seq<(u32, V)>, k: u32, v: V, q: u32)
    ensures
        assoc_get(s.push((k, v)), q) == (if assoc_has(s, q) {
            assoc_get(s, q)
        } else if q == k {
            Some(v)
        } else {
            None::<V>
        }),
    decreases s.len(),
{
    let t = s.push((k, v));
    if s.len() == 0 {
        assert(t[0] == (k, v));
        if q == k {
            assert(assoc_get(t, q) == Some(v));
        } else {
            assert(t.subrange(1, 1) =~= Seq::<(u32, V)>::empty());
            assert(assoc_get(t.subrange(1, 1), q) is None);
            assert(assoc_get(t, q) is None);
        }
        assert(assoc_get(s, q) is None);
    } else {
        let stail = s.subrange(1, s.len() as int);
        assert(t[0] == s[0]);
        assert(t.subrange(1, t.len() as int) =~= stail.push((k, v)));
        lemma_assoc_get_push(stail, k, v, q);
        if s[0].0 == q {
            assert(assoc_get(t, q) == Some(s[0].1));
            assert(assoc_get(s, q) == Some(s[0].1));
        } else {
            assert(assoc_get(t, q) == assoc_get(stail.push((k, v)), q));
            assert(assoc_get(s, q) == assoc_get(stail, q));
        }
    }
}

/// Replacing the value at the first occurrence of a key rebinds that key and
/// no other.
pub proof fn lemma_assoc_get_update<V>(s: Seq<(u32, V)>, i: int, v: V, q: u32)
    requires
        0 <= i < s.len(),
        forall|j: int| 0 <= j < i ==> s[j].0 != s[i].0,
    ensures
        assoc_get(s.update(i, (s[i].0, v)), q) == (if q == s[i].0 {
            Some(v)
        } else {
            assoc_get(s, q)
        }),
    decreases s.len(),
{
    let t = s.update(i, (s[i].0, v));
    assert(t.len() == s.len());
    if i == 0 {
        assert(t[0] == (s[0].0, v));
        if q == s[0].0 {
            assert(assoc_get(t, q) == Some(v));
        } else {
            assert(t.subrange(1, t.len() as int) =~= s.subrange(1, s.len() as int));
            assert(assoc_get(t, q) == assoc_get(t.subrange(1, t.len() as int), q));
            assert(assoc_get(s, q) == assoc_get(s.subrange(1, s.len() as int), q));
        }
    } else {
        assert(t[0] == s[0]);
        let stail = s.subrange(1, s.len() as int);
        assert(t.subrange(1, t.len() as int) =~= stail.update(i - 1, (stail[i - 1].0, v)));
        lemma_assoc_get_update(stail, i - 1, v, q);
        if s[0].0 == q {
            assert(assoc_get(t, q) == Some(s[0].1));
            assert(assoc_get(s, q) == Some(s[0].1));
            assert(q != s[i].0);
        } else {
            assert(assoc_get(t, q) == assoc_get(t.subrange(1, t.len() as int), q));
            assert(assoc_get(s, q) == assoc_get(stail, q));
        }
    }
}

/// Removing the sole occurrence of a key unbinds it and leaves every other
/// key bound as before.
pub proof fn lemma_assoc_get_remove<V>(s: Seq<(u32, V)>, i: int, q: u32)
    requires
        0 <= i < s.len(),
        forall|j: int| 0 <= j < s.len() && j != i ==> s[j].0 != s[i].0,
    ensures
        assoc_get(s.remove(i), q) == (if q == s[i].0 {
            None::<V>
        } else {
            assoc_get(s, q)
        }),
    decreases s.len(),
{
    let t = s.remove(i);
    if i == 0 {
        assert(t =~= s.subrange(1, s.len() as int));
        if q == s[0].0 {
            assert(forall|j: int| 0 <= j < t.len() ==> t[j].0 != q);
            lemma_assoc_get_absent(t, q);
        } else {
            assert(assoc_get(s, q) == assoc_get(s.subrange(1, s.len() as int), q));
        }
    } else {
        assert(t[0] == s[0]);
        let stail = s.subrange(1, s.len() as int);
        assert(t.subrange(1, t.len() as int) =~= stail.remove(i - 1));
        lemma_assoc_get_remove(stail, i - 1, q);
        if s[0].0 == q {
            assert(assoc_get(t, q) == Some(s[0].1));
            assert(assoc_get(s, q) == Some(s[0].1));
            assert(q != s[i].0);
        } else {
            assert(assoc_get(t, q) == assoc_get(t.subrange(1, t.len() as int), q));
            assert(assoc_get(s, q) == assoc_get(stail, q));
        }
    }
}

/// A bound key occurs at some position of the table.
pub proof fn lemma_assoc_has_index<V>(s: Seq<(u32, V)>, k: u32)
    requires
        assoc_has(s, k),
    ensures
        exists|i: int| 0 <= i < s.len() && (#[trigger] s[i]).0 == k,
    decreases s.len(),
{
    if s.len() > 0 {
        if s[0].0 == k {
            assert(s[0].0 == k);
        } else {
            let stail = s.subrange(1, s.len() as int);
            lemma_assoc_has_index(stail, k);
            let i = choose|i: int| 0 <= i < stail.len() && (#[trigger] stail[i]).0 == k;
            assert(s[i + 1].0 == k);
        }
    }
}

/// A bound key's value sits at some position of the table.
pub proof fn lemma_assoc_get_at_index<V>(s: Seq<(u32, V)>, k: u32)
    requires
        assoc_has(s, k),
    ensures
        exists|i: int|
            0 <= i < s.len() && (#[trigger] s[i]).0 == k && s[i].1 == assoc_get(s, k).unwrap(),
    decreases s.len(),
{
    if s.len() > 0 {
        if s[0].0 == k {
            assert(s[0].0 == k && s[0].1 == assoc_get(s, k).unwrap());
        } else {
            let stail = s.subrange(1, s.len() as int);
            lemma_assoc_get_at_index(stail, k);
            let i = choose|i: int|
                0 <= i < stail.len() && (#[trigger] stail[i]).0 == k && stail[i].1 == assoc_get(
                    stail,
                    k,
                ).unwrap();
            assert(s[i + 1].0 == k && s[i + 1].1 == assoc_get(s, k).unwrap());
        }
    }
}

/// Finds the first pair of `v` keyed by `k` and returns its position.
pub fn find_key<V>(v: &Vec<(u32, V)>, k: u32) -> (r: Option<usize>)
    ensures
        match r {
            Some(i) => i < v@.len() && v@[i as int].0 == k && (forall|j: int|
                0 <= j < i ==> v@[j].0 != k),
            None => forall|j: int| 0 <= j < v@.len() ==> v@[j].0 != k,
        },
{
    let mut i: usize = 0;
    while i < v.len()
        invariant
            i <= v@.len(),
            forall|j: int| 0 <= j < i ==> v@[j].0 != k,
        decreases v@.len() - i,
    {
        if v[i].0 == k {
            return Some(i);
        }
        i = i + 1;
    }
    None
}

} // verus!
