//! Small tables keyed by name: a `Vec` of `(String, V)` entries read as a
//! map from names to values, where the first entry with a name decides.
use vstd::prelude::*;

verus! {

/// The value of the first entry named `k`.
pub open spec fn lookup<V>(s: Seq<(String, V)>, k: Seq<char>) -> Option<V>
    decreases s.len(),
{
    if s.len() == 0 {
        None
    } else if s[0].0@ == k {
        Some(s[0].1)
    } else {
        lookup(s.drop_first(), k)
    }
}

/// The map from names to values that a table stands for.
pub open spec fn table_map<V>(s: Seq<(String, V)>) -> Map<Seq<char>, V> {
    Map::new(|k: Seq<char>| lookup(s, k) is Some, |k: Seq<char>| lookup(s, k)->0)
}

/// The map from names to texts that a table of strings stands for.
pub open spec fn text_map(s: Seq<(String, String)>) -> Map<Seq<char>, Seq<char>> {
    Map::new(|k: Seq<char>| lookup(s, k) is Some, |k: Seq<char>| (lookup(s, k)->0)@)
}

/// `i` is the position of the first entry named `k`.
pub open spec fn first_with<V>(s: Seq<(String, V)>, k: Seq<char>, i: int) -> bool {
    &&& 0 <= i < s.len()
    &&& s[i].0@ == k
    &&& forall|j: int| 0 <= j < i ==> s[j].0@ != k
}

pub proof fn lemma_lookup_first<V>(s: Seq<(String, V)>, k: Seq<char>, i: int)
    requires
        first_with(s, k, i),
    ensures
        lookup(s, k) == Some(s[i].1),
    decreases s.len(),
{
    if i > 0 {
        assert(s[0].0@ != k);
        assert(first_with(s.drop_first(), k, i - 1)) by {
            assert forall|j: int| 0 <= j < i - 1 implies s.drop_first()[j].0@ != k by {
                assert(s.drop_first()[j] == s[j + 1]);
            }
        }
        lemma_lookup_first(s.drop_first(), k, i - 1);
    }
}

pub proof fn lemma_lookup_none<V>(s: Seq<(String, V)>, k: Seq<char>)
    requires
        forall|j: int| 0 <= j < s.len() ==> s[j].0@ != k,
    ensures
        lookup(s, k) is None,
    decreases s.len(),
{
    if s.len() > 0 {
        assert forall|j: int| 0 <= j < s.drop_first().len() implies s.drop_first()[j].0@ != k by {
            assert(s.drop_first()[j] == s[j + 1]);
        }
        lemma_lookup_none(s.drop_first(), k);
    }
}

pub proof fn lemma_lookup_update<V>(s: Seq<(String, V)>, k: Seq<char>, i: int, e: (String, V))
    requires
        first_with(s, k, i),
        e.0@ == k,
    ensures
        forall|kk: Seq<char>|
            #[trigger] lookup(s.update(i, e), kk) == if kk == k {
                Some(e.1)
            } else {
                lookup(s, kk)
            },
    decreases s.len(),
{
    let t = s.update(i, e);
    if i == 0 {
        assert(t.drop_first() =~= s.drop_first());
        assert forall|kk: Seq<char>|
            #[trigger] lookup(t, kk) == if kk == k {
                Some(e.1)
            } else {
                lookup(s, kk)
            } by {
            assert(t[0] == e);
        }
    } else {
        assert(first_with(s.drop_first(), k, i - 1)) by {
            assert forall|j: int| 0 <= j < i - 1 implies s.drop_first()[j].0@ != k by {
                assert(s.drop_first()[j] == s[j + 1]);
            }
        }
        lemma_lookup_update(s.drop_first(), k, i - 1, e);
        assert(t.drop_first() =~= s.drop_first().update(i - 1, e));
        assert(t[0] == s[0]);
        assert forall|kk: Seq<char>|
            #[trigger] lookup(t, kk) == if kk == k {
                Some(e.1)
            } else {
                lookup(s, kk)
            } by {
            assert(lookup(t.drop_first(), kk) == lookup(s.drop_first().update(i - 1, e), kk));
        }
    }
}

pub proof fn lemma_lookup_push<V>(s: Seq<(String, V)>, e: (String, V))
    requires
        lookup(s, e.0@) is None,
    ensures
        forall|kk: Seq<char>|
            #[trigger] lookup(s.push(e), kk) == if kk == e.0@ {
                Some(e.1)
            } else {
                lookup(s, kk)
            },
    decreases s.len(),
{
    let t = s.push(e);
    if s.len() == 0 {
        assert(t.drop_first() =~= Seq::<(String, V)>::empty());
        assert forall|kk: Seq<char>|
            #[trigger] lookup(t, kk) == if kk == e.0@ {
                Some(e.1)
            } else {
                lookup(s, kk)
            } by {
            assert(t[0] == e);
            assert(lookup(t.drop_first(), kk) is None);
        }
    } else {
        assert(t.drop_first() =~= s.drop_first().push(e));
        lemma_lookup_push(s.drop_first(), e);
        assert forall|kk: Seq<char>|
            #[trigger] lookup(t, kk) == if kk == e.0@ {
                Some(e.1)
            } else {
                lookup(s, kk)
            } by {
            assert(t[0] == s[0]);
            assert(lookup(t.drop_first(), kk) == lookup(s.drop_first().push(e), kk));
        }
    }
}

/// The position of the first entry named `k`, if there is one.
pub fn find_key<V>(s: &Vec<(String, V)>, k: &String) -> (r: Option<usize>)
    ensures
        match r {
            Some(i) => first_with(s@, k@, i as int) && lookup(s@, k@) == Some(s@[i as int].1),
            None => lookup(s@, k@) is None,
        },
{
    let mut i: usize = 0;
    while i < s.len()
        invariant
            i <= s.len(),
            forall|j: int| 0 <= j < i ==> s@[j].0@ != k@,
        decreases s.len() - i,
    {
        if s[i].0 == *k {
            proof {
                lemma_lookup_first(s@, k@, i as int);
            }
            return Some(i);
        }
        i += 1;
    }
    proof {
        lemma_lookup_none(s@, k@);
    }
    None
}

/// Gives the name `k` the value `v`: replaces the value of its first entry,
/// or adds an entry when there is none.
pub fn set_entry<V>(s: &mut Vec<(String, V)>, k: String, v: V)
    ensures
        forall|kk: Seq<char>|
            #[trigger] lookup(final(s)@, kk) == if kk == k@ {
                Some(v)
            } else {
                lookup(old(s)@, kk)
            },
{
    match find_key(s, &k) {
        Some(i) => {
            proof {
                lemma_lookup_update(s@, k@, i as int, (k, v));
            }
            s.set(i, (k, v));
        },
        None => {
            proof {
                lemma_lookup_push(s@, (k, v));
            }
            s.push((k, v));
        },
    }
}

} // verus!
