//! Association lists keyed by `String`, the backing shape of the topic
//! store and the schema registry.  Lookup takes the first entry whose name
//! matches; the containers keep their names distinct, so the first match
//! is the only one.

use crate::strutil::str_eq;
use vstd::prelude::*;

verus! {

/// First value stored under `name`, if any.
pub open spec fn alist_get<V>(s: Seq<(String, V)>, name: Seq<char>) -> Option<V>
    decreases s.len(),
{
    if s.len() == 0 {
        None
    } else if s[0].0@ == name {
        Some(s[0].1)
    } else {
        alist_get(s.drop_first(), name)
    }
}

/// No two entries share a name.
pub open spec fn alist_distinct<V>(s: Seq<(String, V)>) -> bool {
    forall|i: int, j: int| 0 <= i < j < s.len() ==> s[i].0@ != s[j].0@
}

/// If `name` first occurs at index `i`, lookup returns that entry's value.
pub proof fn lemma_get_at_index<V>(s: Seq<(String, V)>, i: int)
    requires
        0 <= i < s.len(),
        forall|j: int| 0 <= j < i ==> s[j].0@ != s[i].0@,
    ensures
        alist_get(s, s[i].0@) == Some(s[i].1),
    decreases i,
{
    if i > 0 {
        lemma_get_at_index(s.drop_first(), i - 1);
    }
}

/// If `name` occurs nowhere, lookup returns `None`.
pub proof fn lemma_get_absent<V>(s: Seq<(String, V)>, name: Seq<char>)
    requires
        forall|j: int| 0 <= j < s.len() ==> s[j].0@ != name,
    ensures
        alist_get(s, name) is None,
    decreases s.len(),
{
    if s.len() > 0 {
        lemma_get_absent(s.drop_first(), name);
    }
}

/// Replacing the value at index `i` (keeping its name) changes lookup only
/// for that name, provided the name does not occur earlier in the list.
pub proof fn lemma_get_update<V>(s: Seq<(String, V)>, i: int, p: (String, V))
    requires
        0 <= i < s.len(),
        p.0@ == s[i].0@,
        forall|j: int| 0 <= j < i ==> s[j].0@ != s[i].0@,
    ensures
        alist_get(s.update(i, p), s[i].0@) == Some(p.1),
        forall|n: Seq<char>| n != s[i].0@ ==> alist_get(s.update(i, p), n) == alist_get(s, n),
    decreases i,
{
    let s2 = s.update(i, p);
    if i == 0 {
        assert(s2[0] == p);
        assert(s2.drop_first() =~= s.drop_first());
    } else {
        assert(s2[0] == s[0]);
        assert(s2.drop_first() =~= s.drop_first().update(i - 1, p));
        assert(s.drop_first()[i - 1] == s[i]);
        lemma_get_update(s.drop_first(), i - 1, p);
        assert(alist_get(s2, s[i].0@) == Some(p.1));
        assert forall|n: Seq<char>| n != s[i].0@ implies alist_get(s2, n) == alist_get(s, n) by {
            assert(alist_get(s.drop_first().update(i - 1, p), n) == alist_get(s.drop_first(), n));
        }
    }
}

/// Appending an entry for a fresh name changes lookup only for that name.
pub proof fn lemma_get_push<V>(s: Seq<(String, V)>, p: (String, V))
    requires
        forall|j: int| 0 <= j < s.len() ==> s[j].0@ != p.0@,
    ensures
        alist_get(s.push(p), p.0@) == Some(p.1),
        forall|n: Seq<char>| n != p.0@ ==> alist_get(s.push(p), n) == alist_get(s, n),
    decreases s.len(),
{
    let s2 = s.push(p);
    if s.len() == 0 {
        assert(s2[0] == p);
        assert forall|n: Seq<char>| n != p.0@ implies alist_get(s2, n) == alist_get(s, n) by {
            lemma_get_absent(s2.drop_first(), n);
            assert(alist_get(s, n) is None);
        }
    } else {
        assert(s2[0] == s[0]);
        assert(s2.drop_first() =~= s.drop_first().push(p));
        lemma_get_push(s.drop_first(), p);
        assert(alist_get(s2, p.0@) == Some(p.1));
        assert forall|n: Seq<char>| n != p.0@ implies alist_get(s2, n) == alist_get(s, n) by {
            assert(alist_get(s.drop_first().push(p), n) == alist_get(s.drop_first(), n));
        }
    }
}

/// Index of the first entry named `name`, scanning front to back.
pub fn alist_find<V>(v: &Vec<(String, V)>, name: &str) -> (r: Option<usize>)
    ensures
        match r {
            Some(i) => i < v@.len() && v@[i as int].0@ == name@ && (forall|j: int|
                0 <= j < i ==> v@[j].0@ != name@),
            None => forall|j: int| 0 <= j < v@.len() ==> v@[j].0@ != name@,
        },
{
    let mut i: usize = 0;
    while i < v.len()
        invariant
            i <= v@.len(),
            forall|j: int| 0 <= j < i ==> v@[j].0@ != name@,
        decreases v@.len() - i,
    {
        if str_eq(v[i].0.as_str(), name) {
            return Some(i);
        }
        i += 1;
    }
    None
}

} // verus!
