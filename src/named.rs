//! Lists of values keyed by unique names, in the order they were added.
use vstd::prelude::*;
use core::cmp::Ordering;
use crate::text::{text_eq, cmp_text, seq_cmp, lemma_seq_cmp_equal, lemma_seq_cmp_reverse, lemma_seq_cmp_transitive};

verus! {

/// A value stored under a name.
#[derive(Debug)]
pub struct Named<T> {
    pub name: String,
    pub value: T,
}

impl<T: View> View for Named<T> {
    type V = (Seq<char>, T::V);

    open spec fn view(&self) -> (Seq<char>, T::V) {
        (self.name@, self.value@)
    }
}

pub open spec fn named_views<T: View>(s: Seq<Named<T>>) -> Seq<(Seq<char>, T::V)> {
    s.map_values(|e: Named<T>| e@)
}

/// The value under `k`, taking the first entry that carries it.
pub open spec fn lookup<V>(s: Seq<(Seq<char>, V)>, k: Seq<char>) -> Option<V>
    decreases s.len(),
{
    if s.len() == 0 {
        None
    } else if s[0].0 == k {
        Some(s[0].1)
    } else {
        lookup(s.drop_first(), k)
    }
}

/// No name occurs twice.
pub open spec fn unique_names<V>(s: Seq<(Seq<char>, V)>) -> bool {
    forall|i: int, j: int| 0 <= i < j < s.len() ==> s[i].0 != s[j].0
}

pub proof fn lemma_lookup_at<V>(s: Seq<(Seq<char>, V)>, i: int)
    requires
        unique_names(s),
        0 <= i < s.len(),
    ensures
        lookup(s, s[i].0) == Some(s[i].1),
    decreases s.len(),
{
    if i > 0 {
        let t = s.drop_first();
        assert(s[0].0 != s[i].0);
        assert(t[i - 1] == s[i]);
        lemma_lookup_at(t, i - 1);
    }
}

pub proof fn lemma_lookup_absent<V>(s: Seq<(Seq<char>, V)>, k: Seq<char>)
    requires
        forall|i: int| 0 <= i < s.len() ==> s[i].0 != k,
    ensures
        lookup(s, k) is None,
    decreases s.len(),
{
    if s.len() > 0 {
        let t = s.drop_first();
        assert forall|i: int| 0 <= i < t.len() implies t[i].0 != k by {
            assert(t[i] == s[i + 1]);
        }
        lemma_lookup_absent(t, k);
    }
}

/// Position of the entry named `name`.
pub fn find_named<T: View>(v: &Vec<Named<T>>, name: &str) -> (r: Option<usize>)
    ensures
        match r {
            Some(i) => i < v@.len() && v@[i as int].name@ == name@,
            None => forall|i: int| 0 <= i < v@.len() ==> v@[i].name@ != name@,
        },
{
    let mut i: usize = 0;
    while i < v.len()
        invariant
            i <= v@.len(),
            forall|j: int| 0 <= j < i ==> v@[j].name@ != name@,
        decreases v@.len() - i,
    {
        if text_eq(v[i].name.as_str(), name) {
            return Some(i);
        }
        i = i + 1;
    }
    None
}

proof fn lemma_update_lookup<V>(s: Seq<(Seq<char>, V)>, i: int, e: (Seq<char>, V), k: Seq<char>)
    requires
        unique_names(s),
        0 <= i < s.len(),
        e.0 == s[i].0,
    ensures
        unique_names(s.update(i, e)),
        lookup(s.update(i, e), k) == (if k == e.0 { Some(e.1) } else { lookup(s, k) }),
    decreases s.len(),
{
    let u = s.update(i, e);
    assert(unique_names(u)) by {
        assert forall|a: int, b: int| 0 <= a < b < u.len() implies u[a].0 != u[b].0 by {
            assert(u[a].0 == s[a].0 && u[b].0 == s[b].0);
        }
    }
    if i == 0 {
        assert(u.drop_first() =~= s.drop_first());
        assert(u[0] == e);
        assert(lookup(u, k) == (if u[0].0 == k { Some(u[0].1) } else { lookup(u.drop_first(), k) }));
        assert(lookup(s, k) == (if s[0].0 == k { Some(s[0].1) } else { lookup(s.drop_first(), k) }));
    } else {
        assert(u[0] == s[0]);
        assert(s[0].0 != s[i].0);
        let t = s.drop_first();
        assert(unique_names(t)) by {
            assert forall|a: int, b: int| 0 <= a < b < t.len() implies t[a].0 != t[b].0 by {
                assert(t[a] == s[a + 1] && t[b] == s[b + 1]);
            }
        }
        lemma_update_lookup(t, i - 1, e, k);
        assert(u.drop_first() =~= t.update(i - 1, e));
        assert(lookup(u, k) == (if u[0].0 == k { Some(u[0].1) } else { lookup(u.drop_first(), k) }));
        assert(lookup(s, k) == (if s[0].0 == k { Some(s[0].1) } else { lookup(t, k) }));
    }
}

proof fn lemma_push_lookup<V>(s: Seq<(Seq<char>, V)>, e: (Seq<char>, V), k: Seq<char>)
    requires
        unique_names(s),
        forall|i: int| 0 <= i < s.len() ==> s[i].0 != e.0,
    ensures
        unique_names(s.push(e)),
        lookup(s.push(e), k) == (if k == e.0 { Some(e.1) } else { lookup(s, k) }),
    decreases s.len(),
{
    let u = s.push(e);
    assert(unique_names(u)) by {
        assert forall|a: int, b: int| 0 <= a < b < u.len() implies u[a].0 != u[b].0 by {
            assert(u[a] == s[a]);
        }
    }
    if s.len() == 0 {
        assert(u.drop_first() =~= Seq::<(Seq<char>, V)>::empty());
        assert(u[0] == e);
    } else {
        let t = s.drop_first();
        assert(unique_names(t)) by {
            assert forall|a: int, b: int| 0 <= a < b < t.len() implies t[a].0 != t[b].0 by {
                assert(t[a] == s[a + 1] && t[b] == s[b + 1]);
            }
        }
        assert forall|i: int| 0 <= i < t.len() implies t[i].0 != e.0 by {
            assert(t[i] == s[i + 1]);
        }
        lemma_push_lookup(t, e, k);
        assert(u.drop_first() =~= t.push(e));
        assert(u[0] == s[0]);
        assert(lookup(u, k) == (if u[0].0 == k { Some(u[0].1) } else { lookup(u.drop_first(), k) }));
    }
}

proof fn lemma_remove_lookup<V>(s: Seq<(Seq<char>, V)>, i: int, k: Seq<char>)
    requires
        unique_names(s),
        0 <= i < s.len(),
    ensures
        unique_names(s.remove(i)),
        lookup(s.remove(i), k) == (if k == s[i].0 { None } else { lookup(s, k) }),
    decreases s.len(),
{
    let u = s.remove(i);
    assert(unique_names(u)) by {
        assert forall|a: int, b: int| 0 <= a < b < u.len() implies u[a].0 != u[b].0 by {
            let a2 = if a < i { a } else { a + 1 };
            let b2 = if b < i { b } else { b + 1 };
            assert(u[a] == s[a2] && u[b] == s[b2]);
        }
    }
    if i == 0 {
        assert(u =~= s.drop_first());
        if k == s[0].0 {
            assert forall|j: int| 0 <= j < u.len() implies u[j].0 != k by {
                assert(u[j] == s[j + 1]);
            }
            lemma_lookup_absent(u, k);
        }
    } else {
        let t = s.drop_first();
        assert(unique_names(t)) by {
            assert forall|a: int, b: int| 0 <= a < b < t.len() implies t[a].0 != t[b].0 by {
                assert(t[a] == s[a + 1] && t[b] == s[b + 1]);
            }
        }
        assert(s[0].0 != s[i].0);
        lemma_remove_lookup(t, i - 1, k);
        assert(u.drop_first() =~= t.remove(i - 1));
        assert(u[0] == s[0]);
    }
}

/// Stores `value` under `name`, replacing what was there.
pub fn set_named<T: View>(v: &mut Vec<Named<T>>, name: String, value: T)
    requires
        unique_names(named_views(old(v)@)),
    ensures
        unique_names(named_views(final(v)@)),
        forall|k: Seq<char>| #[trigger] lookup(named_views(final(v)@), k) == (if k == name@ {
            Some(value@)
        } else {
            lookup(named_views(old(v)@), k)
        }),
{
    let ghost s = named_views(v@);
    let ghost e = (name@, value@);
    match find_named(v, name.as_str()) {
        Some(i) => {
            v.set(i, Named { name, value });
            assert(named_views(v@) =~= s.update(i as int, e));
            assert forall|k: Seq<char>| #[trigger] lookup(named_views(v@), k) == (if k == e.0 { Some(e.1) } else { lookup(s, k) }) by {
                lemma_update_lookup(s, i as int, e, k);
            }
            proof {
                lemma_update_lookup(s, i as int, e, e.0);
            }
        },
        None => {
            v.push(Named { name, value });
            assert(named_views(v@) =~= s.push(e));
            assert forall|k: Seq<char>| #[trigger] lookup(named_views(v@), k) == (if k == e.0 { Some(e.1) } else { lookup(s, k) }) by {
                lemma_push_lookup(s, e, k);
            }
            proof {
                lemma_push_lookup(s, e, e.0);
            }
        },
    }
}

/// Drops the entry under `name`, if any.
pub fn remove_named<T: View>(v: &mut Vec<Named<T>>, name: &str)
    requires
        unique_names(named_views(old(v)@)),
    ensures
        unique_names(named_views(final(v)@)),
        forall|k: Seq<char>| #[trigger] lookup(named_views(final(v)@), k) == (if k == name@ {
            None
        } else {
            lookup(named_views(old(v)@), k)
        }),
{
    let ghost s = named_views(v@);
    match find_named(v, name) {
        Some(i) => {
            v.remove(i);
            assert(named_views(v@) =~= s.remove(i as int));
            assert forall|k: Seq<char>| #[trigger] lookup(named_views(v@), k) == (if k == name@ { None } else { lookup(s, k) }) by {
                lemma_remove_lookup(s, i as int, k);
            }
            proof {
                lemma_remove_lookup(s, i as int, name@);
            }
        },
        None => {
            proof {
                lemma_lookup_absent(s, name@);
            }
        },
    }
}

/// The value stored under `name`.
pub fn get_named<'a, T: View>(v: &'a Vec<Named<T>>, name: &str) -> (r: Option<&'a T>)
    requires
        unique_names(named_views(v@)),
    ensures
        match r {
            Some(x) => lookup(named_views(v@), name@) == Some(x@),
            None => lookup(named_views(v@), name@) is None,
        },
{
    let ghost s = named_views(v@);
    match find_named(v, name) {
        Some(i) => {
            proof {
                lemma_lookup_at(s, i as int);
            }
            Some(&v[i].value)
        },
        None => {
            proof {
                lemma_lookup_absent(s, name@);
            }
            None
        },
    }
}

pub proof fn lemma_insert_lookup<V>(s: Seq<(Seq<char>, V)>, i: int, e: (Seq<char>, V), k: Seq<char>)
    requires
        unique_names(s),
        0 <= i <= s.len(),
        forall|j: int| 0 <= j < s.len() ==> s[j].0 != e.0,
    ensures
        unique_names(s.insert(i, e)),
        lookup(s.insert(i, e), k) == (if k == e.0 { Some(e.1) } else { lookup(s, k) }),
    decreases s.len(),
{
    let u = s.insert(i, e);
    assert(unique_names(u)) by {
        assert forall|a: int, b: int| 0 <= a < b < u.len() implies u[a].0 != u[b].0 by {
            if a < i && b < i {
                assert(u[a] == s[a] && u[b] == s[b]);
            } else if a < i && b == i {
                assert(u[a] == s[a] && u[b] == e);
            } else if a < i {
                assert(u[a] == s[a] && u[b] == s[b - 1]);
            } else if a == i {
                assert(u[a] == e && u[b] == s[b - 1]);
            } else {
                assert(u[a] == s[a - 1] && u[b] == s[b - 1]);
            }
        }
    }
    if i == 0 {
        assert(u.drop_first() =~= s);
        assert(u[0] == e);
        if k != e.0 {
            assert(lookup(u, k) == lookup(u.drop_first(), k));
        }
    } else {
        let t = s.drop_first();
        assert(unique_names(t)) by {
            assert forall|a: int, b: int| 0 <= a < b < t.len() implies t[a].0 != t[b].0 by {
                assert(t[a] == s[a + 1] && t[b] == s[b + 1]);
            }
        }
        assert forall|j: int| 0 <= j < t.len() implies t[j].0 != e.0 by {
            assert(t[j] == s[j + 1]);
        }
        lemma_insert_lookup(t, i - 1, e, k);
        assert(u.drop_first() =~= t.insert(i - 1, e));
        assert(u[0] == s[0]);
        assert(lookup(u, k) == (if u[0].0 == k { Some(u[0].1) } else { lookup(u.drop_first(), k) }));
        assert(lookup(s, k) == (if s[0].0 == k { Some(s[0].1) } else { lookup(t, k) }));
    }
}

/// Names strictly increasing.
pub open spec fn names_sorted<V>(s: Seq<(Seq<char>, V)>) -> bool {
    forall|i: int, j: int| 0 <= i < j < s.len() ==> seq_cmp(s[i].0, s[j].0) == Ordering::Less
}

pub proof fn lemma_sorted_unique<V>(s: Seq<(Seq<char>, V)>)
    requires
        names_sorted(s),
    ensures
        unique_names(s),
{
    assert forall|i: int, j: int| 0 <= i < j < s.len() implies s[i].0 != s[j].0 by {
        lemma_seq_cmp_equal(s[i].0, s[j].0);
    }
}

/// Stores `e` in the name-sorted list `v`, replacing the value of an entry
/// with the same name.
pub fn upsert_sorted<T: View>(v: &mut Vec<Named<T>>, e: Named<T>)
    requires
        names_sorted(named_views(old(v)@)),
    ensures
        names_sorted(named_views(final(v)@)),
        forall|k: Seq<char>| #[trigger] lookup(named_views(final(v)@), k) == (if k == e.name@ {
            Some(e.value@)
        } else {
            lookup(named_views(old(v)@), k)
        }),
{
    let ghost s = named_views(v@);
    let ghost ev = e@;
    proof {
        lemma_sorted_unique(s);
    }
    let mut p: usize = 0;
    while p < v.len() && matches!(cmp_text(v[p].name.as_str(), e.name.as_str()), Ordering::Less)
        invariant
            s == named_views(v@),
            ev == e@,
            names_sorted(s),
            p <= v@.len(),
            forall|j: int| 0 <= j < p ==> seq_cmp(s[j].0, ev.0) == Ordering::Less,
        decreases v@.len() - p,
    {
        assert(s[p as int] == v@[p as int]@);
        p = p + 1;
    }
    if p < v.len() {
        assert(s[p as int] == v@[p as int]@);
        if text_eq(v[p].name.as_str(), e.name.as_str()) {
            v.set(p, e);
            assert(named_views(v@) =~= s.update(p as int, ev));
            proof {
                assert forall|k: Seq<char>| #[trigger] lookup(named_views(v@), k) == (if k == ev.0 { Some(ev.1) } else { lookup(s, k) }) by {
                    lemma_update_lookup(s, p as int, ev, k);
                }
                let u = named_views(v@);
                assert forall|a: int, b: int| 0 <= a < b < u.len() implies seq_cmp(u[a].0, u[b].0) == Ordering::Less by {
                    assert(u[a].0 == s[a].0 && u[b].0 == s[b].0);
                }
            }
            return;
        }
    }
    proof {
        assert forall|j: int| 0 <= j < s.len() implies s[j].0 != ev.0 by {
            if j < p {
                lemma_seq_cmp_equal(s[j].0, ev.0);
            } else {
                lemma_seq_cmp_equal(s[p as int].0, ev.0);
                if j > p {
                    lemma_seq_cmp_reverse(s[p as int].0, ev.0);
                    lemma_seq_cmp_transitive(ev.0, s[p as int].0, s[j].0);
                    lemma_seq_cmp_equal(ev.0, s[j].0);
                }
            }
        }
    }
    v.insert(p, e);
    let ghost u = s.insert(p as int, ev);
    assert(named_views(v@) =~= u);
    proof {
        assert forall|k: Seq<char>| #[trigger] lookup(u, k) == (if k == ev.0 { Some(ev.1) } else { lookup(s, k) }) by {
            lemma_insert_lookup(s, p as int, ev, k);
        }
        assert forall|a: int, b: int| 0 <= a < b < u.len() implies seq_cmp(u[a].0, u[b].0) == Ordering::Less by {
            if b < p {
                assert(u[a] == s[a] && u[b] == s[b]);
            } else if b == p {
                assert(u[a] == s[a] && u[b] == ev);
            } else if a < p {
                assert(u[a] == s[a] && u[b] == s[b - 1]);
            } else if a == p {
                assert(u[a] == ev && u[b] == s[b - 1]);
                lemma_seq_cmp_equal(s[p as int].0, ev.0);
                lemma_seq_cmp_reverse(s[p as int].0, ev.0);
                if b - 1 > p {
                    lemma_seq_cmp_transitive(ev.0, s[p as int].0, s[b - 1].0);
                }
            } else {
                assert(u[a] == s[a - 1] && u[b] == s[b - 1]);
            }
        }
    }
}

} // verus!
