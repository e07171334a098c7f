//! Sequences of names: views, first-occurrence deduplication, and the
//! executable searches the rest of the crate is built on.

use vstd::prelude::*;

verus! {

/// The views of the elements of `s`, in order.
pub open spec fn views<T: View>(s: Seq<T>) -> Seq<T::V> {
    Seq::new(s.len(), |i: int| s[i]@)
}

/// `s` with `x` at the end, unless `x` stands in it already.
pub open spec fn add_name<A>(s: Seq<A>, x: A) -> Seq<A> {
    if s.contains(x) {
        s
    } else {
        s.push(x)
    }
}

/// `s` without repeated values: of each value the first occurrence stays, and
/// the order of what stays is unchanged.
pub open spec fn distinct<A>(s: Seq<A>) -> Seq<A>
    decreases s.len(),
{
    if s.len() == 0 {
        Seq::empty()
    } else {
        add_name(distinct(s.drop_last()), s.last())
    }
}

/// `i` is the first index at which `x` stands in `s`.
pub open spec fn is_first_index<A>(s: Seq<A>, x: A, i: int) -> bool {
    &&& 0 <= i < s.len()
    &&& s[i] == x
    &&& forall|j: int| 0 <= j < i ==> s[j] != x
}

/// The first index at which `x` stands in `s`, if it stands there.
pub open spec fn first_index<A>(s: Seq<A>, x: A) -> Option<int> {
    if exists|i: int| is_first_index(s, x, i) {
        Some(choose|i: int| is_first_index(s, x, i))
    } else {
        None
    }
}

/// `first_index` finds `x` exactly when `s` contains it, and what it finds is
/// the first occurrence.
pub proof fn lemma_first_index<A>(s: Seq<A>, x: A)
    ensures
        match first_index(s, x) {
            Some(i) => is_first_index(s, x, i),
            None => !s.contains(x),
        },
    decreases s.len(),
{
    if s.contains(x) {
        let init = s.drop_last();
        if init.contains(x) {
            lemma_first_index(init, x);
            let i = first_index(init, x).unwrap();
            assert(is_first_index(init, x, i));
            assert(s[i] == init[i]);
            assert forall|j: int| 0 <= j < i implies s[j] != x by {
                assert(init[j] == s[j]);
            }
            assert(is_first_index(s, x, i));
        } else {
            let i = s.index_of(x);
            assert(i == s.len() - 1) by {
                if i < s.len() - 1 {
                    assert(init[i] == x);
                }
            }
            assert forall|j: int| 0 <= j < i implies s[j] != x by {
                assert(init[j] == s[j]);
            }
            assert(is_first_index(s, x, i));
        }
    }
}

/// A first index is the only one.
pub proof fn lemma_first_index_unique<A>(s: Seq<A>, x: A, i: int)
    requires
        is_first_index(s, x, i),
    ensures
        first_index(s, x) == Some(i),
{
    let k = choose|k: int| is_first_index(s, x, k);
    assert(is_first_index(s, x, k));
    assert(k == i) by {
        if k < i {
            assert(s[k] != x);
        }
        if i < k {
            assert(s[i] != x);
        }
    }
}

/// The views of a sequence with one more element are the views of the
/// sequence with the view of that element.
pub proof fn lemma_views_push<T: View>(s: Seq<T>, x: T)
    ensures
        views(s.push(x)) == views(s).push(x@),
{
    assert(views(s.push(x)) =~= views(s).push(x@));
}

/// `distinct(s)` holds exactly the values of `s`, each once.
pub proof fn lemma_distinct_properties<A>(s: Seq<A>)
    ensures
        distinct(s).no_duplicates(),
        distinct(s).len() <= s.len(),
        forall|x: A| distinct(s).contains(x) <==> s.contains(x),
    decreases s.len(),
{
    if s.len() > 0 {
        let init = s.drop_last();
        let rest = distinct(init);
        let out = distinct(s);
        lemma_distinct_properties(init);
        assert forall|x: A| out.contains(x) implies s.contains(x) by {
            let k = out.index_of(x);
            if k < rest.len() {
                assert(rest[k] == x);
                assert(rest.contains(x));
                assert(init.contains(x));
                let i = init.index_of(x);
                assert(s[i] == x);
            } else {
                assert(s[s.len() - 1] == x);
            }
        }
        assert forall|x: A| s.contains(x) implies out.contains(x) by {
            let i = s.index_of(x);
            if i < s.len() - 1 {
                assert(init[i] == x);
                assert(init.contains(x));
                assert(rest.contains(x));
                let k = rest.index_of(x);
                assert(out[k] == x);
            } else if rest.contains(x) {
                let k = rest.index_of(x);
                assert(out[k] == x);
            } else {
                assert(out[rest.len() as int] == x);
            }
        }
    }
}

/// The first index at which `name` stands in `names`, if it stands there.
pub fn position_of(names: &Vec<String>, name: &String) -> (found: Option<usize>)
    ensures
        match found {
            Some(i) => first_index(views(names@), name@) == Some(i as int),
            None => first_index(views(names@), name@) is None,
        },
{
    let mut i: usize = 0;
    while i < names.len()
        invariant
            i <= names.len(),
            forall|j: int| 0 <= j < i ==> names[j]@ != name@,
        decreases names.len() - i,
    {
        if names[i] == *name {
            proof {
                assert(is_first_index(views(names@), name@, i as int));
                lemma_first_index_unique(views(names@), name@, i as int);
            }
            return Some(i);
        }
        i += 1;
    }
    None
}

/// Whether `name` stands in `names`.
pub fn contains_name(names: &Vec<String>, name: &String) -> (found: bool)
    ensures
        found == views(names@).contains(name@),
{
    proof {
        lemma_first_index(views(names@), name@);
    }
    position_of(names, name).is_some()
}

/// Appends a copy of `name` unless it already stands in `names`.
pub fn push_distinct(names: &mut Vec<String>, name: &String)
    ensures
        views(final(names)@) == add_name(views(old(names)@), name@),
{
    if !contains_name(names, name) {
        proof {
            lemma_views_push(names@, *name);
        }
        names.push(name.clone());
    }
}

/// A copy of `names`.
pub fn clone_names(names: &Vec<String>) -> (copy: Vec<String>)
    ensures
        views(copy@) == views(names@),
{
    let mut copy: Vec<String> = Vec::new();
    let mut i: usize = 0;
    while i < names.len()
        invariant
            i <= names.len(),
            views(copy@) == views(names@).take(i as int),
        decreases names.len() - i,
    {
        proof {
            lemma_views_push(copy@, names[i as int]);
            assert(views(names@).take(i as int).push(names[i as int]@) =~= views(names@).take(
                i + 1,
            ));
        }
        copy.push(names[i].clone());
        i += 1;
    }
    assert(views(names@).take(names.len() as int) =~= views(names@));
    copy
}

/// `names` with the values of `more` added in order, each unless it is there
/// already.
pub open spec fn add_names<A>(names: Seq<A>, more: Seq<A>) -> Seq<A>
    decreases more.len(),
{
    if more.len() == 0 {
        names
    } else {
        add_name(add_names(names, more.drop_last()), more.last())
    }
}

/// Adding names keeps what was there in its place, adds nothing twice, and
/// leaves exactly the values of both.
pub proof fn lemma_add_names<A>(names: Seq<A>, more: Seq<A>)
    ensures
        names.is_prefix_of(add_names(names, more)),
        names.no_duplicates() ==> add_names(names, more).no_duplicates(),
        forall|x: A| add_names(names, more).contains(x) <==> names.contains(x) || more.contains(x),
    decreases more.len(),
{
    let all = add_names(names, more);
    if more.len() > 0 {
        let init = more.drop_last();
        let earlier = add_names(names, init);
        lemma_add_names(names, init);
        assert forall|x: A| all.contains(x) implies names.contains(x) || more.contains(x) by {
            let k = all.index_of(x);
            if k < earlier.len() {
                assert(earlier[k] == x);
                assert(earlier.contains(x));
                if init.contains(x) {
                    let i = init.index_of(x);
                    assert(more[i] == x);
                }
            } else {
                assert(more[more.len() - 1] == x);
            }
        }
        assert forall|x: A| names.contains(x) || more.contains(x) implies all.contains(x) by {
            if more.contains(x) && more.index_of(x) == more.len() - 1 {
                if earlier.contains(x) {
                    let k = earlier.index_of(x);
                    assert(all[k] == x);
                } else {
                    assert(all[earlier.len() as int] == x);
                }
            } else {
                if more.contains(x) {
                    let i = more.index_of(x);
                    assert(init[i] == x);
                    assert(init.contains(x));
                }
                assert(earlier.contains(x));
                let k = earlier.index_of(x);
                assert(all[k] == x);
            }
        }
    }
}

/// Appends a copy of each name of `more` that does not stand in `names` yet.
pub fn extend_distinct(names: &mut Vec<String>, more: &Vec<String>)
    ensures
        views(final(names)@) == add_names(views(old(names)@), views(more@)),
{
    let ghost initial = views(names@);
    let ghost added = views(more@);
    let mut i: usize = 0;
    proof {
        assert(added.take(0) =~= Seq::empty());
    }
    while i < more.len()
        invariant
            i <= more.len(),
            added == views(more@),
            views(names@) == add_names(initial, added.take(i as int)),
        decreases more.len() - i,
    {
        proof {
            assert(added.take(i + 1).drop_last() =~= added.take(i as int));
        }
        push_distinct(names, &more[i]);
        i += 1;
    }
    proof {
        assert(added.take(more.len() as int) =~= added);
    }
}

} // verus!
