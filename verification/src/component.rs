//! The candidate graph and its connected components.
//!
//! The nodes are the candidates, by index. Two candidates are linked when
//! they share a staked identity. Components are found breadth first and are
//! numbered in the order of their lowest member.

use crate::candidate::{Candidate, CandidateView};
use crate::names::{contains_name, views};
use vstd::prelude::*;

verus! {

/// Some identity stands in both `a` and `b`.
pub open spec fn shares_identity(a: Seq<Seq<char>>, b: Seq<Seq<char>>) -> bool {
    exists|x: Seq<char>| #[trigger] a.contains(x) && b.contains(x)
}

/// Candidates `i` and `j` share a staked identity.
pub open spec fn linked(candidates: Seq<CandidateView>, i: int, j: int) -> bool {
    &&& 0 <= i < candidates.len()
    &&& 0 <= j < candidates.len()
    &&& shares_identity(candidates[i].staked_identities, candidates[j].staked_identities)
}

/// `path` walks through the graph: it is not empty, it names candidates, and
/// each step goes from a candidate to one linked with it.
pub open spec fn is_path(candidates: Seq<CandidateView>, path: Seq<int>) -> bool {
    &&& path.len() > 0
    &&& forall|k: int| 0 <= k < path.len() ==> 0 <= #[trigger] path[k] < candidates.len()
    &&& forall|k: int| 0 < k < path.len() ==> linked(candidates, path[k - 1], #[trigger] path[k])
}

/// A path leads from `i` to `j`. Every candidate is connected with itself.
pub open spec fn connected(candidates: Seq<CandidateView>, i: int, j: int) -> bool {
    exists|path: Seq<int>|
        #[trigger] is_path(candidates, path) && path.first() == i && path.last() == j
}

/// `r` is the lowest candidate of its component.
pub open spec fn is_root(candidates: Seq<CandidateView>, r: int) -> bool {
    &&& 0 <= r < candidates.len()
    &&& forall|j: int| #[trigger] connected(candidates, j, r) ==> r <= j
}

/// `r` is the lowest candidate connected with `i`.
pub open spec fn is_root_of(candidates: Seq<CandidateView>, r: int, i: int) -> bool {
    &&& connected(candidates, r, i)
    &&& forall|j: int| #[trigger] connected(candidates, j, i) ==> r <= j
}

/// The lowest candidate connected with `i`.
pub open spec fn root_of(candidates: Seq<CandidateView>, i: int) -> int {
    choose|r: int| is_root_of(candidates, r, i)
}

/// The number of roots below `n`.
pub open spec fn roots_below(candidates: Seq<CandidateView>, n: int) -> nat
    decreases n,
{
    if n <= 0 {
        0
    } else {
        roots_below(candidates, n - 1) + if is_root(candidates, n - 1) {
            1nat
        } else {
            0nat
        }
    }
}

/// The number of the component of candidate `i`: components are counted from
/// zero in the order of their lowest members.
pub open spec fn component_of(candidates: Seq<CandidateView>, i: int) -> nat {
    roots_below(candidates, root_of(candidates, i))
}

/// The number of components.
pub open spec fn component_count(candidates: Seq<CandidateView>) -> nat {
    roots_below(candidates, candidates.len() as int)
}

/// A link holds in both directions.
pub proof fn lemma_linked_symmetric(candidates: Seq<CandidateView>, i: int, j: int)
    requires
        linked(candidates, i, j),
    ensures
        linked(candidates, j, i),
{
    let a = candidates[i].staked_identities;
    let b = candidates[j].staked_identities;
    let x = choose|x: Seq<char>| #[trigger] a.contains(x) && b.contains(x);
    assert(b.contains(x) && a.contains(x));
}

/// Every candidate is connected with itself.
pub proof fn lemma_connected_reflexive(candidates: Seq<CandidateView>, i: int)
    requires
        0 <= i < candidates.len(),
    ensures
        connected(candidates, i, i),
{
    let path = seq![i];
    assert(is_path(candidates, path));
    assert(path.first() == i && path.last() == i);
}

/// A connection reaches one link further.
pub proof fn lemma_connected_extend(candidates: Seq<CandidateView>, i: int, j: int, k: int)
    requires
        connected(candidates, i, j),
        linked(candidates, j, k),
    ensures
        connected(candidates, i, k),
{
    let path = choose|path: Seq<int>|
        #[trigger] is_path(candidates, path) && path.first() == i && path.last() == j;
    let longer = path.push(k);
    assert forall|n: int| 0 < n < longer.len() implies linked(
        candidates,
        longer[n - 1],
        #[trigger] longer[n],
    ) by {
        if n < path.len() {
            assert(linked(candidates, path[n - 1], path[n]));
        }
    }
    assert(is_path(candidates, longer));
    assert(longer.first() == i && longer.last() == k);
}

/// A connection holds in both directions.
pub proof fn lemma_connected_symmetric(candidates: Seq<CandidateView>, i: int, j: int)
    requires
        connected(candidates, i, j),
    ensures
        connected(candidates, j, i),
{
    let path = choose|path: Seq<int>|
        #[trigger] is_path(candidates, path) && path.first() == i && path.last() == j;
    let back = Seq::new(path.len(), |n: int| path[path.len() - 1 - n]);
    assert forall|n: int| 0 < n < back.len() implies linked(
        candidates,
        back[n - 1],
        #[trigger] back[n],
    ) by {
        let m = path.len() - n;
        assert(linked(candidates, path[m - 1], path[m]));
        lemma_linked_symmetric(candidates, path[m - 1], path[m]);
    }
    assert(is_path(candidates, back));
    assert(back.first() == j && back.last() == i);
}

/// Two connections that meet make one.
pub proof fn lemma_connected_transitive(candidates: Seq<CandidateView>, i: int, j: int, k: int)
    requires
        connected(candidates, i, j),
        connected(candidates, j, k),
    ensures
        connected(candidates, i, k),
{
    let first = choose|path: Seq<int>|
        #[trigger] is_path(candidates, path) && path.first() == i && path.last() == j;
    let second = choose|path: Seq<int>|
        #[trigger] is_path(candidates, path) && path.first() == j && path.last() == k;
    let whole = first + second.drop_first();
    assert forall|n: int| 0 < n < whole.len() implies linked(
        candidates,
        whole[n - 1],
        #[trigger] whole[n],
    ) by {
        if n < first.len() {
            assert(linked(candidates, first[n - 1], first[n]));
        } else {
            let m = n - first.len() + 1;
            assert(linked(candidates, second[m - 1], second[m]));
        }
    }
    assert(is_path(candidates, whole));
    assert(whole.first() == i && whole.last() == k);
}

/// The ends of a connection are candidates.
pub proof fn lemma_connected_in_range(candidates: Seq<CandidateView>, i: int, j: int)
    requires
        connected(candidates, i, j),
    ensures
        0 <= i < candidates.len(),
        0 <= j < candidates.len(),
{
    let path = choose|path: Seq<int>|
        #[trigger] is_path(candidates, path) && path.first() == i && path.last() == j;
    assert(0 <= path[0] < candidates.len());
    assert(0 <= path[path.len() - 1] < candidates.len());
}

/// Whether two candidates share a staked identity.
pub fn shares_staked_identity(a: &Candidate, b: &Candidate) -> (shared: bool)
    ensures
        shared == shares_identity(a@.staked_identities, b@.staked_identities),
{
    let ghost left = views(a.staked_identities@);
    let ghost right = views(b.staked_identities@);
    let mut i: usize = 0;
    while i < a.staked_identities.len()
        invariant
            i <= a.staked_identities.len(),
            left == views(a.staked_identities@),
            right == views(b.staked_identities@),
            forall|k: int| 0 <= k < i ==> !right.contains(#[trigger] left[k]),
        decreases a.staked_identities.len() - i,
    {
        if contains_name(&b.staked_identities, &a.staked_identities[i]) {
            proof {
                assert(left.contains(left[i as int]));
            }
            return true;
        }
        i += 1;
    }
    proof {
        assert forall|x: Seq<char>| !(#[trigger] left.contains(x) && right.contains(x)) by {
            if left.contains(x) {
                let k = left.index_of(x);
                assert(!right.contains(left[k]));
            }
        }
    }
    false
}

/// A labelling is closed when a link never leaves a labelled candidate for
/// one that is labelled otherwise or not at all.
pub open spec fn is_closed(candidates: Seq<CandidateView>, labels: Seq<Option<usize>>) -> bool {
    forall|i: int, j: int|
        #![trigger linked(candidates, i, j)]
        0 <= i < labels.len() && labels[i] is Some && linked(candidates, i, j) ==> labels[j]
            == labels[i]
}

/// The number of candidates without a label.
pub open spec fn unlabelled(labels: Seq<Option<usize>>) -> nat
    decreases labels.len(),
{
    if labels.len() == 0 {
        0
    } else {
        unlabelled(labels.drop_last()) + if labels.last() is None {
            1nat
        } else {
            0nat
        }
    }
}

/// Labelling a candidate that had no label leaves one fewer without.
proof fn lemma_label_one(labels: Seq<Option<usize>>, v: int, id: usize)
    requires
        0 <= v < labels.len(),
        labels[v] is None,
    ensures
        unlabelled(labels.update(v, Some(id))) + 1 == unlabelled(labels),
    decreases labels.len(),
{
    let after = labels.update(v, Some(id));
    if v == labels.len() - 1 {
        assert(after.drop_last() =~= labels.drop_last());
    } else {
        lemma_label_one(labels.drop_last(), v, id);
        assert(after.drop_last() =~= labels.drop_last().update(v, Some(id)));
    }
}

/// Under a closed labelling a path that starts at a labelled candidate stays
/// within that label.
pub proof fn lemma_closed_along_path(
    candidates: Seq<CandidateView>,
    labels: Seq<Option<usize>>,
    path: Seq<int>,
    k: int,
)
    requires
        labels.len() == candidates.len(),
        is_closed(candidates, labels),
        is_path(candidates, path),
        labels[path[0]] is Some,
        0 <= k < path.len(),
    ensures
        labels[path[k]] == labels[path[0]],
    decreases k,
{
    if k > 0 {
        lemma_closed_along_path(candidates, labels, path, k - 1);
        assert(0 <= path[k - 1] < candidates.len());
        assert(linked(candidates, path[k - 1], path[k]));
    }
}

/// Under a closed labelling connected candidates carry one label, if either
/// carries any.
pub proof fn lemma_closed_connected(
    candidates: Seq<CandidateView>,
    labels: Seq<Option<usize>>,
    i: int,
    j: int,
)
    requires
        labels.len() == candidates.len(),
        is_closed(candidates, labels),
        connected(candidates, i, j),
        labels[i] is Some,
    ensures
        labels[j] == labels[i],
{
    let path = choose|path: Seq<int>|
        #[trigger] is_path(candidates, path) && path.first() == i && path.last() == j;
    lemma_closed_along_path(candidates, labels, path, path.len() - 1);
}

/// What a search from `start` has done to the labels so far: a candidate has
/// the label it had, or had none and has the new one, which only candidates
/// connected with `start` get.
pub open spec fn labelled_from(
    candidates: Seq<CandidateView>,
    before: Seq<Option<usize>>,
    labels: Seq<Option<usize>>,
    start: int,
    id: usize,
) -> bool {
    &&& labels.len() == before.len()
    &&& forall|i: int|
        0 <= i < labels.len() ==> (#[trigger] labels[i]) == before[i] || (before[i] is None
            && labels[i] == Some(id) && connected(candidates, start, i))
}

/// Labels with `id` every candidate connected with `start`, breadth first.
fn label_component(
    candidates: &Vec<Candidate>,
    labels: &mut Vec<Option<usize>>,
    start: usize,
    id: usize,
)
    requires
        old(labels).len() == candidates.len(),
        start < candidates.len(),
        old(labels)[start as int] is None,
        is_closed(views(candidates@), old(labels)@),
        forall|i: int|
            0 <= i < old(labels).len() ==> (#[trigger] old(labels)[i] matches Some(c) ==> c < id),
    ensures
        final(labels)[start as int] == Some(id),
        is_closed(views(candidates@), final(labels)@),
        labelled_from(views(candidates@), old(labels)@, final(labels)@, start as int, id),
{
    let ghost graph = views(candidates@);
    let ghost before = labels@;
    let n = candidates.len();
    let mut queue: Vec<usize> = Vec::new();
    proof {
        lemma_label_one(labels@, start as int, id);
        lemma_connected_reflexive(graph, start as int);
    }
    labels[start] = Some(id);
    queue.push(start);
    let mut head: usize = 0;
    proof {
        assert(queue@[0] == start);
    }
    while head < queue.len()
        invariant
            n == candidates.len(),
            graph == views(candidates@),
            before.len() == n,
            start < n,
            is_closed(graph, before),
            forall|i: int| 0 <= i < n ==> (#[trigger] before[i] matches Some(c) ==> c < id),
            labelled_from(graph, before, labels@, start as int, id),
            labels[start as int] == Some(id),
            head <= queue.len(),
            forall|k: int|
                0 <= k < queue.len() ==> (#[trigger] queue[k]) < n && labels[queue[k] as int]
                    == Some(id),
            forall|i: int|
                0 <= i < n && (#[trigger] labels[i]) == Some(id) ==> queue@.contains(i as usize),
            forall|k: int, j: int|
                0 <= k < head && #[trigger] linked(graph, queue[k] as int, j) ==> labels[j] is Some,
        decreases unlabelled(labels@) + queue.len() - head,
    {
        let u = queue[head];
        let ghost budget = unlabelled(labels@) + queue.len();
        let mut v: usize = 0;
        while v < n
            invariant
                n == candidates.len(),
                graph == views(candidates@),
                before.len() == n,
                start < n,
                head < queue.len(),
                u == queue[head as int],
                is_closed(graph, before),
                forall|i: int| 0 <= i < n ==> (#[trigger] before[i] matches Some(c) ==> c < id),
                labelled_from(graph, before, labels@, start as int, id),
                labels[start as int] == Some(id),
                forall|k: int|
                    0 <= k < queue.len() ==> (#[trigger] queue[k]) < n && labels[queue[k] as int]
                        == Some(id),
                forall|i: int|
                    0 <= i < n && (#[trigger] labels[i]) == Some(id) ==> queue@.contains(
                        i as usize,
                    ),
                forall|k: int, j: int|
                    0 <= k < head && #[trigger] linked(graph, queue[k] as int, j)
                        ==> labels[j] is Some,
                v <= n,
                forall|j: int|
                    0 <= j < v && #[trigger] linked(graph, u as int, j) ==> labels[j] is Some,
                unlabelled(labels@) + queue.len() == budget,
            decreases n - v,
        {
            if labels[v].is_none() && shares_staked_identity(&candidates[u], &candidates[v]) {
                let ghost labels_before = labels@;
                let ghost queue_before = queue@;
                proof {
                    lemma_label_one(labels@, v as int, id);
                    assert(linked(graph, u as int, v as int));
                    assert(labels[u as int] == Some(id));
                    assert(connected(graph, start as int, u as int));
                    lemma_connected_extend(graph, start as int, u as int, v as int);
                }
                labels[v] = Some(id);
                queue.push(v);
                proof {
                    assert(queue@[queue_before.len() as int] == v);
                    assert forall|i: int|
                        0 <= i < n && (#[trigger] labels[i]) == Some(id) implies queue@.contains(
                        i as usize,
                    ) by {
                        if i == v {
                            assert(queue@[queue_before.len() as int] == i as usize);
                        } else {
                            assert(labels_before[i] == Some(id));
                            assert(queue_before.contains(i as usize));
                            let k = queue_before.index_of(i as usize);
                            assert(queue@[k] == i as usize);
                        }
                    }
                    assert forall|k: int|
                        0 <= k < queue.len() implies (#[trigger] queue[k]) < n
                        && labels[queue[k] as int] == Some(id) by {
                        if k < queue_before.len() {
                            assert(queue_before[k] == queue[k]);
                        }
                    }
                    assert forall|k: int, j: int|
                        0 <= k < head && #[trigger] linked(
                            graph,
                            queue[k] as int,
                            j,
                        ) implies labels[j] is Some by {
                        assert(queue_before[k] == queue[k]);
                        assert(labels_before[j] is Some);
                    }
                    assert forall|j: int|
                        0 <= j < v + 1 && #[trigger] linked(
                            graph,
                            u as int,
                            j,
                        ) implies labels[j] is Some by {
                        if j < v {
                            assert(labels_before[j] is Some);
                        }
                    }
                }
            }
            v += 1;
        }
        head += 1;
    }
    proof {
        assert forall|i: int, j: int|
            #![trigger linked(graph, i, j)]
            0 <= i < labels.len() && labels[i] is Some && linked(
                graph,
                i,
                j,
            ) implies labels[j] == labels[i] by {
            if labels[i] == before[i] {
                assert(before[j] == before[i]);
            } else {
                assert(queue@.contains(i as usize));
                let k = queue@.index_of(i as usize);
                assert(linked(graph, queue[k] as int, j));
                assert(labels[j] is Some);
                if labels[j] == before[j] {
                    lemma_linked_symmetric(graph, i, j);
                    assert(before[i] == before[j]);
                }
            }
        }
    }
}

/// There are no more roots below `n` than candidates below `n`, and a root
/// below `n` is counted.
pub proof fn lemma_roots_below(candidates: Seq<CandidateView>, r: int, n: int)
    requires
        0 <= r <= n,
    ensures
        roots_below(candidates, n) <= n,
        roots_below(candidates, r) <= roots_below(candidates, n),
        r < n && is_root(candidates, r) ==> roots_below(candidates, r) < roots_below(candidates, n),
    decreases n,
{
    if n > 0 {
        if r < n {
            lemma_roots_below(candidates, r, n - 1);
        } else {
            lemma_roots_below(candidates, 0, n - 1);
        }
    }
}

/// The lowest candidate connected with `i` is `r`, where `r` is a root
/// connected with `i`.
pub proof fn lemma_root_of(candidates: Seq<CandidateView>, r: int, i: int)
    requires
        is_root(candidates, r),
        connected(candidates, r, i),
    ensures
        is_root_of(candidates, r, i),
        root_of(candidates, i) == r,
{
    assert forall|j: int| #[trigger] connected(candidates, j, i) implies r <= j by {
        lemma_connected_symmetric(candidates, r, i);
        lemma_connected_transitive(candidates, j, i, r);
    }
    assert(is_root_of(candidates, r, i));
    let chosen = root_of(candidates, i);
    assert(is_root_of(candidates, chosen, i));
    assert(connected(candidates, chosen, i));
}

/// The components of a run of candidates: for each candidate the number of
/// its component, and the number of components.
#[derive(Debug, PartialEq, Eq)]
pub struct Components {
    pub labels: Vec<usize>,
    pub count: usize,
}

/// Finds the connected components of the candidate graph.
pub fn connected_components(candidates: &Vec<Candidate>) -> (components: Components)
    ensures
        components.labels.len() == candidates.len(),
        forall|i: int|
            0 <= i < candidates.len() ==> (#[trigger] components.labels[i]) == component_of(
                views(candidates@),
                i,
            ),
        components.count == component_count(views(candidates@)),
{
    let ghost graph = views(candidates@);
    let n = candidates.len();
    let mut labels: Vec<Option<usize>> = Vec::new();
    let mut i: usize = 0;
    while i < n
        invariant
            i <= n,
            labels.len() == i,
            forall|k: int| 0 <= k < i ==> (#[trigger] labels[k]) is None,
        decreases n - i,
    {
        labels.push(None);
        i += 1;
    }
    let mut count: usize = 0;
    let ghost mut roots: Seq<int> = Seq::empty();
    let mut start: usize = 0;
    while start < n
        invariant
            n == candidates.len(),
            graph == views(candidates@),
            start <= n,
            labels.len() == n,
            is_closed(graph, labels@),
            roots.len() == count,
            count == roots_below(graph, start as int),
            forall|k: int| 0 <= k < start ==> (#[trigger] labels[k]) is Some,
            forall|k: int|
                0 <= k < n ==> (#[trigger] labels[k] matches Some(c) ==> c < count && connected(
                    graph,
                    roots[c as int],
                    k,
                )),
            forall|c: int|
                0 <= c < count ==> 0 <= (#[trigger] roots[c]) < start && is_root(graph, roots[c])
                    && roots_below(graph, roots[c]) == c,
        decreases n - start,
    {
        proof {
            lemma_roots_below(graph, 0, start as int);
        }
        match labels[start] {
            Some(c) => {
                proof {
                    let r = roots[c as int];
                    assert(connected(graph, r, start as int));
                    assert(!is_root(graph, start as int));
                }
            },
            None => {
                proof {
                    assert forall|j: int| #[trigger] connected(
                        graph,
                        j,
                        start as int,
                    ) implies start <= j by {
                        lemma_connected_in_range(graph, j, start as int);
                        if j < start {
                            assert(labels[j] is Some);
                            lemma_closed_connected(graph, labels@, j, start as int);
                        }
                    }
                    assert(is_root(graph, start as int));
                }
                let ghost before = labels@;
                label_component(candidates, &mut labels, start, count);
                proof {
                    roots = roots.push(start as int);
                    assert forall|k: int| 0 <= k < n implies (#[trigger] labels[k] matches Some(c)
                        ==> c < count + 1 && connected(graph, roots[c as int], k)) by {
                        if labels[k] == before[k] {
                            assert(before[k] matches Some(c) ==> c < count);
                        }
                    }
                    assert forall|k: int| 0 <= k < start + 1 implies (
                    #[trigger] labels[k]) is Some by {
                        if k < start {
                            assert(before[k] is Some);
                        }
                    }
                }
                count += 1;
            },
        }
        start += 1;
    }
    let mut numbers: Vec<usize> = Vec::new();
    let mut k: usize = 0;
    while k < n
        invariant
            n == candidates.len(),
            graph == views(candidates@),
            labels.len() == n,
            k <= n,
            numbers.len() == k,
            roots.len() == count,
            forall|j: int| 0 <= j < n ==> (#[trigger] labels[j]) is Some,
            forall|j: int|
                0 <= j < n ==> (#[trigger] labels[j] matches Some(c) ==> c < count && connected(
                    graph,
                    roots[c as int],
                    j,
                )),
            forall|c: int|
                0 <= c < count ==> is_root(graph, #[trigger] roots[c]) && roots_below(
                    graph,
                    roots[c],
                ) == c,
            forall|j: int| 0 <= j < k ==> (#[trigger] numbers[j]) == component_of(graph, j),
        decreases n - k,
    {
        match labels[k] {
            Some(c) => {
                proof {
                    lemma_root_of(graph, roots[c as int], k as int);
                }
                numbers.push(c);
            },
            None => {
                proof {
                    assert(labels[k as int] is Some);
                }
                numbers.push(0);
            },
        }
        k += 1;
    }
    Components { labels: numbers, count }
}

/// Every candidate has a lowest candidate connected with it.
pub proof fn lemma_has_root(candidates: Seq<CandidateView>, i: int)
    requires
        0 <= i < candidates.len(),
    ensures
        is_root_of(candidates, root_of(candidates, i), i),
        is_root(candidates, root_of(candidates, i)),
        0 <= root_of(candidates, i) <= i,
{
    lemma_connected_reflexive(candidates, i);
    lemma_least_connected(candidates, i, i);
    let r = root_of(candidates, i);
    lemma_connected_in_range(candidates, r, i);
    assert forall|j: int| #[trigger] connected(candidates, j, r) implies r <= j by {
        lemma_connected_transitive(candidates, j, r, i);
    }
}

/// Among the candidates connected with `i` there is a lowest.
proof fn lemma_least_connected(candidates: Seq<CandidateView>, i: int, k: int)
    requires
        0 <= k,
        connected(candidates, k, i),
    ensures
        exists|r: int| is_root_of(candidates, r, i),
    decreases k,
{
    if exists|j: int| 0 <= j < k && connected(candidates, j, i) {
        let j = choose|j: int| 0 <= j < k && connected(candidates, j, i);
        lemma_least_connected(candidates, i, j);
    } else {
        assert forall|j: int| #[trigger] connected(candidates, j, i) implies k <= j by {
            lemma_connected_in_range(candidates, j, i);
        }
        assert(is_root_of(candidates, k, i));
    }
}

/// The components partition the candidates: two candidates have the same
/// component number exactly when they are connected.
pub proof fn lemma_components_partition(candidates: Seq<CandidateView>, i: int, j: int)
    requires
        0 <= i < candidates.len(),
        0 <= j < candidates.len(),
    ensures
        component_of(candidates, i) == component_of(candidates, j) <==> connected(
            candidates,
            i,
            j,
        ),
        component_of(candidates, i) < component_count(candidates),
{
    lemma_has_root(candidates, i);
    lemma_has_root(candidates, j);
    let ri = root_of(candidates, i);
    let rj = root_of(candidates, j);
    lemma_roots_below(candidates, ri, candidates.len() as int);
    if connected(candidates, i, j) {
        lemma_connected_transitive(candidates, ri, i, j);
        lemma_root_of(candidates, ri, j);
    }
    if component_of(candidates, i) == component_of(candidates, j) {
        if ri < rj {
            lemma_roots_below(candidates, ri, rj);
        }
        if rj < ri {
            lemma_roots_below(candidates, rj, ri);
        }
        lemma_connected_symmetric(candidates, ri, i);
        lemma_connected_transitive(candidates, i, ri, j);
    }
}

} // verus!
