//! From a list of components to one owner, and one label, per node.

use crate::components::{clustered, holds, lists, members_in_range, pairwise_disjoint};
use vstd::prelude::*;

verus! {

/// The largest number of components that the labels can number: a label is
/// a signed integer of 32 bits.
pub const MAX_CLUSTERS: usize = 0x7fff_ffff;

/// The last of the first `upto` components that lists node `v`, or -1 if
/// none of them does.
pub open spec fn last_holder(comps: Seq<Seq<usize>>, v: int, upto: nat) -> int
    decreases upto,
{
    if upto == 0 {
        -1
    } else if holds(comps, upto - 1, v) {
        upto - 1
    } else {
        last_holder(comps, v, (upto - 1) as nat)
    }
}

/// The label of node `v`: the position of the last component that lists it,
/// or -1 for a node that no component lists.
pub open spec fn label_of(comps: Seq<Seq<usize>>, v: int) -> int {
    last_holder(comps, v, comps.len())
}

/// The labels of the nodes `0..n`.
pub open spec fn labels_of(comps: Seq<Seq<usize>>, n: nat) -> Seq<int> {
    Seq::new(n, |v: int| label_of(comps, v))
}

/// What `last_holder` finds is a component that lists the node, and no later
/// one among those searched does; it finds none only if none lists the node.
pub proof fn lemma_last_holder(comps: Seq<Seq<usize>>, v: int, upto: nat)
    requires
        upto <= comps.len(),
    ensures
        -1 <= last_holder(comps, v, upto) < upto,
        last_holder(comps, v, upto) >= 0 ==> holds(comps, last_holder(comps, v, upto), v),
        forall|j: int| last_holder(comps, v, upto) < j < upto ==> !holds(comps, j, v),
    decreases upto,
{
    if upto > 0 && !holds(comps, upto - 1, v) {
        lemma_last_holder(comps, v, (upto - 1) as nat);
    }
}

/// A label is -1 exactly for the nodes that no component lists; any other
/// label is the position of a component that lists the node.
pub proof fn lemma_label_of(comps: Seq<Seq<usize>>, v: int)
    ensures
        -1 <= label_of(comps, v) < comps.len(),
        label_of(comps, v) == -1 <==> !clustered(comps, v),
        label_of(comps, v) >= 0 ==> holds(comps, label_of(comps, v), v),
{
    lemma_last_holder(comps, v, comps.len());
}

/// Where no node is in two components, the label of a member is the
/// position of its component.
pub proof fn lemma_label_of_member(comps: Seq<Seq<usize>>, k: int, v: int)
    requires
        pairwise_disjoint(comps),
        holds(comps, k, v),
    ensures
        label_of(comps, v) == k,
{
    lemma_label_of(comps, v);
}

/// The owner of every node below `n`: the position of the last component
/// that lists it, or `None`.
pub fn owners(components: &Vec<Vec<usize>>, n: usize) -> (owner: Vec<Option<usize>>)
    requires
        members_in_range(lists(components@), n as int),
    ensures
        owner@.len() == n,
        forall|v: int|
            0 <= v < n ==> (match #[trigger] owner@[v] {
                Some(k) => k as int == label_of(lists(components@), v),
                None => label_of(lists(components@), v) == -1,
            }),
{
    let ghost comps = lists(components@);
    let mut owner: Vec<Option<usize>> = Vec::new();
    let mut i: usize = 0;
    while i < n
        invariant
            i <= n,
            owner@.len() == i,
            forall|v: int| 0 <= v < i ==> owner@[v] is None,
        decreases n - i,
    {
        owner.push(None);
        i = i + 1;
    }
    let mut k: usize = 0;
    while k < components.len()
        invariant
            comps == lists(components@),
            members_in_range(comps, n as int),
            k <= components@.len(),
            owner@.len() == n,
            forall|v: int|
                0 <= v < n ==> (match #[trigger] owner@[v] {
                    Some(j) => j as int == last_holder(comps, v, k as nat),
                    None => last_holder(comps, v, k as nat) == -1,
                }),
        decreases components@.len() - k,
    {
        let members = &components[k];
        let mut t: usize = 0;
        while t < members.len()
            invariant
                comps == lists(components@),
                members_in_range(comps, n as int),
                k < components@.len(),
                members@ == comps[k as int],
                t <= members@.len(),
                owner@.len() == n,
                forall|v: int|
                    0 <= v < n ==> (match #[trigger] owner@[v] {
                        Some(j) => j as int == (if members@.subrange(0, t as int).contains(
                            v as usize,
                        ) {
                            k as int
                        } else {
                            last_holder(comps, v, k as nat)
                        }),
                        None => !members@.subrange(0, t as int).contains(v as usize)
                            && last_holder(comps, v, k as nat) == -1,
                    }),
            decreases members@.len() - t,
        {
            let node = members[t];
            proof {
                let before = members@.subrange(0, t as int);
                let after = members@.subrange(0, t + 1);
                assert forall|x: usize| after.contains(x) <==> before.contains(x) || x == node by {
                    if x == node {
                        assert(after[t as int] == x);
                    }
                }
            }
            owner[node] = Some(k);
            t = t + 1;
        }
        proof {
            assert(members@.subrange(0, t as int) =~= members@);
        }
        k = k + 1;
    }
    owner
}

/// Writes the label of every node below `n`: the position of its component,
/// or -1 for a node that no component lists. Should two components list a
/// node, the later one gives the label.
pub fn write_labels(components: &Vec<Vec<usize>>, n: usize) -> (labels: Vec<i32>)
    requires
        members_in_range(lists(components@), n as int),
        components@.len() <= MAX_CLUSTERS,
    ensures
        labels@.len() == n,
        labels@.map_values(|l: i32| l as int) == labels_of(lists(components@), n as nat),
        forall|v: int|
            0 <= v < n ==> -1 <= #[trigger] labels@[v] < components@.len() && (labels@[v] == -1
                <==> !clustered(lists(components@), v)),
{
    let ghost comps = lists(components@);
    let owner = owners(components, n);
    let mut labels: Vec<i32> = Vec::new();
    let mut v: usize = 0;
    while v < n
        invariant
            comps == lists(components@),
            comps.len() <= MAX_CLUSTERS,
            v <= n,
            owner@.len() == n,
            labels@.len() == v,
            forall|x: int|
                0 <= x < n ==> (match #[trigger] owner@[x] {
                    Some(k) => k as int == label_of(comps, x),
                    None => label_of(comps, x) == -1,
                }),
            forall|x: int| 0 <= x < v ==> (#[trigger] labels@[x]) as int == label_of(comps, x),
        decreases n - v,
    {
        proof {
            lemma_label_of(comps, v as int);
        }
        match owner[v] {
            Some(k) => {
                labels.push(k as i32);
            },
            None => {
                labels.push(-1);
            },
        }
        v = v + 1;
    }
    proof {
        assert forall|x: int| 0 <= x < n implies -1 <= #[trigger] labels@[x] < components@.len() && (
        labels@[x] == -1 <==> !clustered(comps, x)) by {
            lemma_label_of(comps, x);
        }
    }
    labels
}

} // verus!
