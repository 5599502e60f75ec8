//! Assignment of the remaining nodes to the components they touch.

use crate::components::{
    ascending, clustered, holds, lists, members_in_range, pairwise_disjoint,
};
use crate::graph::{adjacent, Graph};
use crate::labels::{label_of, lemma_label_of, lemma_label_of_member, owners};
use crate::random::choose_one;
use rand::rngs::StdRng;
use vstd::prelude::*;

verus! {

/// At the turn of node `turn`, node `u` is a member of component `k`: it was
/// one from the start, or it joined at an earlier turn.
pub open spec fn member_at_turn(
    init: Seq<Seq<usize>>,
    now: Seq<Seq<usize>>,
    k: int,
    u: int,
    turn: int,
) -> bool {
    holds(init, k, u) || (u < turn && holds(now, k, u))
}

/// At its turn, node `v` has a neighbour in component `k`.
pub open spec fn touches_at_turn(
    adj: Seq<Set<usize>>,
    init: Seq<Seq<usize>>,
    now: Seq<Seq<usize>>,
    k: int,
    v: int,
) -> bool {
    exists|u: int| #[trigger] adjacent(adj, v, u) && member_at_turn(init, now, k, u, v)
}

/// `now` has the components of `init`, each with its old members first.
pub open spec fn extends(init: Seq<Seq<usize>>, now: Seq<Seq<usize>>) -> bool {
    &&& now.len() == init.len()
    &&& forall|k: int|
        0 <= k < init.len() ==> init[k].len() <= (#[trigger] now[k]).len() && now[k].subrange(
            0,
            init[k].len() as int,
        ) == init[k]
}

/// `fin` is a possible result of assigning the border nodes of the graph to
/// the components `init`, the nodes taking their turns in ascending order:
///
/// - every component keeps its members, and new members follow them in
///   ascending order;
/// - a node that joined belonged to no component before, joined one
///   component only, and at its turn had a neighbour in that component;
/// - a node that belongs to no component had, at its turn, no neighbour in
///   any component.
pub open spec fn is_border_outcome(
    adj: Seq<Set<usize>>,
    init: Seq<Seq<usize>>,
    fin: Seq<Seq<usize>>,
) -> bool {
    &&& extends(init, fin)
    &&& members_in_range(fin, adj.len() as int)
    &&& pairwise_disjoint(fin)
    &&& forall|k: int, t: int|
        0 <= k < fin.len() && init[k].len() <= t < fin[k].len() ==> {
            let v = #[trigger] fin[k][t];
            !clustered(init, v as int) && touches_at_turn(adj, init, fin, k, v as int)
        }
    &&& forall|k: int, s: int, t: int|
        0 <= k < fin.len() && init[k].len() <= s < t < fin[k].len() ==> #[trigger] fin[k][s]
            < #[trigger] fin[k][t]
    &&& forall|k: int, v: int|
        0 <= v < adj.len() && !clustered(fin, v) && 0 <= k < fin.len() ==> !#[trigger] touches_at_turn(
            adj,
            init,
            fin,
            k,
            v,
        )
}

/// The state of the assignment when the nodes below `bound` have had their
/// turns.
spec fn border_inv(
    adj: Seq<Set<usize>>,
    init: Seq<Seq<usize>>,
    now: Seq<Seq<usize>>,
    owner: Seq<Option<usize>>,
    bound: int,
) -> bool {
    &&& extends(init, now)
    &&& now.len() <= usize::MAX
    &&& owner.len() == adj.len()
    &&& adj.len() <= usize::MAX
    &&& 0 <= bound <= adj.len()
    &&& forall|k: int, t: int|
        0 <= k < now.len() && 0 <= t < now[k].len() ==> (#[trigger] now[k][t]) < adj.len()
            && owner[now[k][t] as int] == Some(k as usize)
    &&& forall|u: int|
        0 <= u < owner.len() ==> ((#[trigger] owner[u]) matches Some(k) ==> holds(now, k as int, u))
    &&& forall|k: int, t: int|
        0 <= k < now.len() && init[k].len() <= t < now[k].len() ==> {
            let v = #[trigger] now[k][t];
            v < bound && !clustered(init, v as int) && touches_at_turn(adj, init, now, k, v as int)
        }
    &&& forall|k: int, s: int, t: int|
        0 <= k < now.len() && init[k].len() <= s < t < now[k].len() ==> #[trigger] now[k][s]
            < #[trigger] now[k][t]
    &&& forall|k: int, x: int|
        0 <= x < bound && owner[x] is None && 0 <= k < now.len() ==> !#[trigger] touches_at_turn(
            adj,
            init,
            now,
            k,
            x,
        )
}

/// What a list holds after one more entry.
proof fn lemma_push_contains(s: Seq<usize>, v: usize)
    ensures
        forall|x: usize| s.push(v).contains(x) <==> s.contains(x) || x == v,
{
    assert forall|x: usize| s.push(v).contains(x) <==> s.contains(x) || x == v by {
        if s.contains(x) {
            let i = choose|i: int| 0 <= i < s.len() && s[i] == x;
            assert(s.push(v)[i] == x);
        }
        if x == v {
            assert(s.push(v)[s.len() as int] == x);
        }
    }
}

/// A member of a component is owned by it, and either was a member from
/// the start or has had its turn.
proof fn lemma_border_member(
    adj: Seq<Set<usize>>,
    init: Seq<Seq<usize>>,
    now: Seq<Seq<usize>>,
    owner: Seq<Option<usize>>,
    bound: int,
    k: int,
    u: int,
)
    requires
        border_inv(adj, init, now, owner, bound),
        holds(now, k, u),
    ensures
        0 <= u < adj.len(),
        owner[u] == Some(k as usize),
        holds(init, k, u) || u < bound,
{
    let t = choose|t: int| 0 <= t < now[k].len() && now[k][t] == u as usize;
    if t < init[k].len() {
        assert(now[k].subrange(0, init[k].len() as int)[t] == now[k][t]);
    }
}

/// A member from the start is still a member.
proof fn lemma_extends_holds(init: Seq<Seq<usize>>, now: Seq<Seq<usize>>, k: int, u: int)
    requires
        extends(init, now),
        holds(init, k, u),
    ensures
        holds(now, k, u),
{
}

/// The components after node `v` has joined component `k`.
pub open spec fn joined(now: Seq<Seq<usize>>, k: int, v: usize) -> Seq<Seq<usize>> {
    now.update(k, now[k].push(v))
}

/// Joining a component adds one membership and takes none away.
proof fn lemma_joined_holds(now: Seq<Seq<usize>>, k: int, v: usize)
    requires
        0 <= k < now.len(),
    ensures
        forall|j: int, u: int|
            #![trigger holds(joined(now, k, v), j, u)]
            #![trigger holds(now, j, u)]
            holds(joined(now, k, v), j, u) <==> holds(now, j, u) || (j == k && u == v),
{
    lemma_push_contains(now[k], v);
}

/// The assignment starts from the components as they are.
proof fn lemma_border_start(adj: Seq<Set<usize>>, init: Seq<Seq<usize>>, owner: Seq<Option<usize>>)
    requires
        adj.len() <= usize::MAX,
        init.len() <= usize::MAX,
        owner.len() == adj.len(),
        members_in_range(init, adj.len() as int),
        pairwise_disjoint(init),
        forall|v: int|
            0 <= v < owner.len() ==> (match #[trigger] owner[v] {
                Some(k) => k as int == label_of(init, v),
                None => label_of(init, v) == -1,
            }),
    ensures
        border_inv(adj, init, init, owner, 0),
{
    assert forall|k: int| 0 <= k < init.len() implies init[k].len() <= (#[trigger] init[k]).len()
        && init[k].subrange(0, init[k].len() as int) == init[k] by {
    }
    assert forall|k: int, t: int| 0 <= k < init.len() && 0 <= t < init[k].len() implies (
    #[trigger] init[k][t]) < adj.len() && owner[init[k][t] as int] == Some(k as usize) by {
        let u = init[k][t];
        lemma_label_of_member(init, k, u as int);
    }
    assert forall|u: int| 0 <= u < owner.len() implies ((#[trigger] owner[u]) matches Some(k)
        ==> holds(init, k as int, u)) by {
        lemma_label_of(init, u);
    }
}

/// One turn at which a node joins a component that it touches.
proof fn lemma_border_join(
    adj: Seq<Set<usize>>,
    init: Seq<Seq<usize>>,
    now: Seq<Seq<usize>>,
    owner: Seq<Option<usize>>,
    v: int,
    k: int,
    u: int,
)
    requires
        border_inv(adj, init, now, owner, v),
        0 <= v < adj.len(),
        owner[v] is None,
        0 <= k < now.len(),
        adjacent(adj, v, u),
        holds(now, k, u),
    ensures
        border_inv(
            adj,
            init,
            joined(now, k, v as usize),
            owner.update(v, Some(k as usize)),
            v + 1,
        ),
{
    let next = joined(now, k, v as usize);
    let owned = owner.update(v, Some(k as usize));
    // The new member is the largest so far, so what the earlier nodes
    // touched at their turns is what it was.
    lemma_joined_holds(now, k, v as usize);
    assert forall|j: int, x: int| holds(now, j, x) implies 0 <= x < adj.len() && owner[x] == Some(
        j as usize,
    ) && (holds(init, j, x) || x < v) by {
        lemma_border_member(adj, init, now, owner, v, j, x);
    }
    assert(extends(init, next)) by {
        assert forall|j: int| 0 <= j < init.len() implies init[j].len() <= (#[trigger] next[j]).len()
            && next[j].subrange(0, init[j].len() as int) == init[j] by {
        }
    }
    assert forall|j: int, x: int|
        0 <= x < v + 1 && owned[x] is None && 0 <= j < next.len() implies !#[trigger] touches_at_turn(
        adj,
        init,
        next,
        j,
        x,
    ) by {
        if touches_at_turn(adj, init, next, j, x) {
            assert(touches_at_turn(adj, init, now, j, x));
        }
    }
}

/// One turn at which nothing changes: the node belongs to a component
/// already, or none of its neighbours does.
proof fn lemma_border_skip(
    adj: Seq<Set<usize>>,
    init: Seq<Seq<usize>>,
    now: Seq<Seq<usize>>,
    owner: Seq<Option<usize>>,
    v: int,
)
    requires
        border_inv(adj, init, now, owner, v),
        0 <= v < adj.len(),
        owner[v] is Some || forall|u: int| #[trigger] adjacent(adj, v, u) ==> owner[u] is None,
    ensures
        border_inv(adj, init, now, owner, v + 1),
{
    assert forall|k: int, x: int|
        0 <= x < v + 1 && owner[x] is None && 0 <= k < now.len() implies !#[trigger] touches_at_turn(
        adj,
        init,
        now,
        k,
        x,
    ) by {
        if x == v && touches_at_turn(adj, init, now, k, x) {
            let w = choose|w: int| #[trigger]
                adjacent(adj, x, w) && member_at_turn(init, now, k, w, x);
            if holds(init, k, w) {
                lemma_extends_holds(init, now, k, w);
            }
        }
    }
}

/// Puts `x` into an ascending list, at its place, unless it is there.
fn insert_ascending(list: &mut Vec<usize>, x: usize)
    requires
        ascending(old(list)@),
    ensures
        ascending(final(list)@),
        forall|y: usize| final(list)@.contains(y) <==> old(list)@.contains(y) || y == x,
{
    let mut at: usize = 0;
    while at < list.len() && list[at] < x
        invariant
            list@ == old(list)@,
            at <= list@.len(),
            forall|s: int| 0 <= s < at ==> list@[s] < x,
        decreases list@.len() - at,
    {
        at = at + 1;
    }
    if at < list.len() && list[at] == x {
        proof {
            assert(list@.contains(x));
        }
        return ;
    }
    list.insert(at, x);
    proof {
        let before = old(list)@;
        let after = list@;
        assert forall|y: usize| after.contains(y) <==> before.contains(y) || y == x by {
            if after.contains(y) {
                let s = choose|s: int| 0 <= s < after.len() && after[s] == y;
                if s < at {
                    assert(before[s] == y);
                } else if s > at {
                    assert(before[s - 1] == y);
                }
            }
            if before.contains(y) {
                let s = choose|s: int| 0 <= s < before.len() && before[s] == y;
                if s < at {
                    assert(after[s] == y);
                } else {
                    assert(after[s + 1] == y);
                }
            }
            if y == x {
                assert(after[at as int] == y);
            }
        }
    }
}

/// The components that `node` touches: the owners of its neighbours, each
/// once, in ascending order.
pub fn touching_components(graph: &Graph, owner: &Vec<Option<usize>>, node: usize) -> (touched: Vec<
    usize,
>)
    requires
        graph.wf(),
        owner@.len() == graph@.len(),
        node < graph@.len(),
    ensures
        ascending(touched@),
        forall|k: usize|
            touched@.contains(k) <==> exists|u: int| #[trigger]
                adjacent(graph@, node as int, u) && owner@[u] == Some(k),
{
    let neighbors = graph.neighbors(node);
    proof {
        assert forall|s: int| 0 <= s < neighbors@.len() implies (#[trigger] neighbors@[s])
            < graph@.len() by {
            assert(neighbors@.to_set().contains(neighbors@[s]));
        }
    }
    let mut touched: Vec<usize> = Vec::new();
    let mut t: usize = 0;
    while t < neighbors.len()
        invariant
            owner@.len() == graph@.len(),
            t <= neighbors@.len(),
            forall|s: int| 0 <= s < neighbors@.len() ==> (#[trigger] neighbors@[s]) < graph@.len(),
            ascending(touched@),
            forall|k: usize|
                touched@.contains(k) <==> exists|s: int|
                    0 <= s < t && owner@[(#[trigger] neighbors@[s]) as int] == Some(k),
        decreases neighbors@.len() - t,
    {
        let u = neighbors[t];
        let ghost before = touched@;
        match owner[u] {
            Some(k) => {
                insert_ascending(&mut touched, k);
                proof {
                    assert forall|j: usize| touched@.contains(j) <==> exists|s: int|
                        0 <= s < t + 1 && owner@[(#[trigger] neighbors@[s]) as int] == Some(j) by {
                        if touched@.contains(j) && j != k {
                            assert(before.contains(j));
                        }
                        if exists|s: int|
                            0 <= s < t + 1 && owner@[(#[trigger] neighbors@[s]) as int] == Some(j) {
                            let s = choose|s: int|
                                0 <= s < t + 1 && owner@[(#[trigger] neighbors@[s]) as int] == Some(
                                    j,
                                );
                            if s < t {
                                assert(before.contains(j));
                            }
                        }
                    }
                }
            },
            None => {},
        }
        t = t + 1;
    }
    proof {
        assert forall|k: usize| touched@.contains(k) <==> exists|u: int| #[trigger]
            adjacent(graph@, node as int, u) && owner@[u] == Some(k) by {
            if touched@.contains(k) {
                let s = choose|s: int|
                    0 <= s < t && owner@[(#[trigger] neighbors@[s]) as int] == Some(k);
                assert(adjacent(graph@, node as int, neighbors@[s] as int));
            }
        }
    }
    touched
}

/// Settles a border node once the draw among the components it touches is
/// made: with `Some(k)`, `k` the position of a component, the node joins
/// that component and is owned by it; with anything else nothing changes.
pub fn place_border(
    components: &mut Vec<Vec<usize>>,
    owner: &mut Vec<Option<usize>>,
    node: usize,
    picked: Option<usize>,
)
    requires
        node < old(owner)@.len(),
    ensures
        final(components)@.len() == old(components)@.len(),
        final(owner)@.len() == old(owner)@.len(),
        match picked {
            Some(k) if k < old(components)@.len() => {
                &&& lists(final(components)@) == joined(lists(old(components)@), k as int, node)
                &&& final(owner)@ == old(owner)@.update(node as int, Some(k))
            },
            _ => {
                &&& lists(final(components)@) == lists(old(components)@)
                &&& final(owner)@ == old(owner)@
            },
        },
{
    match picked {
        Some(k) => {
            if k < components.len() {
                components[k].push(node);
                owner[node] = Some(k);
            }
        },
        None => {},
    }
}

/// Assigns the border nodes to components and returns the noise.
///
/// The nodes take their turns in ascending order. A node that belongs to a
/// component already keeps its place. Any other node joins one of the
/// components that hold a neighbour of it at that moment, drawn uniformly
/// from `rng`, whereupon it counts as a member for the nodes after it; a
/// node none of whose neighbours is in a component stays out: it is noise.
/// The noise is returned in ascending order.
pub fn assign_borders(graph: &Graph, components: &mut Vec<Vec<usize>>, rng: &mut StdRng) -> (noise:
    Vec<usize>)
    requires
        graph.wf(),
        members_in_range(lists(old(components)@), graph@.len() as int),
        pairwise_disjoint(lists(old(components)@)),
    ensures
        is_border_outcome(graph@, lists(old(components)@), lists(final(components)@)),
        ascending(noise@),
        forall|v: int|
            0 <= v <= usize::MAX ==> (noise@.contains(v as usize) <==> v < graph@.len() && !clustered(
                lists(final(components)@),
                v,
            )),
{
    let n = graph.num_nodes();
    let ghost init = lists(components@);
    let mut owner = owners(components, n);
    let mut noise: Vec<usize> = Vec::new();
    proof {
        assert(components.len() <= usize::MAX);
        lemma_border_start(graph@, init, owner@);
    }
    let mut v: usize = 0;
    while v < n
        invariant
            graph.wf(),
            n == graph@.len(),
            v <= n,
            border_inv(graph@, init, lists(components@), owner@, v as int),
            ascending(noise@),
            forall|t: int| 0 <= t < noise@.len() ==> (#[trigger] noise@[t]) < v,
            forall|x: int| 0 <= x < v ==> (noise@.contains(x as usize) <==> owner@[x] is None),
        decreases n - v,
    {
        let ghost now = lists(components@);
        let ghost owned = owner@;
        let ghost quiet = noise@;
        if owner[v].is_none() {
            let touched = touching_components(graph, &owner, v);
            let picked = choose_one(rng, &touched);
            proof {
                match picked {
                    Some(k) => {
                        let u = choose|u: int| #[trigger]
                            adjacent(graph@, v as int, u) && owned[u] == Some(k);
                        lemma_border_join(graph@, init, now, owned, v as int, k as int, u);
                    },
                    None => {
                        assert forall|u: int| #[trigger]
                            adjacent(graph@, v as int, u) implies owned[u] is None by {
                            if owned[u] is Some {
                                let k = owned[u]->0;
                                assert(touched@.contains(k));
                            }
                        }
                        lemma_border_skip(graph@, init, now, owned, v as int);
                    },
                }
            }
            place_border(components, &mut owner, v, picked);
            if picked.is_none() {
                noise.push(v);
            }
        } else {
            proof {
                lemma_border_skip(graph@, init, now, owned, v as int);
            }
        }
        proof {
            lemma_push_contains(quiet, v);
            assert(!quiet.contains(v)) by {
                if quiet.contains(v) {
                    let t = choose|t: int| 0 <= t < quiet.len() && quiet[t] == v;
                    assert(quiet[t] < v);
                }
            }
            assert forall|x: int| 0 <= x < v + 1 implies (noise@.contains(x as usize)
                <==> owner@[x] is None) by {
                if x < v {
                    assert(owner@[x] == owned[x]);
                    assert(quiet.contains(x as usize) <==> owned[x] is None);
                }
            }
        }
        v = v + 1;
    }
    proof {
        let fin = lists(components@);
        assert forall|x: int| 0 <= x <= usize::MAX implies (noise@.contains(x as usize) <==> x < n
            && !clustered(fin, x)) by {
            if noise@.contains(x as usize) {
                let t = choose|t: int| 0 <= t < noise@.len() && noise@[t] == x as usize;
                assert(noise@[t] < n);
            }
            if x < n && clustered(fin, x) {
                let k = choose|k: int| holds(fin, k, x);
                lemma_border_member(graph@, init, fin, owner@, n as int, k, x);
            }
            if x < n && owner@[x] is Some {
                assert(holds(fin, owner@[x]->0 as int, x));
            }
        }
    }
    noise
}

} // verus!
