//! Extraction of the density-connected components of the core nodes.

use crate::connectivity::{
    core_edge, density_connected, lemma_connected_ends, lemma_connected_extend,
    lemma_connected_reflexive, lemma_connected_symmetric, lemma_connected_transitive, reaches_in,
};
use crate::graph::{symmetric, Graph};
use vstd::prelude::*;
use vstd::set_lib::{lemma_int_range, lemma_len_subset, set_int_range};

verus! {

/// No core edge leads from a node that has an owner to a node with another
/// owner or with none.
spec fn closed_under_edges(
    adj: Seq<Set<usize>>,
    core: Seq<bool>,
    owner: Seq<Option<usize>>,
) -> bool {
    forall|a: int, b: int| #[trigger]
        core_edge(adj, core, a, b) && a < owner.len() && owner[a] is Some ==> b < owner.len()
            && owner[b] == owner[a]
}

/// A list of distinct numbers below `n` has at most `n` entries.
proof fn lemma_distinct_bounded(s: Seq<usize>, n: nat)
    requires
        s.no_duplicates(),
        forall|t: int| 0 <= t < s.len() ==> s[t] < n,
    ensures
        s.len() <= n,
{
    let ints = s.map_values(|x: usize| x as int);
    ints.unique_seq_to_set();
    lemma_int_range(0, n as int);
    lemma_len_subset(ints.to_set(), set_int_range(0, n as int));
}

/// In a closed ownership an owner spreads along every walk.
proof fn lemma_closed_walk(
    adj: Seq<Set<usize>>,
    core: Seq<bool>,
    owner: Seq<Option<usize>>,
    a: int,
    b: int,
    steps: nat,
)
    requires
        closed_under_edges(adj, core, owner),
        reaches_in(adj, core, a, b, steps),
        0 <= a < owner.len(),
        owner[a] is Some,
    ensures
        0 <= b < owner.len(),
        owner[b] == owner[a],
    decreases steps,
{
    if steps > 0 {
        let m = choose|m: int| #[trigger]
            core_edge(adj, core, m, b) && reaches_in(adj, core, a, m, (steps - 1) as nat);
        lemma_closed_walk(adj, core, owner, a, m, (steps - 1) as nat);
    }
}

/// In a closed ownership density-connected nodes have the same owner, if any.
proof fn lemma_closed_connected(
    adj: Seq<Set<usize>>,
    core: Seq<bool>,
    owner: Seq<Option<usize>>,
    a: int,
    b: int,
)
    requires
        symmetric(adj),
        adj.len() <= usize::MAX,
        owner.len() == adj.len(),
        closed_under_edges(adj, core, owner),
        density_connected(adj, core, a, b),
    ensures
        0 <= a < owner.len(),
        0 <= b < owner.len(),
        owner[a] == owner[b],
{
    lemma_connected_ends(adj, core, a, b);
    let steps = choose|steps: nat| reaches_in(adj, core, a, b, steps);
    if owner[a] is Some {
        lemma_closed_walk(adj, core, owner, a, b, steps);
    } else if owner[b] is Some {
        lemma_connected_symmetric(adj, core, a, b);
        let back = choose|back: nat| reaches_in(adj, core, b, a, back);
        lemma_closed_walk(adj, core, owner, b, a, back);
    }
}

/// The state of one breadth-first search: `queue` holds the nodes found so
/// far, those before `head` have had their neighbours examined.
spec fn search_inv(
    adj: Seq<Set<usize>>,
    core: Seq<bool>,
    before: Seq<Option<usize>>,
    now: Seq<Option<usize>>,
    queue: Seq<usize>,
    head: int,
    seed: int,
    id: usize,
) -> bool {
    &&& now.len() == before.len()
    &&& now.len() == adj.len()
    &&& adj.len() <= usize::MAX
    &&& 0 <= head <= queue.len()
    &&& queue.no_duplicates()
    &&& forall|v: int|
        0 <= v < now.len() ==> #[trigger] now[v] == before[v] || (before[v] is None && now[v]
            == Some(id))
    &&& forall|t: int|
        0 <= t < queue.len() ==> {
            let q = #[trigger] queue[t];
            &&& q < now.len()
            &&& now[q as int] == Some(id)
            &&& density_connected(adj, core, seed, q as int)
        }
    &&& forall|v: int|
        0 <= v < now.len() && (#[trigger] now[v]) == Some(id) ==> queue.contains(v as usize)
    &&& forall|t: int, b: int|
        0 <= t < head && #[trigger] core_edge(adj, core, queue[t] as int, b) ==> now[b] == Some(id)
}

/// When the search has examined every node it found, the nodes owned by
/// `id` are exactly those density-connected to the seed.
proof fn lemma_search_complete(
    adj: Seq<Set<usize>>,
    core: Seq<bool>,
    before: Seq<Option<usize>>,
    now: Seq<Option<usize>>,
    queue: Seq<usize>,
    seed: int,
    id: usize,
    v: int,
    steps: nat,
)
    requires
        search_inv(adj, core, before, now, queue, queue.len() as int, seed, id),
        0 <= seed < now.len(),
        now[seed] == Some(id),
        reaches_in(adj, core, seed, v, steps),
    ensures
        0 <= v < now.len(),
        now[v] == Some(id),
    decreases steps,
{
    if steps > 0 {
        let m = choose|m: int| #[trigger]
            core_edge(adj, core, m, v) && reaches_in(adj, core, seed, m, (steps - 1) as nat);
        lemma_search_complete(adj, core, before, now, queue, seed, id, m, (steps - 1) as nat);
    }
}

/// Gives the owner `id` to every node that is density-connected to `seed`,
/// by a breadth-first search from `seed`, and changes no other owner.
fn grow_component(
    graph: &Graph,
    core: &Vec<bool>,
    owner: &mut Vec<Option<usize>>,
    seed: usize,
    id: usize,
)
    requires
        graph.wf(),
        core@.len() == graph@.len(),
        old(owner)@.len() == graph@.len(),
        seed < graph@.len(),
        core@[seed as int],
        old(owner)@[seed as int] is None,
        forall|v: int| 0 <= v < old(owner)@.len() ==> old(owner)@[v] != Some(id),
        closed_under_edges(graph@, core@, old(owner)@),
    ensures
        final(owner)@.len() == old(owner)@.len(),
        forall|v: int|
            0 <= v < old(owner)@.len() ==> #[trigger] final(owner)@[v] == (if density_connected(
                graph@,
                core@,
                seed as int,
                v,
            ) {
                Some(id)
            } else {
                old(owner)@[v]
            }),
{
    let n = graph.num_nodes();
    // A node gets its owner when it is found, so it enters the queue once.
    let mut queue: Vec<usize> = Vec::new();
    owner[seed] = Some(id);
    queue.push(seed);
    let mut head: usize = 0;
    proof {
        lemma_connected_reflexive(graph@, core@, seed as int);
        assert(queue@.contains(seed)) by {
            assert(queue@[0] == seed);
        }
    }
    while head < queue.len()
        invariant
            graph.wf(),
            n == graph@.len(),
            core@.len() == n,
            seed < n,
            owner@[seed as int] == Some(id),
            forall|v: int| 0 <= v < old(owner)@.len() ==> old(owner)@[v] != Some(id),
            closed_under_edges(graph@, core@, old(owner)@),
            old(owner)@.len() == n,
            search_inv(graph@, core@, old(owner)@, owner@, queue@, head as int, seed as int, id),
        decreases n - head,
    {
        proof {
            lemma_distinct_bounded(queue@, n as nat);
        }
        let u = queue[head];
        let neighbors = graph.neighbors(u);
        proof {
            assert forall|s: int| 0 <= s < neighbors@.len() implies (#[trigger] neighbors@[s])
                < n by {
                assert(neighbors@.to_set().contains(neighbors@[s]));
            }
        }
        let mut t: usize = 0;
        while t < neighbors.len()
            invariant
                graph.wf(),
                n == graph@.len(),
                core@.len() == n,
                seed < n,
                owner@[seed as int] == Some(id),
                forall|v: int| 0 <= v < old(owner)@.len() ==> old(owner)@[v] != Some(id),
                closed_under_edges(graph@, core@, old(owner)@),
                old(owner)@.len() == n,
                search_inv(graph@, core@, old(owner)@, owner@, queue@, head as int, seed as int, id),
                head < queue@.len(),
                u == queue@[head as int],
                t <= neighbors@.len(),
                neighbors@.to_set() == graph@[u as int],
                forall|s: int| 0 <= s < neighbors@.len() ==> (#[trigger] neighbors@[s]) < n,
                forall|s: int|
                    0 <= s < t && core@[(#[trigger] neighbors@[s]) as int]
                        ==> owner@[neighbors@[s] as int] == Some(id),
            decreases neighbors@.len() - t,
        {
            let v = neighbors[t];
            proof {
                assert(neighbors@.to_set().contains(v));
            }
            if core[v] {
                proof {
                    assert(core_edge(graph@, core@, v as int, u as int));
                }
                if owner[v].is_none() {
                    let ghost prev_queue = queue@;
                    owner[v] = Some(id);
                    queue.push(v);
                    proof {
                        lemma_connected_extend(graph@, core@, seed as int, u as int, v as int);
                        assert forall|x: int|
                            0 <= x < owner@.len() && (#[trigger] owner@[x]) == Some(
                                id,
                            ) implies queue@.contains(x as usize) by {
                            if x == v {
                                assert(queue@[prev_queue.len() as int] == v);
                            } else {
                                let i = choose|i: int|
                                    0 <= i < prev_queue.len() && prev_queue[i] == x as usize;
                                assert(queue@[i] == x as usize);
                            }
                        }
                    }
                }
            }
            t = t + 1;
        }
        head = head + 1;
    }
    proof {
        assert forall|v: int| 0 <= v < old(owner)@.len() implies #[trigger] owner@[v] == (
        if density_connected(graph@, core@, seed as int, v) {
            Some(id)
        } else {
            old(owner)@[v]
        }) by {
            if density_connected(graph@, core@, seed as int, v) {
                let steps = choose|steps: nat| reaches_in(graph@, core@, seed as int, v, steps);
                lemma_search_complete(
                    graph@,
                    core@,
                    old(owner)@,
                    owner@,
                    queue@,
                    seed as int,
                    id,
                    v,
                    steps,
                );
            }
        }
    }
}

/// The state of the extraction when every node below `bound` has been
/// considered as a seed: `count` components are complete, the `k`-th grown
/// from the seed `roots[k]`.
spec fn labeling_inv(
    adj: Seq<Set<usize>>,
    core: Seq<bool>,
    owner: Seq<Option<usize>>,
    count: int,
    bound: int,
    roots: Seq<int>,
) -> bool {
    &&& owner.len() == adj.len()
    &&& 0 <= count <= bound <= owner.len()
    &&& forall|v: int|
        0 <= v < owner.len() ==> ((#[trigger] owner[v]) matches Some(k) ==> {
            &&& k < count
            &&& core[v]
            &&& roots[k as int] <= v
            &&& density_connected(adj, core, roots[k as int], v)
        })
    &&& forall|v: int| 0 <= v < bound && core[v] ==> (#[trigger] owner[v]) is Some
    &&& closed_under_edges(adj, core, owner)
    &&& roots.len() == count
    &&& forall|k: int|
        0 <= k < count ==> 0 <= #[trigger] roots[k] < bound && owner[roots[k]] == Some(k as usize)
    &&& forall|j: int, k: int| 0 <= j < k < count ==> #[trigger] roots[j] < #[trigger] roots[k]
}

/// Growing the component of the next unowned core node keeps the state of
/// the extraction.
proof fn lemma_labeling_step(
    adj: Seq<Set<usize>>,
    core: Seq<bool>,
    before: Seq<Option<usize>>,
    after: Seq<Option<usize>>,
    count: int,
    bound: int,
    roots: Seq<int>,
)
    requires
        symmetric(adj),
        adj.len() <= usize::MAX,
        core.len() == adj.len(),
        labeling_inv(adj, core, before, count, bound, roots),
        bound < before.len(),
        core[bound],
        before[bound] is None,
        after.len() == before.len(),
        forall|v: int|
            0 <= v < before.len() ==> #[trigger] after[v] == (if density_connected(
                adj,
                core,
                bound,
                v,
            ) {
                Some(count as usize)
            } else {
                before[v]
            }),
    ensures
        labeling_inv(adj, core, after, count + 1, bound + 1, roots.push(bound)),
{
    lemma_connected_reflexive(adj, core, bound);
    // What the seed reaches had no owner, as the seed had none, and so is
    // not below the seed: every core node below it had an owner.
    assert forall|v: int| density_connected(adj, core, bound, v) implies 0 <= v < before.len()
        && before[v] is None && bound <= v by {
        lemma_closed_connected(adj, core, before, bound, v);
    }
    assert forall|a: int, b: int| #[trigger]
        core_edge(adj, core, a, b) && a < after.len() && after[a] is Some implies b < after.len()
        && after[b] == after[a] by {
        if density_connected(adj, core, bound, a) {
            lemma_connected_extend(adj, core, bound, a, b);
        }
    }
}

/// Gives every core node the number of its density-connected component;
/// the components are numbered in the order of their smallest nodes.
fn label_components(graph: &Graph, core: &Vec<bool>) -> (labeled: (
    Vec<Option<usize>>,
    usize,
    Ghost<Seq<int>>,
))
    requires
        graph.wf(),
        core@.len() == graph@.len(),
    ensures
        labeling_inv(
            graph@,
            core@,
            labeled.0@,
            labeled.1 as int,
            graph@.len() as int,
            labeled.2@,
        ),
{
    let n = graph.num_nodes();
    let mut owner: Vec<Option<usize>> = Vec::new();
    let mut i: usize = 0;
    while i < n
        invariant
            i <= n,
            owner@.len() == i,
            forall|v: int| 0 <= v < i ==> owner@[v] is None,
        decreases n - i,
    {
        owner.push(None);
        i = i + 1;
    }
    let mut count: usize = 0;
    let mut seed: usize = 0;
    let ghost mut roots: Seq<int> = Seq::empty();
    while seed < n
        invariant
            graph.wf(),
            n == graph@.len(),
            core@.len() == n,
            seed <= n,
            labeling_inv(graph@, core@, owner@, count as int, seed as int, roots),
        decreases n - seed,
    {
        if core[seed] && owner[seed].is_none() {
            let ghost before = owner@;
            grow_component(graph, core, &mut owner, seed, count);
            proof {
                lemma_labeling_step(
                    graph@,
                    core@,
                    before,
                    owner@,
                    count as int,
                    seed as int,
                    roots,
                );
                roots = roots.push(seed as int);
            }
            count = count + 1;
        }
        seed = seed + 1;
    }
    (owner, count, Ghost(roots))
}

/// The lists held by a vector of vectors.
pub open spec fn lists<T>(rows: Seq<Vec<T>>) -> Seq<Seq<T>> {
    Seq::new(rows.len(), |k: int| rows[k]@)
}

/// Node `v` is a member of the `k`-th component.
pub open spec fn holds(comps: Seq<Seq<usize>>, k: int, v: int) -> bool {
    &&& 0 <= k < comps.len()
    &&& 0 <= v <= usize::MAX
    &&& comps[k].contains(v as usize)
}

/// Node `v` is a member of some component.
pub open spec fn clustered(comps: Seq<Seq<usize>>, v: int) -> bool {
    exists|k: int| holds(comps, k, v)
}

/// No node is a member of two components.
pub open spec fn pairwise_disjoint(comps: Seq<Seq<usize>>) -> bool {
    forall|j: int, k: int, v: int|
        #[trigger] holds(comps, j, v) && #[trigger] holds(comps, k, v) ==> j == k
}

/// Every member of every component is a node below `n`.
pub open spec fn members_in_range(comps: Seq<Seq<usize>>, n: int) -> bool {
    forall|k: int, t: int|
        0 <= k < comps.len() && 0 <= t < comps[k].len() ==> (#[trigger] comps[k][t]) < n
}

/// The list is strictly ascending, so it names each member once.
pub open spec fn ascending(list: Seq<usize>) -> bool {
    forall|s: int, t: int| 0 <= s < t < list.len() ==> list[s] < list[t]
}

/// `comps` is the list of the density-connected components of the core
/// nodes: each component is one whole class of density-connected core
/// nodes, every core node is in one, the members of a component are listed
/// in ascending order, and the components are listed in the order of their
/// smallest members.
#[verifier::opaque]
pub open spec fn is_component_list(
    adj: Seq<Set<usize>>,
    core: Seq<bool>,
    comps: Seq<Seq<usize>>,
) -> bool {
    &&& forall|k: int, t: int|
        0 <= k < comps.len() && 0 <= t < comps[k].len() ==> (#[trigger] comps[k][t]) < core.len()
            && core[comps[k][t] as int]
    &&& forall|a: int| 0 <= a < core.len() && #[trigger] core[a] ==> clustered(comps, a)
    &&& forall|k: int, a: int, b: int|
        #![trigger holds(comps, k, a), density_connected(adj, core, a, b)]
        holds(comps, k, a) ==> (holds(comps, k, b) <==> density_connected(adj, core, a, b))
    &&& forall|k: int|
        0 <= k < comps.len() ==> (#[trigger] comps[k]).len() > 0 && ascending(comps[k])
    &&& forall|j: int, k: int|
        0 <= j < k < comps.len() ==> (#[trigger] comps[j])[0] < (#[trigger] comps[k])[0]
}

/// Lists the nodes of each owner in ascending order.
fn collect_components(owner: &Vec<Option<usize>>, count: usize) -> (components: Vec<Vec<usize>>)
    requires
        forall|v: int|
            0 <= v < owner@.len() ==> ((#[trigger] owner@[v]) matches Some(k) ==> k < count),
    ensures
        components@.len() == count,
        forall|k: int, t: int|
            0 <= k < count && 0 <= t < components@[k]@.len() ==> (#[trigger] components@[k]@[t])
                < owner@.len() && owner@[components@[k]@[t] as int] == Some(k as usize),
        forall|v: int|
            0 <= v < owner@.len() ==> ((#[trigger] owner@[v]) matches Some(k)
                ==> components@[k as int]@.contains(v as usize)),
        forall|k: int| 0 <= k < count ==> ascending(#[trigger] components@[k]@),
{
    let mut components: Vec<Vec<usize>> = Vec::new();
    let mut k: usize = 0;
    while k < count
        invariant
            k <= count,
            components@.len() == k,
            forall|j: int| 0 <= j < k ==> (#[trigger] components@[j])@.len() == 0,
        decreases count - k,
    {
        components.push(Vec::new());
        k = k + 1;
    }
    let n = owner.len();
    let mut v: usize = 0;
    while v < n
        invariant
            n == owner@.len(),
            v <= n,
            components@.len() == count,
            forall|x: int|
                0 <= x < owner@.len() ==> ((#[trigger] owner@[x]) matches Some(k) ==> k < count),
            forall|k: int, t: int|
                0 <= k < count && 0 <= t < components@[k]@.len() ==> (
                #[trigger] components@[k]@[t]) < v && owner@[components@[k]@[t] as int] == Some(
                    k as usize,
                ),
            forall|x: int|
                0 <= x < v ==> ((#[trigger] owner@[x]) matches Some(k)
                    ==> components@[k as int]@.contains(x as usize)),
            forall|k: int| 0 <= k < count ==> ascending(#[trigger] components@[k]@),
        decreases n - v,
    {
        match owner[v] {
            Some(k) => {
                let ghost prev = components@;
                components[k].push(v);
                proof {
                    assert forall|x: int| 0 <= x < v + 1 implies ((#[trigger] owner@[x]) matches Some(
                        j,
                    ) ==> components@[j as int]@.contains(x as usize)) by {
                        if let Some(j) = owner@[x] {
                            if x == v {
                                assert(components@[k as int]@[prev[k as int]@.len() as int] == v);
                            } else {
                                let t = choose|t: int|
                                    0 <= t < prev[j as int]@.len() && prev[j as int]@[t]
                                        == x as usize;
                                assert(components@[j as int]@[t] == x as usize);
                            }
                        }
                    }
                }
            },
            None => {},
        }
        v = v + 1;
    }
    components
}

/// The lists collected from a finished labeling are the component list.
proof fn lemma_labeling_gives_components(
    adj: Seq<Set<usize>>,
    core: Seq<bool>,
    owner: Seq<Option<usize>>,
    count: int,
    roots: Seq<int>,
    comps: Seq<Seq<usize>>,
)
    requires
        symmetric(adj),
        adj.len() <= usize::MAX,
        core.len() == adj.len(),
        labeling_inv(adj, core, owner, count, adj.len() as int, roots),
        comps.len() == count,
        forall|k: int, t: int|
            0 <= k < count && 0 <= t < comps[k].len() ==> (#[trigger] comps[k][t]) < owner.len()
                && owner[comps[k][t] as int] == Some(k as usize),
        forall|v: int|
            0 <= v < owner.len() ==> ((#[trigger] owner[v]) matches Some(k)
                ==> comps[k as int].contains(v as usize)),
        forall|k: int| 0 <= k < count ==> ascending(#[trigger] comps[k]),
    ensures
        is_component_list(adj, core, comps),
        pairwise_disjoint(comps),
{
    reveal(is_component_list);
    assert forall|a: int| 0 <= a < core.len() && #[trigger] core[a] implies clustered(comps, a) by {
        let k = owner[a]->0;
        assert(holds(comps, k as int, a));
    }
    assert forall|k: int, a: int, b: int| holds(comps, k, a) implies (holds(comps, k, b)
        <==> density_connected(adj, core, a, b)) by {
        if holds(comps, k, b) {
            lemma_connected_symmetric(adj, core, roots[k], a);
            lemma_connected_transitive(adj, core, a, roots[k], b);
        }
        if density_connected(adj, core, a, b) {
            lemma_closed_connected(adj, core, owner, a, b);
        }
    }
    assert forall|k: int| 0 <= k < comps.len() implies (#[trigger] comps[k]).len() > 0 && comps[k][0]
        == roots[k] by {
        assert(holds(comps, k, roots[k]));
    }
}

/// Extracts the density-connected components of the core nodes.
///
/// Two core nodes fall into the same component exactly if a walk over core
/// nodes joins them; a node that is not core never joins or bridges
/// components. The components come in the order of their smallest members,
/// each with its members in ascending order, so the result is the same for
/// every run on the same graph and core nodes.
pub fn extract_components(graph: &Graph, core: &Vec<bool>) -> (components: Vec<Vec<usize>>)
    requires
        graph.wf(),
        core@.len() == graph@.len(),
    ensures
        is_component_list(graph@, core@, lists(components@)),
        pairwise_disjoint(lists(components@)),
        members_in_range(lists(components@), graph@.len() as int),
        components@.len() <= graph@.len(),
{
    let (owner, count, Ghost(roots)) = label_components(graph, core);
    let components = collect_components(&owner, count);
    proof {
        lemma_labeling_gives_components(
            graph@,
            core@,
            owner@,
            count as int,
            roots,
            lists(components@),
        );
    }
    components
}

/// A member of a component is a core node, and is not smaller than the
/// component's first member.
pub proof fn lemma_component_member(
    adj: Seq<Set<usize>>,
    core: Seq<bool>,
    comps: Seq<Seq<usize>>,
    k: int,
    v: int,
)
    requires
        is_component_list(adj, core, comps),
        holds(comps, k, v),
    ensures
        0 <= v < core.len(),
        core[v],
        comps[k].len() > 0,
        comps[k][0] <= v,
        holds(comps, k, comps[k][0] as int),
        ascending(comps[k]),
{
    reveal(is_component_list);
}

/// No component is empty, and its first member is a member.
pub proof fn lemma_component_first(
    adj: Seq<Set<usize>>,
    core: Seq<bool>,
    comps: Seq<Seq<usize>>,
    k: int,
)
    requires
        is_component_list(adj, core, comps),
        0 <= k < comps.len(),
    ensures
        comps[k].len() > 0,
        holds(comps, k, comps[k][0] as int),
        ascending(comps[k]),
{
    reveal(is_component_list);
}

/// The members of a component are exactly the nodes that are
/// density-connected to any one of them.
pub proof fn lemma_component_class(
    adj: Seq<Set<usize>>,
    core: Seq<bool>,
    comps: Seq<Seq<usize>>,
    k: int,
    a: int,
    b: int,
)
    requires
        is_component_list(adj, core, comps),
        holds(comps, k, a),
    ensures
        holds(comps, k, b) <==> density_connected(adj, core, a, b),
{
    reveal(is_component_list);
}

/// Every core node is a member of some component.
pub proof fn lemma_component_covers(
    adj: Seq<Set<usize>>,
    core: Seq<bool>,
    comps: Seq<Seq<usize>>,
    a: int,
)
    requires
        is_component_list(adj, core, comps),
        0 <= a < core.len(),
        core[a],
    ensures
        clustered(comps, a),
{
    reveal(is_component_list);
}

/// Components come in the order of their first members.
pub proof fn lemma_component_order(
    adj: Seq<Set<usize>>,
    core: Seq<bool>,
    comps: Seq<Seq<usize>>,
    j: int,
    k: int,
)
    requires
        is_component_list(adj, core, comps),
        0 <= j < k < comps.len(),
    ensures
        comps[j].len() > 0,
        comps[k].len() > 0,
        comps[j][0] < comps[k][0],
{
    reveal(is_component_list);
}

/// No node is a member of a component and of a later one: the first
/// member of the earlier would be a member of the later, which starts
/// with a larger node.
proof fn lemma_not_in_later_component(
    adj: Seq<Set<usize>>,
    core: Seq<bool>,
    comps: Seq<Seq<usize>>,
    j: int,
    k: int,
    v: int,
)
    requires
        is_component_list(adj, core, comps),
        holds(comps, j, v),
        j < k,
    ensures
        !holds(comps, k, v),
{
    if holds(comps, k, v) {
        let a = comps[j][0] as int;
        lemma_component_class(adj, core, comps, j, v, a);
        lemma_component_class(adj, core, comps, k, v, a);
        lemma_component_member(adj, core, comps, k, a);
        lemma_component_order(adj, core, comps, j, k);
    }
}

/// A node is a member of one component at most.
pub proof fn lemma_component_of_node(
    adj: Seq<Set<usize>>,
    core: Seq<bool>,
    comps: Seq<Seq<usize>>,
    j: int,
    k: int,
    v: int,
)
    requires
        is_component_list(adj, core, comps),
        holds(comps, j, v),
        holds(comps, k, v),
    ensures
        j == k,
{
    if j < k {
        lemma_not_in_later_component(adj, core, comps, j, k, v);
    } else if k < j {
        lemma_not_in_later_component(adj, core, comps, k, j, v);
    }
}

/// The components of a component list never share a node.
pub proof fn lemma_components_disjoint(
    adj: Seq<Set<usize>>,
    core: Seq<bool>,
    comps: Seq<Seq<usize>>,
)
    requires
        is_component_list(adj, core, comps),
    ensures
        pairwise_disjoint(comps),
{
    assert forall|j: int, k: int, v: int| #[trigger]
        holds(comps, j, v) && #[trigger] holds(comps, k, v) implies j == k by {
        lemma_component_of_node(adj, core, comps, j, k, v);
    }
}

/// Two ascending lists with the same members are the same list.
pub proof fn lemma_ascending_equal(first: Seq<usize>, second: Seq<usize>)
    requires
        ascending(first),
        ascending(second),
        forall|x: usize| first.contains(x) <==> second.contains(x),
    ensures
        first == second,
    decreases first.len(),
{
    if first.len() == 0 {
        if second.len() > 0 {
            assert(second.contains(second[0]));
        }
    } else {
        assert(first.contains(first.last()));
        assert(second.contains(second.last()));
        let a = first.drop_last();
        let b = second.drop_last();
        assert forall|x: usize| a.contains(x) <==> b.contains(x) by {
            if a.contains(x) {
                assert(first.contains(x));
                let u = choose|u: int| 0 <= u < second.len() && second[u] == x;
                assert(b[u] == x);
            }
            if b.contains(x) {
                assert(second.contains(x));
                let u = choose|u: int| 0 <= u < first.len() && first[u] == x;
                assert(a[u] == x);
            }
        }
        lemma_ascending_equal(a, b);
        assert(first =~= a.push(first.last()));
    }
}

/// Two component lists of the same graph and core nodes that agree before
/// position `k` agree at position `k`.
proof fn lemma_same_component_at(
    adj: Seq<Set<usize>>,
    core: Seq<bool>,
    first: Seq<Seq<usize>>,
    second: Seq<Seq<usize>>,
    k: int,
)
    requires
        is_component_list(adj, core, first),
        is_component_list(adj, core, second),
        0 <= k < first.len(),
        k < second.len(),
        forall|j: int| 0 <= j < k ==> first[j] == second[j],
    ensures
        first[k] == second[k],
{
    lemma_component_first(adj, core, first, k);
    lemma_component_first(adj, core, second, k);
    let a = first[k][0] as int;
    let b = second[k][0] as int;
    lemma_component_member(adj, core, first, k, a);
    lemma_component_member(adj, core, second, k, b);
    lemma_component_covers(adj, core, second, a);
    lemma_component_covers(adj, core, first, b);
    let ka = choose|ka: int| holds(second, ka, a);
    let kb = choose|kb: int| holds(first, kb, b);
    // The first member of either component lies in no earlier component of
    // the other list, those being shared, and in no later one, which would
    // put it above the other first member and that one above it.
    if ka < k {
        lemma_component_of_node(adj, core, first, ka, k, a);
    }
    if kb < k {
        lemma_component_of_node(adj, core, second, kb, k, b);
    }
    if ka > k {
        lemma_component_member(adj, core, second, ka, a);
        lemma_component_order(adj, core, second, k, ka);
        lemma_component_member(adj, core, first, kb, b);
        if kb > k {
            lemma_component_order(adj, core, first, k, kb);
        }
        assert(false);
    }
    assert forall|x: usize| first[k].contains(x) <==> second[k].contains(x) by {
        lemma_component_class(adj, core, first, k, a, x as int);
        lemma_component_class(adj, core, second, k, a, x as int);
    }
    lemma_ascending_equal(first[k], second[k]);
}

/// Two component lists of the same graph and core nodes agree on their
/// first `m` components.
proof fn lemma_same_prefix(
    adj: Seq<Set<usize>>,
    core: Seq<bool>,
    first: Seq<Seq<usize>>,
    second: Seq<Seq<usize>>,
    m: nat,
)
    requires
        is_component_list(adj, core, first),
        is_component_list(adj, core, second),
        m <= first.len(),
        m <= second.len(),
    ensures
        forall|j: int| 0 <= j < m ==> first[j] == second[j],
    decreases m,
{
    if m > 0 {
        lemma_same_prefix(adj, core, first, second, (m - 1) as nat);
        lemma_same_component_at(adj, core, first, second, m - 1);
    }
}

/// A graph and its core nodes have one component list only: whatever
/// satisfies `is_component_list` is the same list, component by component
/// and member by member.
pub proof fn lemma_component_list_unique(
    adj: Seq<Set<usize>>,
    core: Seq<bool>,
    first: Seq<Seq<usize>>,
    second: Seq<Seq<usize>>,
)
    requires
        is_component_list(adj, core, first),
        is_component_list(adj, core, second),
    ensures
        first == second,
{
    let m = if first.len() <= second.len() {
        first.len()
    } else {
        second.len()
    };
    lemma_same_prefix(adj, core, first, second, m);
    if first.len() < second.len() {
        lemma_component_first(adj, core, second, m as int);
        let b = second[m as int][0] as int;
        lemma_component_member(adj, core, second, m as int, b);
        lemma_component_covers(adj, core, first, b);
        let kb = choose|kb: int| holds(first, kb, b);
        lemma_component_of_node(adj, core, second, kb, m as int, b);
    }
    if second.len() < first.len() {
        lemma_component_first(adj, core, first, m as int);
        let a = first[m as int][0] as int;
        lemma_component_member(adj, core, first, m as int, a);
        lemma_component_covers(adj, core, second, a);
        let ka = choose|ka: int| holds(second, ka, a);
        lemma_component_of_node(adj, core, first, ka, m as int, a);
    }
}

} // verus!
