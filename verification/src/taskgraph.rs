//! The precedence graph's storage: a directed graph of task ids kept in
//! petgraph's `StableGraph`, seen by the verifier through two abstract views,
//! the set of live node indices and the multiset of directed edges.

use petgraph::stable_graph::NodeIndex;
use vstd::multiset::Multiset;
use vstd::prelude::*;
use vstd::set_lib::set_int_range;

verus! {

/// Declares petgraph's `Directed` edge-type marker so that directed graphs
/// can appear in signatures.
#[verifier::external_type_specification]
#[verifier::external_body]
pub struct ExDirected(petgraph::Directed);

/// Declares petgraph's `StableGraph`: an index-stable directed graph whose
/// node indices survive removals. Its values are opaque here; the two views
/// below give them meaning.
#[verifier::external_type_specification]
#[verifier::external_body]
#[verifier::reject_recursive_types(N)]
#[verifier::reject_recursive_types(E)]
#[verifier::reject_recursive_types(Ty)]
#[verifier::reject_recursive_types(Ix)]
pub struct ExStableGraph<N, E, Ty, Ix>(petgraph::stable_graph::StableGraph<N, E, Ty, Ix>);

/// The set of live (not yet removed) node indices of a task graph.
pub uninterp spec fn sg_nodes(g: petgraph::stable_graph::StableDiGraph<i32, i32>) -> Set<int>;

/// The multiset of directed edges (source, target) of a task graph.
pub uninterp spec fn sg_edges(
    g: petgraph::stable_graph::StableDiGraph<i32, i32>,
) -> Multiset<(int, int)>;

/// No parallel edges: every directed pair occurs at most once.
pub open spec fn simple_edges(m: Multiset<(int, int)>) -> bool {
    forall|e: (int, int)| m.count(e) <= 1
}

/// Every edge endpoint is a live node.
pub open spec fn edges_in_nodes(g: petgraph::stable_graph::StableDiGraph<i32, i32>) -> bool {
    forall|e: (int, int)|
        sg_edges(g).count(e) >= 1 ==> sg_nodes(g).contains(e.0) && sg_nodes(g).contains(e.1)
}

/// The edges left when every edge incident to node `a` is dropped.
pub open spec fn edges_without(m: Multiset<(int, int)>, a: int) -> Multiset<(int, int)> {
    m.filter(|e: (int, int)| e.0 != a && e.1 != a)
}

/// The sources of edges into `v` among the edges `m`.
pub open spec fn pred_of(m: Multiset<(int, int)>, v: int) -> Set<int> {
    Set::new(|u: int| m.count((u, v)) >= 1)
}

/// The targets of edges out of `v` among the edges `m`.
pub open spec fn succ_of(m: Multiset<(int, int)>, v: int) -> Set<int> {
    Set::new(|b: int| m.count((v, b)) >= 1)
}

/// The live predecessors of `v`: sources of edges into `v`.
pub open spec fn pred_set(
    g: petgraph::stable_graph::StableDiGraph<i32, i32>,
    v: int,
) -> Set<int> {
    pred_of(sg_edges(g), v)
}

/// The live successors of `v`: targets of edges out of `v`.
pub open spec fn succ_set(
    g: petgraph::stable_graph::StableDiGraph<i32, i32>,
    v: int,
) -> Set<int> {
    succ_of(sg_edges(g), v)
}

/// A healthy precedence graph over the task ids `0..n_tasks`: finitely many
/// live nodes, all within range, no parallel edges, every edge between live
/// nodes.
pub open spec fn graph_wf(
    g: petgraph::stable_graph::StableDiGraph<i32, i32>,
    n_tasks: int,
) -> bool {
    &&& sg_nodes(g).finite()
    &&& forall|v: int| sg_nodes(g).contains(v) ==> 0 <= v < n_tasks
    &&& simple_edges(sg_edges(g))
    &&& edges_in_nodes(g)
}

/// The dependency counters agree with the graph: each live task's `remaining`
/// entry is the number of its live (uncompleted) predecessors.
pub open spec fn remaining_ok(
    g: petgraph::stable_graph::StableDiGraph<i32, i32>,
    remaining: Seq<usize>,
) -> bool {
    forall|v: int|
        sg_nodes(g).contains(v) ==> 0 <= v < remaining.len() && #[trigger] remaining[v]
            == pred_set(g, v).len()
}

/// Predecessor sets of a healthy graph are finite and no larger than the
/// node set.
pub proof fn lemma_pred_set_finite(
    g: petgraph::stable_graph::StableDiGraph<i32, i32>,
    v: int,
    n_tasks: int,
)
    requires
        graph_wf(g, n_tasks),
    ensures
        pred_set(g, v).finite(),
        pred_set(g, v).len() <= sg_nodes(g).len(),
        pred_set(g, v).subset_of(sg_nodes(g)),
{
    assert(pred_set(g, v).subset_of(sg_nodes(g)));
    vstd::set_lib::lemma_set_subset_finite(sg_nodes(g), pred_set(g, v));
    vstd::set_lib::lemma_len_subset(pred_set(g, v), sg_nodes(g));
}

/// Successor sets of a healthy graph are finite and no larger than the node
/// set.
pub proof fn lemma_succ_set_finite(
    g: petgraph::stable_graph::StableDiGraph<i32, i32>,
    v: int,
    n_tasks: int,
)
    requires
        graph_wf(g, n_tasks),
    ensures
        succ_set(g, v).finite(),
        succ_set(g, v).len() <= sg_nodes(g).len(),
        succ_set(g, v).subset_of(sg_nodes(g)),
{
    assert(succ_set(g, v).subset_of(sg_nodes(g)));
    vstd::set_lib::lemma_set_subset_finite(sg_nodes(g), succ_set(g, v));
    vstd::set_lib::lemma_len_subset(succ_set(g, v), sg_nodes(g));
}

/// A ranking that every edge ascends: the witness that a graph is acyclic.
pub open spec fn rank_respects(m: Multiset<(int, int)>, rank: Map<int, int>) -> bool {
    forall|e: (int, int)| #[trigger] m.count(e) >= 1 ==> rank[e.0] < rank[e.1]
}

/// An edge multiset is acyclic when some ranking ascends along every edge —
/// a precedence graph is built this way, and completion only removes edges.
pub open spec fn edges_acyclic(m: Multiset<(int, int)>) -> bool {
    exists|rank: Map<int, int>| rank_respects(m, rank)
}

/// Edges that ascend in task-id order are acyclic: the identity ranking is
/// a witness. Task sets whose dependencies point from lower to higher ids —
/// the usual shape of a topologically numbered task file — qualify outright.
pub proof fn lemma_ascending_edges_acyclic(m: Multiset<(int, int)>)
    requires
        forall|e: (int, int)| #[trigger] m.count(e) >= 1 ==> e.0 < e.1,
    ensures
        edges_acyclic(m),
{
    let rank = Map::<int, int>::new(|i: int| true, |i: int| i);
    assert(rank_respects(m, rank)) by {
        assert forall|e: (int, int)| #[trigger] m.count(e) >= 1 implies rank[e.0] < rank[e.1]
            by {
            assert(rank.dom().contains(e.0) && rank.dom().contains(e.1));
            assert(rank[e.0] == e.0 && rank[e.1] == e.1);
        }
    }
}

/// Dropping edges preserves acyclicity: the same ranking still ascends.
pub proof fn lemma_edges_acyclic_sub(m: Multiset<(int, int)>, m2: Multiset<(int, int)>)
    requires
        edges_acyclic(m),
        forall|e: (int, int)| #[trigger] m2.count(e) <= m.count(e),
    ensures
        edges_acyclic(m2),
{
    let rank = choose|rank: Map<int, int>| rank_respects(m, rank);
    assert(rank_respects(m2, rank));
}

/// A finite nonempty set of task ids has a member of minimal rank.
proof fn lemma_set_argmin(s: Set<int>, rank: Map<int, int>)
    requires
        s.finite(),
        s.len() > 0,
    ensures
        exists|m: int|
            s.contains(m) && forall|x: int| s.contains(x) ==> rank[m] <= #[trigger] rank[x],
    decreases s.len(),
{
    broadcast use vstd::set::group_set_axioms;

    assert(exists|x: int| s.contains(x)) by {
        if forall|x: int| !(#[trigger] s.contains(x)) {
            assert(s =~= Set::<int>::empty());
        }
    }
    let x0 = choose|x: int| s.contains(x);
    let rest = s.remove(x0);
    if rest.len() == 0 {
        rest.lemma_len0_is_empty();
        assert forall|x: int| s.contains(x) implies rank[x0] <= #[trigger] rank[x] by {
            if x != x0 {
                assert(rest.contains(x));
            }
        }
        assert(s.contains(x0) && forall|x: int| s.contains(x) ==> rank[x0] <= #[trigger] rank[x]);
    } else {
        lemma_set_argmin(rest, rank);
        let m0 = choose|m: int|
            rest.contains(m) && forall|x: int| rest.contains(x) ==> rank[m] <= #[trigger] rank[x];
        let m = if rank[m0] <= rank[x0] {
            m0
        } else {
            x0
        };
        assert forall|x: int| s.contains(x) implies rank[m] <= #[trigger] rank[x] by {
            if x != x0 {
                assert(rest.contains(x));
            }
        }
        assert(s.contains(m) && forall|x: int| s.contains(x) ==> rank[m] <= #[trigger] rank[x]);
    }
}

/// A nonempty acyclic precedence graph always offers a source: some live
/// task whose dependency count is zero. This is why an epoch can always make
/// progress while tasks remain.
pub proof fn lemma_acyclic_has_source(
    g: petgraph::stable_graph::StableDiGraph<i32, i32>,
    remaining: Seq<usize>,
    n_tasks: int,
)
    requires
        graph_wf(g, n_tasks),
        remaining_ok(g, remaining),
        edges_acyclic(sg_edges(g)),
        sg_nodes(g).len() > 0,
    ensures
        exists|v: int|
            sg_nodes(g).contains(v) && 0 <= v < remaining.len() && #[trigger] remaining[v] == 0,
{
    let rank = choose|rank: Map<int, int>| rank_respects(sg_edges(g), rank);
    lemma_set_argmin(sg_nodes(g), rank);
    let v = choose|m: int|
        sg_nodes(g).contains(m) && forall|x: int|
            sg_nodes(g).contains(x) ==> rank[m] <= #[trigger] rank[x];
    assert(pred_set(g, v) =~= Set::<int>::empty()) by {
        assert forall|u: int| !(#[trigger] pred_set(g, v).contains(u)) by {
            if pred_set(g, v).contains(u) {
                assert(sg_edges(g).count((u, v)) >= 1);
                assert(sg_nodes(g).contains(u));
                assert(rank[u] < rank[v]);
                assert(rank[v] <= rank[u]);
            }
        }
    }
    assert(pred_set(g, v).len() == 0) by {
        broadcast use vstd::set::group_set_axioms;

    }
    assert(remaining[v] == 0);
}

/// Completion is monotone and unrepeatable: removing a live task strictly
/// shrinks the live node set, and the removed task is gone from it — so a
/// task can be completed at most once, and repeated completions drive the
/// node count down to empty. (The completion routine's contract gives the
/// new node set as exactly this removal.)
pub proof fn lemma_completion_monotonic(nodes: Set<int>, t: int)
    requires
        nodes.finite(),
        nodes.contains(t),
    ensures
        nodes.remove(t).len() < nodes.len(),
        !nodes.remove(t).contains(t),
{
    vstd::set::axiom_set_remove_len(nodes, t);
}

/// A duplicate-free neighbor list that names exactly the successors of `a`
/// has the successor set's cardinality.
pub proof fn lemma_out_neighbors_card(
    g: petgraph::stable_graph::StableDiGraph<i32, i32>,
    a: int,
    n_tasks: int,
    r: Seq<usize>,
)
    requires
        graph_wf(g, n_tasks),
        forall|i: int|
            0 <= i < r.len() ==> sg_edges(g).count((a, #[trigger] r[i] as int)) >= 1,
        forall|b: int|
            sg_edges(g).count((a, b)) >= 1 ==> exists|i: int|
                0 <= i < r.len() && r[i] as int == b,
        r.no_duplicates(),
    ensures
        r.len() == succ_set(g, a).len(),
{
    let m = r.map_values(|v: usize| v as int);
    assert(m.len() == r.len());
    assert(m.no_duplicates()) by {
        assert forall|i: int, j: int|
            0 <= i < m.len() && 0 <= j < m.len() && i != j implies m[i] != m[j] by {
            assert(r[i] != r[j]);
        }
    }
    m.unique_seq_to_set();
    assert(m.to_set() =~= succ_set(g, a)) by {
        assert forall|x: int| m.to_set().contains(x) implies succ_set(g, a).contains(x) by {
            let i = choose|i: int| 0 <= i < m.len() && m[i] == x;
            assert(sg_edges(g).count((a, r[i] as int)) >= 1);
        }
        assert forall|x: int| succ_set(g, a).contains(x) implies m.to_set().contains(x) by {
            let i = choose|i: int| 0 <= i < r.len() && #[trigger] (r[i] as int) == x;
            assert(m[i] == x);
            assert(m.contains(x));
        }
    }
}

/// Dropping every edge incident to `a` shrinks each other task's predecessor
/// set by exactly `a` (and empties the sets at `a` itself).
pub proof fn lemma_pred_of_without(m: Multiset<(int, int)>, a: int, v: int)
    ensures
        v != a ==> pred_of(edges_without(m, a), v) =~= pred_of(m, v).remove(a),
        v == a ==> pred_of(edges_without(m, a), v) =~= Set::<int>::empty(),
{
    broadcast use vstd::multiset::group_multiset_axioms;

}

/// Relies on `StableGraph::with_capacity` and `StableGraph::add_node`: a fresh
/// graph assigns node indices consecutively from zero, and starts with no
/// edges.
#[verifier::external_body]
pub(crate) fn new_task_graph(n: usize) -> (g: petgraph::stable_graph::StableDiGraph<i32, i32>)
    requires
        n < 0x7FFF_FFFF,
    ensures
        sg_nodes(g) =~= set_int_range(0, n as int),
        sg_edges(g) =~= Multiset::<(int, int)>::empty(),
{
    let mut g = petgraph::stable_graph::StableDiGraph::with_capacity(n, 0);
    for i in 0..n {
        g.add_node(i as i32);
    }
    g
}

/// Relies on petgraph's `Clone` for `StableGraph`, a field-for-field deep
/// copy: the copy has the same live nodes and the same edges.
#[verifier::external_body]
pub(crate) fn clone_graph(
    g: &petgraph::stable_graph::StableDiGraph<i32, i32>,
) -> (c: petgraph::stable_graph::StableDiGraph<i32, i32>)
    ensures
        sg_nodes(c) == sg_nodes(*g),
        sg_edges(c) == sg_edges(*g),
{
    g.clone()
}

/// Relies on `StableGraph::add_edge`: adds exactly one edge from `a` to `b`
/// and changes nothing else. `add_edge` panics when an endpoint is not a live
/// node, and refuses a graph at its edge-index limit; the `requires` rule both
/// out.
#[verifier::external_body]
pub(crate) fn add_dependency(
    g: &mut petgraph::stable_graph::StableDiGraph<i32, i32>,
    a: usize,
    b: usize,
)
    requires
        sg_nodes(*old(g)).contains(a as int),
        sg_nodes(*old(g)).contains(b as int),
        sg_edges(*old(g)).len() < 0x7FFF_FFFF,
    ensures
        sg_nodes(*final(g)) == sg_nodes(*old(g)),
        sg_edges(*final(g)) =~= sg_edges(*old(g)).insert((a as int, b as int)),
{
    g.add_edge(NodeIndex::new(a), NodeIndex::new(b), 0);
}

/// Relies on `StableGraph::remove_node`: removes node `a` together with every
/// edge incident to it, and is a no-op when `a` is not a live node.
#[verifier::external_body]
pub(crate) fn remove_task(g: &mut petgraph::stable_graph::StableDiGraph<i32, i32>, a: usize)
    ensures
        sg_nodes(*final(g)) =~= sg_nodes(*old(g)).remove(a as int),
        sg_edges(*final(g)) =~= edges_without(sg_edges(*old(g)), a as int),
{
    g.remove_node(NodeIndex::new(a));
}

/// Relies on `StableGraph::neighbors_directed` with the outgoing direction:
/// yields the target of every outgoing edge of `a`, once per edge, and nothing
/// else; an absent node yields nothing.
#[verifier::external_body]
pub(crate) fn out_neighbors(
    g: &petgraph::stable_graph::StableDiGraph<i32, i32>,
    a: usize,
) -> (r: Vec<usize>)
    ensures
        forall|i: int|
            0 <= i < r@.len() ==> sg_edges(*g).count((a as int, #[trigger] r@[i] as int)) >= 1,
        forall|b: int|
            sg_edges(*g).count((a as int, b)) >= 1 ==> exists|i: int|
                0 <= i < r@.len() && r@[i] as int == b,
        simple_edges(sg_edges(*g)) ==> r@.no_duplicates(),
{
    g.neighbors_directed(NodeIndex::new(a), petgraph::Direction::Outgoing)
        .map(|nb| nb.index())
        .collect()
}

/// Relies on `StableGraph::node_count`: the number of live nodes.
#[verifier::external_body]
pub(crate) fn node_count(g: &petgraph::stable_graph::StableDiGraph<i32, i32>) -> (n: usize)
    ensures
        n == sg_nodes(*g).len(),
{
    g.node_count()
}

} // verus!
