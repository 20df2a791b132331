//! The tree of districts: which district lies within which.

use vstd::prelude::*;
use std::collections::HashMap;

use crate::bezirk::RawBezirk;

verus! {

broadcast use vstd::std_specs::hash::group_hash_axioms;

#[verifier::external_type_specification]
#[verifier::external_body]
#[verifier::reject_recursive_types(N)]
#[verifier::reject_recursive_types(E)]
#[verifier::reject_recursive_types(Ty)]
#[verifier::reject_recursive_types(Ix)]
pub struct ExGraph<N, E, Ty, Ix>(petgraph::Graph<N, E, Ty, Ix>);

#[verifier::external_type_specification]
#[verifier::external_body]
pub struct ExDirected(petgraph::Directed);

/// The node weights of a petgraph graph of district names, by node index.
pub uninterp spec fn tree_nodes(g: petgraph::Graph<String, ()>) -> Seq<Seq<char>>;

/// The edges of a petgraph graph of district names, as (source, target) node
/// indices, by edge index.
pub uninterp spec fn tree_edges(g: petgraph::Graph<String, ()>) -> Seq<(nat, nat)>;

/// `petgraph::Graph::new`: a directed graph with no node and no edge.
#[verifier::external_body]
fn graph_new() -> (g: petgraph::Graph<String, ()>)
    ensures
        tree_nodes(g) == Seq::<Seq<char>>::empty(),
        tree_edges(g) == Seq::<(nat, nat)>::empty(),
{
    petgraph::Graph::new()
}

/// `petgraph::Graph::add_node`: appends a node with weight `name`, leaves the
/// edges as they are, and returns the new node's index, which is the number of
/// nodes before the call. It panics when the node count has reached the
/// maximum of the `u32` index type.
#[verifier::external_body]
fn graph_add_node(g: &mut petgraph::Graph<String, ()>, name: String) -> (idx: usize)
    requires
        tree_nodes(*old(g)).len() < u32::MAX,
    ensures
        tree_nodes(*final(g)) == tree_nodes(*old(g)).push(name@),
        tree_edges(*final(g)) == tree_edges(*old(g)),
        idx == tree_nodes(*old(g)).len(),
{
    g.add_node(name).index()
}

/// `petgraph::Graph::add_edge`: appends an edge from node `a` to node `b`
/// and leaves the nodes as they are. It panics when a node does not exist or
/// when the edge count has reached the maximum of the `u32` index type.
#[verifier::external_body]
fn graph_add_edge(g: &mut petgraph::Graph<String, ()>, a: usize, b: usize)
    requires
        a < tree_nodes(*old(g)).len(),
        b < tree_nodes(*old(g)).len(),
        tree_edges(*old(g)).len() < u32::MAX,
    ensures
        tree_nodes(*final(g)) == tree_nodes(*old(g)),
        tree_edges(*final(g)) == tree_edges(*old(g)).push((a as nat, b as nat)),
{
    g.add_edge(petgraph::graph::NodeIndex::new(a), petgraph::graph::NodeIndex::new(b), ());
}

/// The node of each identifier after the first `upto` districts are entered:
/// a later district with the same identifier replaces an earlier one.
pub open spec fn node_of_id(bezirke: Seq<RawBezirk>, upto: nat) -> Map<u64, usize>
    decreases upto,
{
    if upto == 0 {
        Map::empty()
    } else {
        node_of_id(bezirke, (upto - 1) as nat).insert(bezirke[upto - 1].identifier, (upto - 1) as usize)
    }
}

/// Every district that has a parent names, as its nearest parent, the
/// identifier of some district.
pub open spec fn parents_known(bezirke: Seq<RawBezirk>) -> bool {
    forall|i: int|
        0 <= i < bezirke.len() && bezirke[i].parents@.len() > 0 ==> exists|j: int|
            0 <= j < bezirke.len() && #[trigger] bezirke[j].identifier == bezirke[i].parents@[0]
}

/// The edges for the first `upto` districts: one from the node of the nearest
/// parent to the district's node, for each district that has a parent.
pub open spec fn parent_edges(bezirke: Seq<RawBezirk>, upto: nat) -> Seq<(nat, nat)>
    decreases upto,
{
    if upto == 0 {
        Seq::empty()
    } else {
        let i = upto - 1;
        let before = parent_edges(bezirke, i as nat);
        if bezirke[i].parents@.len() > 0 {
            let parent = node_of_id(bezirke, bezirke.len())[bezirke[i].parents@[0]];
            before.push((parent as nat, i as nat))
        } else {
            before
        }
    }
}

proof fn lemma_node_of_id(bezirke: Seq<RawBezirk>, upto: nat)
    requires
        upto <= bezirke.len(),
    ensures
        forall|id: u64|
            #[trigger] node_of_id(bezirke, upto).contains_key(id) <==> exists|j: int|
                0 <= j < upto && #[trigger] bezirke[j].identifier == id,
        forall|id: u64|
            #[trigger] node_of_id(bezirke, upto).contains_key(id) ==> node_of_id(bezirke, upto)[id] < upto,
    decreases upto,
{
    if upto > 0 {
        let prev = node_of_id(bezirke, (upto - 1) as nat);
        let k = bezirke[upto - 1].identifier;
        lemma_node_of_id(bezirke, (upto - 1) as nat);
        assert(node_of_id(bezirke, upto) == prev.insert(k, (upto - 1) as usize));
        assert forall|id: u64| #[trigger] node_of_id(bezirke, upto).contains_key(id) implies
            node_of_id(bezirke, upto)[id] < upto && exists|j: int| 0 <= j < upto && #[trigger] bezirke[j].identifier == id by {
            if id == k {
                assert(bezirke[upto - 1].identifier == id);
            } else {
                assert(prev.contains_key(id));
                let j = choose|j: int| 0 <= j < upto - 1 && #[trigger] bezirke[j].identifier == id;
                assert(bezirke[j].identifier == id);
            }
        }
        assert forall|id: u64|
            (exists|j: int| 0 <= j < upto && #[trigger] bezirke[j].identifier == id) implies
            #[trigger] node_of_id(bezirke, upto).contains_key(id) by {
            let j = choose|j: int| 0 <= j < upto && #[trigger] bezirke[j].identifier == id;
            if j < upto - 1 {
                assert(node_of_id(bezirke, (upto - 1) as nat).contains_key(id));
            }
        }
    }
}

/// `e` is the edge for district `i`: it runs from the last district (in file
/// order) whose identifier is `i`'s nearest parent, to `i`.
pub open spec fn edge_from_nearest_parent(bezirke: Seq<RawBezirk>, i: int, e: (nat, nat)) -> bool {
    let id = bezirke[i].parents@[0];
    &&& e.1 == i
    &&& e.0 < bezirke.len()
    &&& bezirke[e.0 as int].identifier == id
    &&& forall|q: int| e.0 < q < bezirke.len() ==> #[trigger] bezirke[q].identifier != id
}

/// The entry for `id` after the first `upto` districts is the last of them
/// that carries `id`.
proof fn lemma_node_of_id_last(bezirke: Seq<RawBezirk>, upto: nat)
    requires
        upto <= bezirke.len() <= usize::MAX,
    ensures
        forall|id: u64|
            #[trigger] node_of_id(bezirke, upto).contains_key(id) ==> {
                let p = node_of_id(bezirke, upto)[id] as int;
                &&& p < upto
                &&& bezirke[p].identifier == id
                &&& forall|q: int| p < q < upto ==> #[trigger] bezirke[q].identifier != id
            },
    decreases upto,
{
    if upto > 0 {
        lemma_node_of_id_last(bezirke, (upto - 1) as nat);
        let prev = node_of_id(bezirke, (upto - 1) as nat);
        let k = bezirke[upto - 1].identifier;
        assert(node_of_id(bezirke, upto) == prev.insert(k, (upto - 1) as usize));
        assert forall|id: u64| #[trigger] node_of_id(bezirke, upto).contains_key(id) implies {
            let p = node_of_id(bezirke, upto)[id] as int;
            &&& p < upto
            &&& bezirke[p].identifier == id
            &&& forall|q: int| p < q < upto ==> #[trigger] bezirke[q].identifier != id
        } by {
            if id != k {
                assert(prev.contains_key(id));
            } else {
                assert(node_of_id(bezirke, upto)[id] == (upto - 1) as usize);
            }
        }
    }
}

/// The parent edges of the first `upto` districts, stated over the districts
/// themselves: there is one edge for each district that has a parent, and the
/// edge of such a district `i` runs from the last district carrying its
/// nearest parent's identifier to `i`.
pub proof fn lemma_parent_edges_direct(bezirke: Seq<RawBezirk>, upto: nat)
    requires
        upto <= bezirke.len() <= usize::MAX,
        parents_known(bezirke),
    ensures
        parent_edges(bezirke, upto).len() == bezirke.subrange(0, upto as int).filter(|b: RawBezirk| b.parents@.len() > 0).len(),
        forall|k: int| 0 <= k < parent_edges(bezirke, upto).len() ==> #[trigger] parent_edges(bezirke, upto)[k].1 < upto,
        forall|i: int|
            #![trigger bezirke[i]]
            0 <= i < upto && bezirke[i].parents@.len() > 0 ==> exists|k: int|
                0 <= k < parent_edges(bezirke, upto).len() && edge_from_nearest_parent(
                    bezirke,
                    i,
                    #[trigger] parent_edges(bezirke, upto)[k],
                ),
    decreases upto,
{
    let pred = |b: RawBezirk| b.parents@.len() > 0;
    let n = bezirke.len();
    lemma_node_of_id(bezirke, n);
    lemma_node_of_id_last(bezirke, n);
    if upto == 0 {
        assert(bezirke.subrange(0, 0).len() == 0);
        reveal_with_fuel(Seq::filter, 1);
    } else {
        let i = upto - 1;
        lemma_parent_edges_direct(bezirke, i as nat);
        let before = parent_edges(bezirke, i as nat);
        let pe = parent_edges(bezirke, upto);
        let sub = bezirke.subrange(0, upto as int);
        assert(sub.drop_last() =~= bezirke.subrange(0, i));
        assert(sub.last() == bezirke[i]);
        assert(sub.filter(pred) == if pred(sub.last()) {
            sub.drop_last().filter(pred).push(sub.last())
        } else {
            sub.drop_last().filter(pred)
        }) by {
            reveal_with_fuel(Seq::filter, 1);
        }
        if bezirke[i].parents@.len() > 0 {
            let id = bezirke[i].parents@[0];
            assert(exists|j: int| 0 <= j < n && #[trigger] bezirke[j].identifier == id);
            assert(node_of_id(bezirke, n).contains_key(id));
            assert(pe == before.push((node_of_id(bezirke, n)[id] as nat, i as nat)));
            assert(edge_from_nearest_parent(bezirke, i, pe[before.len() as int]));
            assert forall|j: int|
                #![trigger bezirke[j]]
                0 <= j < upto && bezirke[j].parents@.len() > 0 implies exists|k: int|
                    0 <= k < pe.len() && edge_from_nearest_parent(bezirke, j, #[trigger] pe[k]) by {
                if j < i {
                    let k = choose|k: int|
                        0 <= k < before.len() && edge_from_nearest_parent(bezirke, j, #[trigger] before[k]);
                    assert(pe[k] == before[k]);
                }
            }
        } else {
            assert(pe == before);
        }
    }
}

/// The tree of districts: one node per district, named after it, in file
/// order; and, in file order, an edge from the node of each district's nearest
/// parent to the district's node. Where several districts share the parent's
/// identifier, the last of them is taken.
///
/// Every nearest parent must be among the districts: looking up a missing one
/// would panic, so callers check this first.
pub fn parent_tree(bezirke: &Vec<RawBezirk>) -> (g: petgraph::Graph<String, ()>)
    requires
        bezirke.len() < u32::MAX,
        parents_known(bezirke@),
    ensures
        tree_nodes(g) == bezirke@.map_values(|b: RawBezirk| b.name@),
        tree_edges(g) == parent_edges(bezirke@, bezirke.len() as nat),
        tree_edges(g).len() == bezirke@.filter(|b: RawBezirk| b.parents@.len() > 0).len(),
        forall|i: int|
            #![trigger bezirke@[i]]
            0 <= i < bezirke.len() && bezirke@[i].parents@.len() > 0 ==> exists|k: int|
                0 <= k < tree_edges(g).len() && edge_from_nearest_parent(bezirke@, i, #[trigger] tree_edges(g)[k]),
{
    let mut graph = graph_new();
    let mut node_map: HashMap<u64, usize> = HashMap::new();
    let n = bezirke.len();
    for i in 0..n
        invariant
            n == bezirke.len() < u32::MAX,
            tree_nodes(graph) == bezirke@.subrange(0, i as int).map_values(|b: RawBezirk| b.name@),
            tree_edges(graph) == Seq::<(nat, nat)>::empty(),
            node_map@ == node_of_id(bezirke@, i as nat),
    {
        let idx = graph_add_node(&mut graph, bezirke[i].name.clone());
        node_map.insert(bezirke[i].identifier, idx);
        assert(bezirke@.subrange(0, i + 1) == bezirke@.subrange(0, i as int).push(bezirke@[i as int]));
    }
    assert(bezirke@.subrange(0, n as int) == bezirke@);
    proof {
        lemma_node_of_id(bezirke@, n as nat);
    }
    for i in 0..n
        invariant
            n == bezirke.len() < u32::MAX,
            parents_known(bezirke@),
            tree_nodes(graph) == bezirke@.map_values(|b: RawBezirk| b.name@),
            tree_edges(graph) == parent_edges(bezirke@, i as nat),
            tree_edges(graph).len() <= i,
            node_map@ == node_of_id(bezirke@, n as nat),
            forall|id: u64|
                #[trigger] node_map@.contains_key(id) <==> exists|j: int|
                    0 <= j < n && #[trigger] bezirke@[j].identifier == id,
            forall|id: u64| #[trigger] node_map@.contains_key(id) ==> node_map@[id] < n,
    {
        let node = &bezirke[i];
        if node.parents.len() > 0 {
            let last_parent = node.parents[0];
            assert(exists|j: int| 0 <= j < n && #[trigger] bezirke@[j].identifier == last_parent);
            let parent = match node_map.get(&last_parent) {
                Some(p) => *p,
                None => {
                    assert(false);
                    0
                },
            };
            graph_add_edge(&mut graph, parent, i);
        }
    }
    proof {
        lemma_parent_edges_direct(bezirke@, n as nat);
        assert(bezirke@.subrange(0, n as int) == bezirke@);
    }
    graph
}

} // verus!
