//! The rules by which map data becomes graph content: a way's consecutive
//! node references become edges, directed when the way is tagged one-way.
use vstd::prelude::*;

use crate::availability_manager::max_bits;
use crate::graph::{Edge, EdgeKind, Graph};
use crate::id::{EdgeID, IDIntoUSize, NodeID};

verus! {

broadcast use vstd::seq_lib::group_seq_properties;

/// A way is one-way when some tag has key `oneway` and a value other than `no`.
pub open spec fn is_oneway(tags: Seq<(String, String)>) -> bool {
    exists|i: int| 0 <= i < tags.len() && #[trigger] tags[i].0@ == "oneway"@ && tags[i].1@ != "no"@
}

/// The kind of the edges that a way with these tags becomes.
pub fn way_edge_kind(tags: &Vec<(String, String)>) -> (r: EdgeKind)
    ensures
        r == (if is_oneway(tags@) {
            EdgeKind::Directed
        } else {
            EdgeKind::Undirected
        }),
{
    proof {
        reveal_strlit("oneway");
        reveal_strlit("no");
    }
    let oneway = "oneway".to_owned();
    let no = "no".to_owned();
    let mut i: usize = 0;
    while i < tags.len()
        invariant
            i <= tags@.len(),
            oneway@ == "oneway"@,
            no@ == "no"@,
            forall|j: int| 0 <= j < i ==> !(#[trigger] tags@[j].0@ == "oneway"@ && tags@[j].1@ != "no"@),
        decreases tags@.len() - i,
    {
        if tags[i].0 == oneway && tags[i].1 != no {
            return EdgeKind::Directed;
        }
        i = i + 1;
    }
    EdgeKind::Undirected
}

/// The consecutive pairs among the first `k` references of a way that become
/// edges: both references resolved, to two distinct nodes.
pub open spec fn way_pairs(nodes: Seq<Option<NodeID>>, k: int) -> Seq<(NodeID, NodeID)>
    decreases k,
{
    if k <= 1 || k > nodes.len() {
        Seq::empty()
    } else {
        way_pairs(nodes, k - 1) + match (nodes[k - 2], nodes[k - 1]) {
            (Some(a), Some(b)) => if a != b {
                seq![(a, b)]
            } else {
                Seq::empty()
            },
            _ => Seq::empty(),
        }
    }
}

/// Adds one edge of the given kind and property for each consecutive pair of
/// a way's node references that `way_pairs` keeps; an unresolved reference
/// breaks the way there. Returns the new edges, in order.
pub fn add_way<N: Copy, E: Copy>(
    graph: &mut Graph<N, E>,
    nodes: &Vec<Option<NodeID>>,
    property: E,
    kind: EdgeKind,
) -> (r: Vec<EdgeID>)
    requires
        forall|k: int| 0 <= k < nodes@.len() && #[trigger] nodes@[k] is Some ==> old(graph)@.has_node(nodes@[k]->Some_0),
        old(graph)@.edge_extent() + nodes@.len() <= max_bits(),
    ensures
        final(graph)@.nodes_view() == old(graph)@.nodes_view(),
        r@.len() == way_pairs(nodes@, nodes@.len() as int).len(),
        r@.no_duplicates(),
        forall|k: int| 0 <= k < r@.len() ==> final(graph)@.edge(#[trigger] r@[k]) == (Edge {
            from: way_pairs(nodes@, nodes@.len() as int)[k].0,
            to: way_pairs(nodes@, nodes@.len() as int)[k].1,
            kind,
            property,
        }),
        forall|e: EdgeID| #[trigger] final(graph)@.has_edge(e) <==> (old(graph)@.has_edge(e) || r@.contains(e)),
        forall|e: EdgeID| #[trigger] old(graph)@.has_edge(e) ==> final(graph)@.edge(e) == old(graph)@.edge(e),
{
    let ghost g0 = graph@;
    let mut added: Vec<EdgeID> = Vec::new();
    if nodes.len() < 2 {
        return added;
    }
    let mut k: usize = 2;
    while k <= nodes.len()
        invariant
            2 <= k <= nodes@.len() + 1,
            graph@.nodes_view() == g0.nodes_view(),
            forall|j: int| 0 <= j < nodes@.len() && #[trigger] nodes@[j] is Some ==> g0.has_node(nodes@[j]->Some_0),
            graph@.edge_extent() <= g0.edge_extent() + k - 2,
            g0.edge_extent() + nodes@.len() <= max_bits(),
            added@.len() == way_pairs(nodes@, k as int - 1).len(),
            added@.no_duplicates(),
            forall|j: int| 0 <= j < added@.len() ==> graph@.edge(#[trigger] added@[j]) == (Edge {
                from: way_pairs(nodes@, k as int - 1)[j].0,
                to: way_pairs(nodes@, k as int - 1)[j].1,
                kind,
                property,
            }),
            forall|e: EdgeID| #[trigger] graph@.has_edge(e) <==> (g0.has_edge(e) || added@.contains(e)),
            forall|e: EdgeID| #[trigger] g0.has_edge(e) ==> graph@.edge(e) == g0.edge(e),
            forall|e: EdgeID| #[trigger] added@.contains(e) ==> !g0.has_edge(e),
        decreases nodes@.len() + 1 - k,
    {
        let ghost before = graph@;
        let ghost prev = way_pairs(nodes@, k as int - 1);
        assert(way_pairs(nodes@, k as int) == prev + match (nodes@[k - 2], nodes@[k - 1]) {
            (Some(a), Some(b)) => if a != b {
                seq![(a, b)]
            } else {
                Seq::empty()
            },
            _ => Seq::empty(),
        });
        match (nodes[k - 2], nodes[k - 1]) {
            (Some(a), Some(b)) => {
                if a != b {
                    assert(nodes@[k - 2] is Some && nodes@[k - 1] is Some);
                    let e = graph.add_edge(a, b, property, kind);
                    proof {
                        assert(!before.has_edge(e));
                        assert(!added@.contains(e));
                        assert(!g0.has_edge(e));
                    }
                    let ghost old_added = added@;
                    added.push(e);
                    proof {
                        assert(way_pairs(nodes@, k as int) =~= prev.push((a, b)));
                        assert forall|x: EdgeID| #[trigger] graph@.has_edge(x) <==> (g0.has_edge(x) || added@.contains(x)) by {
                            assert(added@ == old_added.push(e));
                            if x != e {
                                assert(x.index() != e.index());
                                assert(graph@.has_edge(x) == before.has_edge(x));
                                assert(added@.contains(x) <==> old_added.contains(x));
                            } else {
                                assert(added@[added@.len() - 1] == e);
                                assert(added@.contains(x));
                                assert(graph@.has_edge(x));
                            }
                        }
                        assert forall|j: int| 0 <= j < added@.len() implies graph@.edge(#[trigger] added@[j]) == (Edge {
                            from: way_pairs(nodes@, k as int)[j].0,
                            to: way_pairs(nodes@, k as int)[j].1,
                            kind,
                            property,
                        }) by {
                            if j < old_added.len() {
                                assert(old_added.contains(old_added[j]));
                                assert(old_added[j] != e);
                                assert(old_added[j].index() != e.index());
                            }
                        }
                        assert forall|x: EdgeID| #[trigger] g0.has_edge(x) implies graph@.edge(x) == g0.edge(x) by {
                            assert(x != e);
                            assert(x.index() != e.index());
                        }
                    }
                } else {
                    assert(way_pairs(nodes@, k as int) =~= prev);
                }
            },
            _ => {
                assert(way_pairs(nodes@, k as int) =~= prev);
            },
        }
        k = k + 1;
    }
    added
}

} // verus!
