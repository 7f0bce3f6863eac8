//! A property graph over two arenas: nodes with incidence lists, and edges
//! that are directed or undirected, possibly parallel, never self-loops.
use vstd::prelude::*;

use crate::availability_manager::max_bits;
use crate::id::{EdgeID, IDIntoUSize, NodeID};
use crate::store::{ascending_below, Store};

verus! {

broadcast use vstd::seq_lib::group_seq_properties;

#[derive(PartialEq, Eq, Structural, Clone, Copy, Debug, Hash)]
pub enum EdgeKind {
    Directed,
    Undirected,
}

/// A node: the edges incident to it, each listed once, and its property.
#[derive(Debug)]
pub struct Node<N> {
    pub edges: Vec<EdgeID>,
    pub property: N,
}

/// An edge between two distinct nodes.
#[derive(Clone, Copy, Debug)]
pub struct Edge<E> {
    pub from: NodeID,
    pub to: NodeID,
    pub kind: EdgeKind,
    pub property: E,
}

/// The two endpoints of an edge, in the order the edge was added with.
#[derive(Clone, Copy, Debug)]
pub struct ConnectedNodes {
    pub from: NodeID,
    pub to: NodeID,
}

/// Which of a node's incident edges to collect.
enum Selection {
    Outgoing,
    Incoming,
    Towards(NodeID),
}

/// Whether `ed` counts as an edge from `a` to `b`: a directed edge must run
/// from `a` to `b`, an undirected one may join them either way round.
pub open spec fn joins<E>(ed: Edge<E>, a: NodeID, b: NodeID) -> bool {
    match ed.kind {
        EdgeKind::Directed => ed.from == a && ed.to == b,
        EdgeKind::Undirected => (ed.from == a && ed.to == b) || (ed.from == b && ed.to == a),
    }
}

/// Removes every occurrence of `id` from `v`, keeping the order of the rest.
fn remove_edge_id(v: &mut Vec<EdgeID>, id: EdgeID)
    ensures
        forall|x: EdgeID| final(v)@.contains(x) <==> (old(v)@.contains(x) && x != id),
        old(v)@.no_duplicates() ==> final(v)@.no_duplicates(),
{
    let mut kept: Vec<EdgeID> = Vec::new();
    let n = v.len();
    let mut i: usize = 0;
    while i < n
        invariant
            n == v@.len(),
            i <= n,
            forall|x: EdgeID| kept@.contains(x) <==> (v@.take(i as int).contains(x) && x != id),
            v@.no_duplicates() ==> kept@.no_duplicates(),
        decreases n - i,
    {
        let x = v[i];
        proof {
            assert(v@.take(i as int + 1) =~= v@.take(i as int).push(x));
            if v@.no_duplicates() {
                assert(!v@.take(i as int).contains(x));
            }
        }
        if x != id {
            let ghost before = kept@;
            kept.push(x);
            proof {
                if v@.no_duplicates() {
                    assert(!before.contains(x));
                    assert forall|a: int, b: int|
                        0 <= a < kept@.len() && 0 <= b < kept@.len() && a != b implies kept@[a]
                        != kept@[b] by {
                        if a == before.len() as int {
                            assert(before.contains(kept@[b]));
                        } else if b == before.len() as int {
                            assert(before.contains(kept@[a]));
                        }
                    }
                }
            }
        }
        i = i + 1;
    }
    assert(v@.take(n as int) =~= v@);
    *v = kept;
}

/// What `filter` keeps: the members that satisfy `p`, each as often as before.
pub proof fn lemma_filter_members<A>(s: Seq<A>, p: spec_fn(A) -> bool)
    ensures
        forall|x: A| #[trigger] s.filter(p).contains(x) <==> (s.contains(x) && p(x)),
        s.no_duplicates() ==> s.filter(p).no_duplicates(),
    decreases s.len(),
{
    if s.len() == 0 {
        reveal(Seq::filter);
    } else {
        let rest = s.drop_last();
        let last = s.last();
        lemma_filter_members(rest, p);
        assert(s == rest.push(last));
        rest.lemma_filter_push(last, p);
        let fr = rest.filter(p);
        assert forall|x: A| #[trigger] s.filter(p).contains(x) <==> (s.contains(x) && p(x)) by {
            if s.filter(p).contains(x) {
                if x != last || !p(last) {
                    assert(fr.contains(x));
                    let j = choose|j: int| 0 <= j < rest.len() && rest[j] == x;
                    assert(s[j] == x);
                } else {
                    assert(s[s.len() - 1] == x);
                }
            }
            if s.contains(x) && p(x) {
                let j = choose|j: int| 0 <= j < s.len() && s[j] == x;
                if j < rest.len() {
                    assert(rest[j] == x);
                    assert(fr.contains(x));
                } else {
                    assert(x == last);
                }
            }
        }
        if s.no_duplicates() {
            assert(!rest.contains(last)) by {
                if rest.contains(last) {
                    let j = choose|j: int| 0 <= j < rest.len() && rest[j] == last;
                    assert(s[j] == s[s.len() - 1]);
                }
            }
            assert(rest.no_duplicates()) by {
                assert forall|a: int, b: int|
                    0 <= a < rest.len() && 0 <= b < rest.len() && a != b implies rest[a] != rest[b] by {
                    assert(rest[a] == s[a]);
                    assert(rest[b] == s[b]);
                }
            }
            assert(!fr.contains(last));
            if p(last) {
                assert forall|a: int, b: int|
                    0 <= a < s.filter(p).len() && 0 <= b < s.filter(p).len() && a != b implies s.filter(p)[a]
                    != s.filter(p)[b] by {
                    if a == fr.len() as int {
                        assert(fr.contains(s.filter(p)[b]));
                    } else if b == fr.len() as int {
                        assert(fr.contains(s.filter(p)[a]));
                    }
                }
            }
        }
    }
}

/// The stores of a graph and their bookkeeping. Its operations keep `wf`;
/// `Graph` wraps it with `wf` as a type invariant.
#[derive(Debug)]
pub struct GraphStores<N, E> {
    node_store: Store<Node<N>, NodeID>,
    edge_store: Store<Edge<E>, EdgeID>,
}

impl<N, E> GraphStores<N, E> {
    /// The properties of the live nodes, by node index.
    pub closed spec fn nodes_view(&self) -> Map<nat, N> {
        self.node_store@.map_values(|n: Node<N>| n.property)
    }

    /// The live edges, by edge index.
    pub closed spec fn edges_view(&self) -> Map<nat, Edge<E>> {
        self.edge_store@
    }

    /// Slots ever allocated to nodes.
    pub closed spec fn node_extent(&self) -> nat {
        self.node_store.extent()
    }

    /// Slots ever allocated to edges.
    pub closed spec fn edge_extent(&self) -> nat {
        self.edge_store.extent()
    }

    /// The incidence list of node `n`.
    pub closed spec fn incidence(&self, n: NodeID) -> Seq<EdgeID> {
        self.node_store@[n.index()].edges@
    }

    /// Indices of the live nodes, ascending.
    pub open spec fn node_ids(&self) -> Seq<nat> {
        ascending_below(self.nodes_view().dom(), self.node_extent())
    }

    /// Indices of the live edges, ascending.
    pub open spec fn edge_ids(&self) -> Seq<nat> {
        ascending_below(self.edges_view().dom(), self.edge_extent())
    }

    /// The live nodes, ascending.
    pub open spec fn node_id_seq(&self) -> Seq<NodeID> {
        self.node_ids().map_values(|k: nat| NodeID(k as usize))
    }

    /// The live edges, ascending.
    pub open spec fn edge_id_seq(&self) -> Seq<EdgeID> {
        self.edge_ids().map_values(|k: nat| EdgeID(k as usize))
    }

    pub open spec fn has_node(&self, n: NodeID) -> bool {
        self.nodes_view().dom().contains(n.index())
    }

    pub open spec fn has_edge(&self, e: EdgeID) -> bool {
        self.edges_view().dom().contains(e.index())
    }

    pub open spec fn node(&self, n: NodeID) -> N {
        self.nodes_view()[n.index()]
    }

    pub open spec fn edge(&self, e: EdgeID) -> Edge<E> {
        self.edges_view()[e.index()]
    }

    /// Live edge `e` has `n` as an endpoint.
    pub open spec fn is_incident(&self, n: NodeID, e: EdgeID) -> bool {
        self.has_edge(e) && (self.edge(e).from == n || self.edge(e).to == n)
    }

    /// Live edge `e` leaves `n`: `n` is its source, or it is undirected and touches `n`.
    pub open spec fn is_outgoing(&self, n: NodeID, e: EdgeID) -> bool {
        self.has_edge(e) && (self.edge(e).from == n || (self.edge(e).kind == EdgeKind::Undirected
            && self.edge(e).to == n))
    }

    /// Live edge `e` enters `n`: `n` is its target, or it is undirected and touches `n`.
    pub open spec fn is_incoming(&self, n: NodeID, e: EdgeID) -> bool {
        self.has_edge(e) && (self.edge(e).to == n || (self.edge(e).kind == EdgeKind::Undirected
            && self.edge(e).from == n))
    }

    /// Live edge `e` counts as an edge from `a` to `b`.
    pub open spec fn is_between(&self, a: NodeID, b: NodeID, e: EdgeID) -> bool {
        self.has_edge(e) && joins(self.edge(e), a, b)
    }

    /// Indices of the live edges incident to `n`.
    pub open spec fn incident_keys(&self, n: NodeID) -> Set<nat> {
        Set::new(
            |e: nat|
                self.edges_view().dom().contains(e) && (self.edges_view()[e].from == n
                    || self.edges_view()[e].to == n),
        )
    }

    /// Lowest free node slot.
    pub open spec fn is_lowest_free_node(&self, i: nat) -> bool {
        &&& i <= self.node_extent()
        &&& !self.nodes_view().dom().contains(i)
        &&& forall|j: nat| j < i ==> self.nodes_view().dom().contains(j)
    }

    /// Lowest free edge slot.
    pub open spec fn is_lowest_free_edge(&self, i: nat) -> bool {
        &&& i <= self.edge_extent()
        &&& !self.edges_view().dom().contains(i)
        &&& forall|j: nat| j < i ==> self.edges_view().dom().contains(j)
    }

    /// Well-formedness: every live edge joins two distinct live nodes and is
    /// listed by both, and every incidence list names its node's live edges, once each.
    pub closed spec fn wf(&self) -> bool {
        &&& self.node_store.wf()
        &&& self.edge_store.wf()
        &&& forall|e: EdgeID| #[trigger] self.has_edge(e) ==> {
            let ed = self.edge(e);
            &&& self.has_node(ed.from)
            &&& self.has_node(ed.to)
            &&& ed.from != ed.to
            &&& self.incidence(ed.from).contains(e)
            &&& self.incidence(ed.to).contains(e)
        }
        &&& forall|n: NodeID| #[trigger] self.has_node(n) ==> self.incidence(n).no_duplicates()
        &&& forall|n: NodeID, e: EdgeID|
            self.has_node(n) && #[trigger] self.incidence(n).contains(e) ==> self.is_incident(n, e)
    }

    /// In a well-formed graph, the incidence list of a live node holds exactly its incident edges.
    proof fn lemma_incidence(&self, n: NodeID)
        requires
            self.wf(),
            self.has_node(n),
        ensures
            forall|e: EdgeID| #[trigger] self.incidence(n).contains(e) <==> self.is_incident(n, e),
            self.incidence(n).no_duplicates(),
    {
        assert forall|e: EdgeID| #[trigger] self.incidence(n).contains(e) <==> self.is_incident(n, e) by {
            if self.is_incident(n, e) {
                assert(self.has_edge(e));
            }
        }
    }

    pub(crate) fn new() -> (r: Self)
        ensures
            r.wf(),
            r.nodes_view() == Map::<nat, N>::empty(),
            r.edges_view() == Map::<nat, Edge<E>>::empty(),
            r.node_extent() == 0,
            r.edge_extent() == 0,
    {
        let r = GraphStores { node_store: Store::new(), edge_store: Store::new() };
        assert(r.nodes_view() =~= Map::<nat, N>::empty());
        r
    }

    /// Adds an isolated node in the lowest free node slot.
    pub(crate) fn add_node(&mut self, property: N) -> (r: NodeID)
        requires
            old(self).wf(),
            old(self).node_extent() + 1 <= max_bits(),
        ensures
            final(self).wf(),
            old(self).is_lowest_free_node(r.index()),
            final(self).node_ids().len() == old(self).node_ids().len() + 1,
            final(self).nodes_view() == old(self).nodes_view().insert(r.index(), property),
            final(self).edges_view() == old(self).edges_view(),
            final(self).node_extent() == if r.index() == old(self).node_extent() {
                old(self).node_extent() + 1
            } else {
                old(self).node_extent()
            },
            final(self).edge_extent() == old(self).edge_extent(),
    {
        let ghost old_self = *self;
        let id = self.node_store.add(Node { edges: Vec::new(), property });
        proof {
            old_self.node_store.lemma_wf();
            self.node_store.lemma_wf();
            assert(old_self.nodes_view().dom() =~= old_self.node_store@.dom());
            assert(self.nodes_view().dom() =~= self.node_store@.dom());
            assert(self.node_store@.dom() =~= old_self.node_store@.dom().insert(id.index()));
            assert(self.nodes_view() =~= old_self.nodes_view().insert(id.index(), property));
            assert forall|e: EdgeID| #[trigger] self.has_edge(e) implies {
                let ed = self.edge(e);
                &&& self.has_node(ed.from)
                &&& self.has_node(ed.to)
                &&& ed.from != ed.to
                &&& self.incidence(ed.from).contains(e)
                &&& self.incidence(ed.to).contains(e)
            } by {
                assert(old_self.has_edge(e));
                let ed = self.edge(e);
                assert(old_self.has_node(ed.from));
                assert(old_self.has_node(ed.to));
            }
            assert forall|n: NodeID| #[trigger] self.has_node(n) implies self.incidence(n).no_duplicates() by {
                if n != id {
                    assert(old_self.has_node(n));
                }
            }
            assert forall|n: NodeID, e: EdgeID|
                self.has_node(n) && #[trigger] self.incidence(n).contains(e) implies self.is_incident(n, e) by {
                if n == id {
                    assert(self.incidence(n) == Seq::<EdgeID>::empty());
                } else {
                    assert(old_self.has_node(n));
                    assert(old_self.incidence(n).contains(e));
                }
            }
        }
        id
    }

    /// Adds an edge between two distinct live nodes in the lowest free edge slot.
    /// Parallel edges are accepted.
    pub(crate) fn add_edge(&mut self, from: NodeID, to: NodeID, property: E, kind: EdgeKind) -> (r: EdgeID)
        requires
            old(self).wf(),
            old(self).has_node(from),
            old(self).has_node(to),
            from != to,
            old(self).edge_extent() + 1 <= max_bits(),
        ensures
            final(self).wf(),
            old(self).is_lowest_free_edge(r.index()),
            final(self).edges_view() == old(self).edges_view().insert(
                r.index(),
                Edge { from, to, kind, property },
            ),
            final(self).nodes_view() == old(self).nodes_view(),
            final(self).edge_extent() == if r.index() == old(self).edge_extent() {
                old(self).edge_extent() + 1
            } else {
                old(self).edge_extent()
            },
            final(self).node_extent() == old(self).node_extent(),
    {
        let ghost old_self = *self;
        let id = self.edge_store.add(Edge { from, to, kind, property });
        proof {
            assert forall|n: NodeID| old_self.has_node(n) implies !#[trigger] old_self.incidence(n).contains(id) by {
                if old_self.incidence(n).contains(id) {
                    assert(old_self.is_incident(n, id));
                }
            }
        }
        let to_node = self.node_store.get_mut(to);
        to_node.edges.push(id);
        let from_node = self.node_store.get_mut(from);
        from_node.edges.push(id);
        proof {
            let new_edge = Edge { from, to, kind, property };
            assert(self.edges_view() =~= old_self.edges_view().insert(id.index(), new_edge));
            assert(self.nodes_view() =~= old_self.nodes_view());
            assert(self.incidence(to) == old_self.incidence(to).push(id));
            assert(self.incidence(from) == old_self.incidence(from).push(id));
            assert forall|n: NodeID| n != to && n != from && #[trigger] self.has_node(n) implies self.incidence(n) == old_self.incidence(n) by {
                assert(self.node_store@[n.index()] == old_self.node_store@[n.index()]);
            }
            assert forall|e: EdgeID| #[trigger] self.has_edge(e) implies {
                let ed = self.edge(e);
                &&& self.has_node(ed.from)
                &&& self.has_node(ed.to)
                &&& ed.from != ed.to
                &&& self.incidence(ed.from).contains(e)
                &&& self.incidence(ed.to).contains(e)
            } by {
                if e != id {
                    assert(e.index() != id.index());
                    assert(old_self.has_edge(e));
                    let ed = self.edge(e);
                    assert(ed == old_self.edge(e));
                    assert(old_self.incidence(ed.from).contains(e));
                    assert(old_self.incidence(ed.to).contains(e));
                } else {
                    assert(self.incidence(to)[self.incidence(to).len() - 1] == id);
                    assert(self.incidence(from)[self.incidence(from).len() - 1] == id);
                }
            }
            assert forall|n: NodeID| #[trigger] self.has_node(n) implies self.incidence(n).no_duplicates() by {
                assert(old_self.has_node(n));
                assert(old_self.incidence(n).no_duplicates());
                if n == to || n == from {
                    let old_inc = old_self.incidence(n);
                    assert(!old_inc.contains(id));
                    assert forall|a: int, b: int|
                        0 <= a < self.incidence(n).len() && 0 <= b < self.incidence(n).len() && a != b
                        implies self.incidence(n)[a] != self.incidence(n)[b] by {
                        if a == old_inc.len() as int {
                            assert(old_inc.contains(self.incidence(n)[b]));
                        } else if b == old_inc.len() as int {
                            assert(old_inc.contains(self.incidence(n)[a]));
                        }
                    }
                }
            }
            assert forall|n: NodeID, e: EdgeID|
                self.has_node(n) && #[trigger] self.incidence(n).contains(e) implies self.is_incident(n, e) by {
                assert(old_self.has_node(n));
                if e == id {
                    if n != to && n != from {
                        assert(old_self.incidence(n).contains(e));
                    }
                } else if n == to || n == from {
                    assert(old_self.incidence(n).contains(e));
                    assert(old_self.is_incident(n, e));
                } else {
                    assert(old_self.incidence(n).contains(e));
                }
            }
        }
        id
    }

    /// The property of a live node.
    pub(crate) fn get_node(&self, id: NodeID) -> (r: &N)
        requires
            self.wf(),
            self.has_node(id),
        ensures
            *r == self.node(id),
    {
        &self.node_store.get(id).property
    }

    /// The property of a live edge.
    pub(crate) fn get_edge(&self, id: EdgeID) -> (r: &E)
        requires
            self.wf(),
            self.has_edge(id),
        ensures
            *r == self.edge(id).property,
    {
        &self.edge_store.get(id).property
    }

    /// The kind of a live edge.
    pub(crate) fn get_edge_kind(&self, id: EdgeID) -> (r: EdgeKind)
        requires
            self.wf(),
            self.has_edge(id),
        ensures
            r == self.edge(id).kind,
    {
        self.edge_store.get(id).kind
    }

    /// The endpoints of a live edge.
    pub(crate) fn get_connected_nodes(&self, id: EdgeID) -> (r: ConnectedNodes)
        requires
            self.wf(),
            self.has_edge(id),
        ensures
            r.from == self.edge(id).from,
            r.to == self.edge(id).to,
    {
        let edge = self.edge_store.get(id);
        ConnectedNodes { from: edge.from, to: edge.to }
    }

    /// The live nodes and edges listed by `node_id_seq` and `edge_id_seq`, each once.
    pub proof fn lemma_id_seqs(&self)
        requires
            self.wf(),
        ensures
            forall|n: NodeID| #[trigger] self.node_id_seq().contains(n) <==> self.has_node(n),
            forall|e: EdgeID| #[trigger] self.edge_id_seq().contains(e) <==> self.has_edge(e),
            forall|k: int| 0 <= k < self.node_id_seq().len() ==> self.has_node(#[trigger] self.node_id_seq()[k]),
            forall|k: int| 0 <= k < self.edge_id_seq().len() ==> self.has_edge(#[trigger] self.edge_id_seq()[k]),
            self.node_id_seq().no_duplicates(),
            self.edge_id_seq().no_duplicates(),
            self.node_id_seq().len() == self.node_ids().len(),
            self.edge_id_seq().len() == self.edge_ids().len(),
            forall|a: int, b: int|
                0 <= a < b < self.node_id_seq().len() ==> self.node_id_seq()[a].index() < self.node_id_seq()[b].index(),
    {
        self.lemma_keys_are_ids();
        self.node_store.lemma_wf();
        self.edge_store.lemma_wf();
        assert(self.nodes_view().dom() =~= self.node_store@.dom());
        crate::store::lemma_ascending_below(self.nodes_view().dom(), self.node_extent());
        crate::store::lemma_ascending_below(self.edges_view().dom(), self.edge_extent());
        let ns = self.node_id_seq();
        let es = self.edge_id_seq();
        assert forall|n: NodeID| #[trigger] ns.contains(n) <==> self.has_node(n) by {
            if self.has_node(n) {
                assert(self.node_ids().contains(n.index()));
                let k = choose|k: int| 0 <= k < self.node_ids().len() && self.node_ids()[k] == n.index();
                assert(ns[k] == n);
            }
        }
        assert forall|e: EdgeID| #[trigger] es.contains(e) <==> self.has_edge(e) by {
            if self.has_edge(e) {
                assert(self.edge_ids().contains(e.index()));
                let k = choose|k: int| 0 <= k < self.edge_ids().len() && self.edge_ids()[k] == e.index();
                assert(es[k] == e);
            }
        }
        assert forall|a: int, b: int| 0 <= a < ns.len() && 0 <= b < ns.len() && a != b implies ns[a] != ns[b] by {
            assert(self.node_ids()[a] != self.node_ids()[b]);
        }
        assert forall|a: int, b: int| 0 <= a < b < ns.len() implies ns[a].index() < ns[b].index() by {
            assert(self.node_ids().contains(self.node_ids()[a]));
            assert(self.node_ids().contains(self.node_ids()[b]));
            assert(self.node_ids()[a] < self.node_ids()[b]);
        }
        assert forall|a: int, b: int| 0 <= a < es.len() && 0 <= b < es.len() && a != b implies es[a] != es[b] by {
            assert(self.edge_ids()[a] != self.edge_ids()[b]);
        }
    }

    /// The live nodes in ascending identifier order.
    pub(crate) fn nodes(&self) -> (r: Vec<NodeID>)
        requires
            self.wf(),
        ensures
            r@ == self.node_id_seq(),
    {
        assert(self.nodes_view().dom() =~= self.node_store@.dom());
        let r = self.node_store.all();
        proof {
            self.lemma_id_seqs();
            assert forall|k: int| 0 <= k < r@.len() implies r@[k] == self.node_id_seq()[k] by {
                assert(r@[k].index() == self.node_ids()[k]);
            }
            assert(r@ =~= self.node_id_seq());
        }
        r
    }

    /// The live edges in ascending identifier order.
    pub(crate) fn edges(&self) -> (r: Vec<EdgeID>)
        requires
            self.wf(),
        ensures
            r@ == self.edge_id_seq(),
    {
        let r = self.edge_store.all();
        proof {
            self.lemma_id_seqs();
            assert forall|k: int| 0 <= k < r@.len() implies r@[k] == self.edge_id_seq()[k] by {
                assert(r@[k].index() == self.edge_ids()[k]);
            }
            assert(r@ =~= self.edge_id_seq());
        }
        r
    }

    spec fn selected(&self, n: NodeID, sel: Selection, e: EdgeID) -> bool {
        match sel {
            Selection::Outgoing => self.edge(e).from == n || self.edge(e).kind == EdgeKind::Undirected,
            Selection::Incoming => self.edge(e).to == n || self.edge(e).kind == EdgeKind::Undirected,
            Selection::Towards(b) => joins(self.edge(e), n, b),
        }
    }

    /// The edges of `a`'s incidence list that count as edges from `a` to `b`, in list order.
    pub closed spec fn between_seq(&self, a: NodeID, b: NodeID) -> Seq<EdgeID> {
        self.incidence(a).filter(|e: EdgeID| joins(self.edge(e), a, b))
    }

    fn edge_selected(&self, n: NodeID, sel: &Selection, e: EdgeID) -> (r: bool)
        requires
            self.wf(),
            self.has_edge(e),
        ensures
            r == self.selected(n, *sel, e),
    {
        let edge = self.edge_store.get(e);
        match sel {
            Selection::Outgoing => edge.from == n || edge.kind == EdgeKind::Undirected,
            Selection::Incoming => edge.to == n || edge.kind == EdgeKind::Undirected,
            Selection::Towards(b) => match edge.kind {
                EdgeKind::Directed => edge.from == n && edge.to == *b,
                EdgeKind::Undirected => (edge.from == n && edge.to == *b) || (edge.from == *b
                    && edge.to == n),
            },
        }
    }

    /// The selected edges of `n`'s incidence list, in list order.
    fn collect_edges(&self, n: NodeID, sel: Selection) -> (r: Vec<EdgeID>)
        requires
            self.wf(),
            self.has_node(n),
        ensures
            r@ == self.incidence(n).filter(|e: EdgeID| self.selected(n, sel, e)),
    {
        let ghost p = |e: EdgeID| self.selected(n, sel, e);
        proof {
            self.lemma_incidence(n);
        }
        let list = &self.node_store.get(n).edges;
        let len = list.len();
        let mut r: Vec<EdgeID> = Vec::new();
        let mut i: usize = 0;
        while i < len
            invariant
                self.wf(),
                self.has_node(n),
                list@ == self.incidence(n),
                len == list@.len(),
                i <= len,
                r@ == list@.take(i as int).filter(p),
                p == (|e: EdgeID| self.selected(n, sel, e)),
                forall|e: EdgeID| #[trigger] self.incidence(n).contains(e) ==> self.is_incident(n, e),
            decreases len - i,
        {
            let e = list[i];
            assert(self.incidence(n).contains(e));
            let keep = self.edge_selected(n, &sel, e);
            proof {
                assert(list@.take(i as int + 1) =~= list@.take(i as int).push(e));
                list@.take(i as int).lemma_filter_push(e, p);
                assert(p(e) == keep);
            }
            if keep {
                r.push(e);
            }
            i = i + 1;
        }
        assert(list@.take(len as int) =~= list@);
        r
    }

    /// Edges leaving a live node: those it is the source of, and the undirected ones touching it.
    pub(crate) fn get_outgoing_edges(&self, id: NodeID) -> (r: Vec<EdgeID>)
        requires
            self.wf(),
            self.has_node(id),
        ensures
            r@.no_duplicates(),
            forall|e: EdgeID| #[trigger] r@.contains(e) <==> self.is_outgoing(id, e),
    {
        let r = self.collect_edges(id, Selection::Outgoing);
        proof {
            self.lemma_incidence(id);
            lemma_filter_members(self.incidence(id), |e: EdgeID| self.selected(id, Selection::Outgoing, e));
        }
        r
    }

    /// Edges entering a live node: those it is the target of, and the undirected ones touching it.
    pub(crate) fn get_incoming_edges(&self, id: NodeID) -> (r: Vec<EdgeID>)
        requires
            self.wf(),
            self.has_node(id),
        ensures
            r@.no_duplicates(),
            forall|e: EdgeID| #[trigger] r@.contains(e) <==> self.is_incoming(id, e),
    {
        let r = self.collect_edges(id, Selection::Incoming);
        proof {
            self.lemma_incidence(id);
            lemma_filter_members(self.incidence(id), |e: EdgeID| self.selected(id, Selection::Incoming, e));
        }
        r
    }

    /// Every edge that counts as an edge from `from` to `to`, parallel ones included.
    pub(crate) fn get_edges_between(&self, from: NodeID, to: NodeID) -> (r: Vec<EdgeID>)
        requires
            self.wf(),
            self.has_node(from),
            self.has_node(to),
        ensures
            r@ == self.between_seq(from, to),
            r@.no_duplicates(),
            forall|e: EdgeID| #[trigger] r@.contains(e) <==> self.is_between(from, to, e),
    {
        let r = self.collect_edges(from, Selection::Towards(to));
        proof {
            let p = |e: EdgeID| self.selected(from, Selection::Towards(to), e);
            let q = |e: EdgeID| joins(self.edge(e), from, to);
            assert(p =~= q);
            self.lemma_between_seq(from, to);
        }
        r
    }

    /// A live edge joins two distinct live nodes.
    pub proof fn lemma_edge_endpoints(&self, e: EdgeID)
        requires
            self.wf(),
            self.has_edge(e),
        ensures
            self.has_node(self.edge(e).from),
            self.has_node(self.edge(e).to),
            self.edge(e).from != self.edge(e).to,
    {
    }

    /// `between_seq(a, b)` lists each edge from `a` to `b` once.
    pub proof fn lemma_between_seq(&self, a: NodeID, b: NodeID)
        requires
            self.wf(),
            self.has_node(a),
        ensures
            self.between_seq(a, b).no_duplicates(),
            forall|e: EdgeID| #[trigger] self.between_seq(a, b).contains(e) <==> self.is_between(a, b, e),
    {
        self.lemma_incidence(a);
        lemma_filter_members(self.incidence(a), |e: EdgeID| joins(self.edge(e), a, b));
    }

    proof fn lemma_node_count(&self)
        requires
            self.wf(),
        ensures
            self.node_ids().len() == self.nodes_view().dom().len(),
            self.nodes_view().dom().finite(),
    {
        self.node_store.lemma_wf();
        assert(self.nodes_view().dom() =~= self.node_store@.dom());
    }

    proof fn lemma_keys_are_ids(&self)
        requires
            self.wf(),
        ensures
            forall|k: nat| #[trigger] self.edges_view().dom().contains(k) ==> k < usize::MAX,
            forall|k: nat| #[trigger] self.nodes_view().dom().contains(k) ==> k < usize::MAX,
    {
        self.edge_store.lemma_wf();
        self.node_store.lemma_wf();
        assert(self.nodes_view().dom() =~= self.node_store@.dom());
        assert forall|k: nat| #[trigger] self.edges_view().dom().contains(k) implies k < usize::MAX by {
            assert(self.edge_store@.dom().contains(k));
        }
        assert forall|k: nat| #[trigger] self.nodes_view().dom().contains(k) implies k < usize::MAX by {
            assert(self.node_store@.dom().contains(k));
        }
    }

    /// One edge that counts as an edge from `from` to `to`, the first in
    /// `from`'s incidence list, if there is any.
    pub(crate) fn get_edge_between(&self, from: NodeID, to: NodeID) -> (r: Option<EdgeID>)
        requires
            self.wf(),
            self.has_node(from),
            self.has_node(to),
        ensures
            r is None <==> forall|e: EdgeID| !self.is_between(from, to, e),
            r matches Some(e) ==> self.is_between(from, to, e),
    {
        let edges = self.get_edges_between(from, to);
        if edges.len() == 0 {
            proof {
                assert forall|e: EdgeID| !self.is_between(from, to, e) by {
                    if self.is_between(from, to, e) {
                        assert(edges@.contains(e));
                    }
                }
            }
            None
        } else {
            assert(edges@.contains(edges@[0]));
            Some(edges[0])
        }
    }

    /// Deletes edge `id` if it is live, unregistering it from both endpoints.
    fn delete_edge_impl(&mut self, id: EdgeID)
        requires
            old(self).wf(),
        ensures
            final(self).wf(),
            final(self).edges_view() == old(self).edges_view().remove(id.index()),
            final(self).nodes_view() == old(self).nodes_view(),
            final(self).node_extent() == old(self).node_extent(),
            final(self).edge_extent() == old(self).edge_extent(),
    {
        if !self.edge_store.is_live(id) {
            assert(self.edges_view().remove(id.index()) =~= self.edges_view());
            return;
        }
        let ghost old_self = *self;
        let from = self.edge_store.get(id).from;
        let to = self.edge_store.get(id).to;
        let ghost edge = self.edge_store@[id.index()];
        proof {
            assert(old_self.has_edge(id));
            assert(edge == old_self.edge(id));
            assert(old_self.has_node(edge.to));
            assert(old_self.has_node(edge.from));
        }
        let to_node = self.node_store.get_mut(to);
        remove_edge_id(&mut to_node.edges, id);
        let from_node = self.node_store.get_mut(from);
        remove_edge_id(&mut from_node.edges, id);
        self.edge_store.remove(id);
        proof {
            assert(old_self.has_edge(id));
            assert(edge == old_self.edge(id));
            assert(self.edges_view() =~= old_self.edges_view().remove(id.index()));
            assert(self.nodes_view() =~= old_self.nodes_view());
            assert(old_self.has_node(edge.to));
            assert(old_self.has_node(edge.from));
            assert forall|n: NodeID| #[trigger] self.has_node(n) implies (n == edge.to || n == edge.from
                || self.incidence(n) == old_self.incidence(n)) && (forall|e: EdgeID| #[trigger] self.incidence(n).contains(e)
                <==> (old_self.incidence(n).contains(e) && e != id)) && self.incidence(n).no_duplicates() by {
                assert(old_self.has_node(n));
                assert(old_self.incidence(n).no_duplicates());
                if n != edge.to && n != edge.from {
                    assert(self.node_store@[n.index()] == old_self.node_store@[n.index()]);
                    assert(!old_self.incidence(n).contains(id)) by {
                        if old_self.incidence(n).contains(id) {
                            assert(old_self.is_incident(n, id));
                        }
                    }
                }
            }
            assert forall|e: EdgeID| #[trigger] self.has_edge(e) implies {
                let ed = self.edge(e);
                &&& self.has_node(ed.from)
                &&& self.has_node(ed.to)
                &&& ed.from != ed.to
                &&& self.incidence(ed.from).contains(e)
                &&& self.incidence(ed.to).contains(e)
            } by {
                assert(e.index() != id.index());
                assert(e != id);
                assert(old_self.has_edge(e));
                let ed = self.edge(e);
                assert(ed == old_self.edge(e));
                assert(old_self.incidence(ed.from).contains(e));
                assert(old_self.incidence(ed.to).contains(e));
                assert(self.has_node(ed.from));
                assert(self.has_node(ed.to));
            }
            assert forall|n: NodeID, e: EdgeID|
                self.has_node(n) && #[trigger] self.incidence(n).contains(e) implies self.is_incident(n, e) by {
                assert(old_self.has_node(n));
                assert(old_self.incidence(n).contains(e) && e != id);
                assert(old_self.is_incident(n, e));
                assert(e.index() != id.index());
            }
        }
    }

    /// Deletes a live edge, unregistering it from both endpoints.
    pub(crate) fn delete_edge(&mut self, id: EdgeID)
        requires
            old(self).wf(),
            old(self).has_edge(id),
        ensures
            final(self).wf(),
            final(self).edges_view() == old(self).edges_view().remove(id.index()),
            final(self).nodes_view() == old(self).nodes_view(),
            final(self).node_extent() == old(self).node_extent(),
            final(self).edge_extent() == old(self).edge_extent(),
    {
        self.delete_edge_impl(id);
    }

    /// Deletes node `id` if it is live, after deleting every edge incident to it.
    fn delete_node_impl(&mut self, id: NodeID)
        requires
            old(self).wf(),
        ensures
            final(self).wf(),
            final(self).nodes_view() == old(self).nodes_view().remove(id.index()),
            final(self).edges_view() == old(self).edges_view().remove_keys(old(self).incident_keys(id)),
            final(self).node_extent() == old(self).node_extent(),
            final(self).edge_extent() == old(self).edge_extent(),
    {
        let ghost old_self = *self;
        if !self.node_store.is_live(id) {
            proof {
                assert(self.nodes_view().remove(id.index()) =~= self.nodes_view());
                assert forall|k: nat| !#[trigger] self.incident_keys(id).contains(k) by {
                    if self.incident_keys(id).contains(k) {
                        self.lemma_keys_are_ids();
                        let e = EdgeID(k as usize);
                        assert(self.has_edge(e));
                        assert(self.has_node(self.edge(e).from));
                        assert(self.has_node(self.edge(e).to));
                    }
                }
                assert(self.edges_view().remove_keys(self.incident_keys(id)) =~= self.edges_view());
            }
            return;
        }
        proof {
            self.lemma_incidence(id);
        }
        let edge_ids: Vec<EdgeID> = self.node_store.get(id).edges.clone();
        assert(edge_ids@ =~= old_self.incidence(id));
        let len = edge_ids.len();
        let mut i: usize = 0;
        while i < len
            invariant
                self.wf(),
                len == edge_ids@.len(),
                i <= len,
                edge_ids@ == old_self.incidence(id),
                edge_ids@.no_duplicates(),
                forall|e: EdgeID| #[trigger] edge_ids@.contains(e) <==> old_self.is_incident(id, e),
                self.nodes_view() == old_self.nodes_view(),
                self.has_node(id),
                forall|k: nat| #[trigger] self.edges_view().dom().contains(k) ==> old_self.edges_view().dom().contains(k),
                forall|e: EdgeID| #[trigger] self.has_edge(e) <==> (old_self.has_edge(e) && !edge_ids@.take(i as int).contains(e)),
                forall|e: EdgeID| #[trigger] self.has_edge(e) ==> self.edge(e) == old_self.edge(e),
                self.node_extent() == old_self.node_extent(),
                self.edge_extent() == old_self.edge_extent(),
            decreases len - i,
        {
            let e = edge_ids[i];
            let ghost before = *self;
            self.delete_edge_impl(e);
            proof {
                assert(edge_ids@.take(i as int + 1) =~= edge_ids@.take(i as int).push(e));
                assert forall|x: EdgeID| #[trigger] self.has_edge(x) <==> (old_self.has_edge(x) && !edge_ids@.take(i as int + 1).contains(x)) by {
                    if x == e {
                        assert(edge_ids@.take(i as int + 1)[i as int] == x);
                    } else {
                        assert(x.index() != e.index());
                        assert(self.has_edge(x) == before.has_edge(x));
                    }
                }
                assert forall|x: EdgeID| #[trigger] self.has_edge(x) implies self.edge(x) == old_self.edge(x) by {
                    assert(before.has_edge(x));
                }
            }
            i = i + 1;
        }
        assert(edge_ids@.take(len as int) =~= edge_ids@);
        let ghost mid = *self;
        proof {
            assert forall|e: EdgeID| #[trigger] self.has_edge(e) implies !self.is_incident(id, e) by {
                assert(old_self.has_edge(e));
                assert(!edge_ids@.contains(e));
            }
        }
        self.node_store.remove(id);
        proof {
            mid.lemma_keys_are_ids();
            old_self.lemma_keys_are_ids();
            assert(self.nodes_view() =~= old_self.nodes_view().remove(id.index()));
            assert(self.edges_view() == mid.edges_view());
            assert forall|k: nat| #[trigger] self.edges_view().dom().contains(k) <==> old_self.edges_view().remove_keys(old_self.incident_keys(id)).dom().contains(k) by {
                if self.edges_view().dom().contains(k) {
                    let e = EdgeID(k as usize);
                    assert(mid.has_edge(e));
                    assert(old_self.has_edge(e));
                    assert(!edge_ids@.contains(e));
                    assert(!old_self.incident_keys(id).contains(k));
                }
                if old_self.edges_view().remove_keys(old_self.incident_keys(id)).dom().contains(k) {
                    let e = EdgeID(k as usize);
                    assert(old_self.has_edge(e));
                    assert(!old_self.is_incident(id, e));
                    assert(!edge_ids@.contains(e));
                    assert(mid.has_edge(e));
                }
            }
            assert forall|k: nat| #[trigger] self.edges_view().dom().contains(k) implies self.edges_view()[k] == old_self.edges_view()[k] by {
                let e = EdgeID(k as usize);
                assert(mid.has_edge(e));
            }
            assert(self.edges_view() =~= old_self.edges_view().remove_keys(old_self.incident_keys(id)));
            assert forall|e: EdgeID| #[trigger] self.has_edge(e) implies {
                let ed = self.edge(e);
                &&& self.has_node(ed.from)
                &&& self.has_node(ed.to)
                &&& ed.from != ed.to
                &&& self.incidence(ed.from).contains(e)
                &&& self.incidence(ed.to).contains(e)
            } by {
                assert(mid.has_edge(e));
                let ed = self.edge(e);
                assert(ed == mid.edge(e));
                assert(ed.from != id && ed.to != id);
                assert(mid.incidence(ed.from) == self.incidence(ed.from));
                assert(mid.incidence(ed.to) == self.incidence(ed.to));
            }
            assert forall|n: NodeID| #[trigger] self.has_node(n) implies self.incidence(n).no_duplicates() by {
                assert(mid.has_node(n));
                assert(mid.incidence(n) == self.incidence(n));
            }
            assert forall|n: NodeID, e: EdgeID|
                self.has_node(n) && #[trigger] self.incidence(n).contains(e) implies self.is_incident(n, e) by {
                assert(mid.has_node(n));
                assert(mid.incidence(n) == self.incidence(n));
                assert(mid.is_incident(n, e));
            }
        }
    }

    /// Deletes a live node and every edge incident to it.
    pub(crate) fn delete_node(&mut self, id: NodeID)
        requires
            old(self).wf(),
            old(self).has_node(id),
        ensures
            final(self).wf(),
            final(self).node_ids().len() + 1 == old(self).node_ids().len(),
            final(self).nodes_view() == old(self).nodes_view().remove(id.index()),
            final(self).edges_view() == old(self).edges_view().remove_keys(old(self).incident_keys(id)),
            final(self).node_extent() == old(self).node_extent(),
            final(self).edge_extent() == old(self).edge_extent(),
    {
        let ghost old_self = *self;
        self.delete_node_impl(id);
        proof {
            old_self.lemma_node_count();
            self.lemma_node_count();
        }
    }

    /// A directed edge added from `b` to `a` is never among the edges from `a` to `b`.
    pub proof fn lemma_directed_edges_keep_direction(&self, a: NodeID, b: NodeID, e: EdgeID)
        requires
            self.wf(),
            self.has_edge(e),
            self.edge(e).kind == EdgeKind::Directed,
            self.edge(e).from == b,
            self.edge(e).to == a,
        ensures
            !self.is_between(a, b, e),
    {
        assert(self.edge(e).from != self.edge(e).to);
    }

    /// An undirected edge counts as an edge from `a` to `b` exactly when it
    /// counts as one from `b` to `a`.
    pub proof fn lemma_undirected_edges_are_symmetric(&self, a: NodeID, b: NodeID, e: EdgeID)
        requires
            self.has_edge(e),
            self.edge(e).kind == EdgeKind::Undirected,
        ensures
            self.is_between(a, b, e) <==> self.is_between(b, a, e),
    {
    }
}

/// A graph whose nodes carry properties of type `N` and edges of type `E`.
///
/// Its view is its `GraphStores`, which is always well-formed.
#[derive(Debug)]
pub struct Graph<N, E> {
    stores: GraphStores<N, E>,
}

impl<N, E> View for Graph<N, E> {
    type V = GraphStores<N, E>;

    closed spec fn view(&self) -> GraphStores<N, E> {
        self.stores
    }
}

impl<N, E> Graph<N, E> {
    #[verifier::type_invariant]
    spec fn inv(&self) -> bool {
        self.stores.wf()
    }

    /// The stores, for read-only algorithms over the whole graph.
    pub fn stores(&self) -> (r: &GraphStores<N, E>)
        ensures
            *r == self@,
            r.wf(),
    {
        proof {
            use_type_invariant(self);
        }
        &self.stores
    }

    pub fn new() -> (r: Self)
        ensures
            r@.nodes_view() == Map::<nat, N>::empty(),
            r@.edges_view() == Map::<nat, Edge<E>>::empty(),
            r@.node_extent() == 0,
            r@.edge_extent() == 0,
    {
        Graph { stores: GraphStores::new() }
    }

    /// The live nodes in ascending identifier order.
    pub fn nodes(&self) -> (r: Vec<NodeID>)
        ensures
            r@ == self@.node_id_seq(),
    {
        self.stores().nodes()
    }

    /// The live edges in ascending identifier order.
    pub fn edges(&self) -> (r: Vec<EdgeID>)
        ensures
            r@ == self@.edge_id_seq(),
    {
        self.stores().edges()
    }

    /// Adds an isolated node in the lowest free node slot.
    pub fn add_node(&mut self, property: N) -> (r: NodeID)
        requires
            old(self)@.node_extent() + 1 <= max_bits(),
        ensures
            old(self)@.is_lowest_free_node(r.index()),
            final(self)@.node_ids().len() == old(self)@.node_ids().len() + 1,
            final(self)@.nodes_view() == old(self)@.nodes_view().insert(r.index(), property),
            final(self)@.edges_view() == old(self)@.edges_view(),
            final(self)@.node_extent() == if r.index() == old(self)@.node_extent() {
                old(self)@.node_extent() + 1
            } else {
                old(self)@.node_extent()
            },
            final(self)@.edge_extent() == old(self)@.edge_extent(),
    {
        proof {
            use_type_invariant(&*self);
        }
        let mut stores = GraphStores::new();
        std::mem::swap(&mut stores, &mut self.stores);
        let r = stores.add_node(property);
        self.stores = stores;
        r
    }

    /// Adds an edge between two distinct live nodes in the lowest free edge slot.
    /// Parallel edges are accepted.
    pub fn add_edge(&mut self, from: NodeID, to: NodeID, property: E, kind: EdgeKind) -> (r: EdgeID)
        requires
            old(self)@.has_node(from),
            old(self)@.has_node(to),
            from != to,
            old(self)@.edge_extent() + 1 <= max_bits(),
        ensures
            old(self)@.is_lowest_free_edge(r.index()),
            final(self)@.edges_view() == old(self)@.edges_view().insert(
                r.index(),
                Edge { from, to, kind, property },
            ),
            final(self)@.nodes_view() == old(self)@.nodes_view(),
            final(self)@.edge_extent() == if r.index() == old(self)@.edge_extent() {
                old(self)@.edge_extent() + 1
            } else {
                old(self)@.edge_extent()
            },
            final(self)@.node_extent() == old(self)@.node_extent(),
    {
        proof {
            use_type_invariant(&*self);
        }
        let mut stores = GraphStores::new();
        std::mem::swap(&mut stores, &mut self.stores);
        let r = stores.add_edge(from, to, property, kind);
        self.stores = stores;
        r
    }

    /// The property of a live node.
    pub fn get_node(&self, id: NodeID) -> (r: &N)
        requires
            self@.has_node(id),
        ensures
            *r == self@.node(id),
    {
        self.stores().get_node(id)
    }

    /// The property of a live edge.
    pub fn get_edge(&self, id: EdgeID) -> (r: &E)
        requires
            self@.has_edge(id),
        ensures
            *r == self@.edge(id).property,
    {
        self.stores().get_edge(id)
    }

    /// The kind of a live edge.
    pub fn get_edge_kind(&self, id: EdgeID) -> (r: EdgeKind)
        requires
            self@.has_edge(id),
        ensures
            r == self@.edge(id).kind,
    {
        self.stores().get_edge_kind(id)
    }

    /// The endpoints of a live edge.
    pub fn get_connected_nodes(&self, id: EdgeID) -> (r: ConnectedNodes)
        requires
            self@.has_edge(id),
        ensures
            r.from == self@.edge(id).from,
            r.to == self@.edge(id).to,
    {
        self.stores().get_connected_nodes(id)
    }

    /// Edges leaving a live node: those it is the source of, and the undirected ones touching it.
    pub fn get_outgoing_edges(&self, id: NodeID) -> (r: Vec<EdgeID>)
        requires
            self@.has_node(id),
        ensures
            r@.no_duplicates(),
            forall|e: EdgeID| #[trigger] r@.contains(e) <==> self@.is_outgoing(id, e),
    {
        self.stores().get_outgoing_edges(id)
    }

    /// Edges entering a live node: those it is the target of, and the undirected ones touching it.
    pub fn get_incoming_edges(&self, id: NodeID) -> (r: Vec<EdgeID>)
        requires
            self@.has_node(id),
        ensures
            r@.no_duplicates(),
            forall|e: EdgeID| #[trigger] r@.contains(e) <==> self@.is_incoming(id, e),
    {
        self.stores().get_incoming_edges(id)
    }

    /// Every edge that counts as an edge from `from` to `to`, parallel ones included.
    pub fn get_edges_between(&self, from: NodeID, to: NodeID) -> (r: Vec<EdgeID>)
        requires
            self@.has_node(from),
            self@.has_node(to),
        ensures
            r@ == self@.between_seq(from, to),
            r@.no_duplicates(),
            forall|e: EdgeID| #[trigger] r@.contains(e) <==> self@.is_between(from, to, e),
    {
        self.stores().get_edges_between(from, to)
    }

    /// One edge that counts as an edge from `from` to `to`, if there is any.
    pub fn get_edge_between(&self, from: NodeID, to: NodeID) -> (r: Option<EdgeID>)
        requires
            self@.has_node(from),
            self@.has_node(to),
        ensures
            r is None <==> forall|e: EdgeID| !self@.is_between(from, to, e),
            r matches Some(e) ==> self@.is_between(from, to, e),
    {
        self.stores().get_edge_between(from, to)
    }

    /// Deletes a live edge, unregistering it from both endpoints.
    pub fn delete_edge(&mut self, id: EdgeID)
        requires
            old(self)@.has_edge(id),
        ensures
            final(self)@.edges_view() == old(self)@.edges_view().remove(id.index()),
            final(self)@.nodes_view() == old(self)@.nodes_view(),
            final(self)@.node_extent() == old(self)@.node_extent(),
            final(self)@.edge_extent() == old(self)@.edge_extent(),
    {
        proof {
            use_type_invariant(&*self);
        }
        let mut stores = GraphStores::new();
        std::mem::swap(&mut stores, &mut self.stores);
        stores.delete_edge(id);
        self.stores = stores;
    }

    /// Deletes a live node and every edge incident to it.
    pub fn delete_node(&mut self, id: NodeID)
        requires
            old(self)@.has_node(id),
        ensures
            final(self)@.node_ids().len() + 1 == old(self)@.node_ids().len(),
            final(self)@.nodes_view() == old(self)@.nodes_view().remove(id.index()),
            final(self)@.edges_view() == old(self)@.edges_view().remove_keys(old(self)@.incident_keys(id)),
            final(self)@.node_extent() == old(self)@.node_extent(),
            final(self)@.edge_extent() == old(self)@.edge_extent(),
    {
        proof {
            use_type_invariant(&*self);
        }
        let mut stores = GraphStores::new();
        std::mem::swap(&mut stores, &mut self.stores);
        stores.delete_node(id);
        self.stores = stores;
    }
}

} // verus!
