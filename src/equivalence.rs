//! Structural equivalence of graphs: isomorphism that keeps node properties,
//! and the direction, multiplicity, kind and property of the edges between
//! every pair of nodes.
use vstd::prelude::*;

use crate::graph::{joins, Edge, EdgeKind, Graph, GraphStores};
use crate::id::{
    EdgeID, EdgePropertyID, EdgePropertyTypeID, IDIntoUSize, NodeID, NodePropertyID, NodePropertyTypeID,
};

verus! {

broadcast use vstd::seq_lib::group_seq_properties;

/// A property value that can be compared for equality.
pub trait PropertyValue: Copy {
    fn matches(&self, other: &Self) -> (r: bool)
        ensures
            r == (*self == *other),
    ;
}

impl PropertyValue for i8 {
    fn matches(&self, other: &Self) -> (r: bool) {
        *self == *other
    }
}

impl PropertyValue for i16 {
    fn matches(&self, other: &Self) -> (r: bool) {
        *self == *other
    }
}

impl PropertyValue for i32 {
    fn matches(&self, other: &Self) -> (r: bool) {
        *self == *other
    }
}

impl PropertyValue for i64 {
    fn matches(&self, other: &Self) -> (r: bool) {
        *self == *other
    }
}

impl PropertyValue for i128 {
    fn matches(&self, other: &Self) -> (r: bool) {
        *self == *other
    }
}

impl PropertyValue for isize {
    fn matches(&self, other: &Self) -> (r: bool) {
        *self == *other
    }
}

impl PropertyValue for u8 {
    fn matches(&self, other: &Self) -> (r: bool) {
        *self == *other
    }
}

impl PropertyValue for u16 {
    fn matches(&self, other: &Self) -> (r: bool) {
        *self == *other
    }
}

impl PropertyValue for u32 {
    fn matches(&self, other: &Self) -> (r: bool) {
        *self == *other
    }
}

impl PropertyValue for u64 {
    fn matches(&self, other: &Self) -> (r: bool) {
        *self == *other
    }
}

impl PropertyValue for u128 {
    fn matches(&self, other: &Self) -> (r: bool) {
        *self == *other
    }
}

impl PropertyValue for usize {
    fn matches(&self, other: &Self) -> (r: bool) {
        *self == *other
    }
}

impl PropertyValue for bool {
    fn matches(&self, other: &Self) -> (r: bool) {
        *self == *other
    }
}

impl PropertyValue for NodeID {
    fn matches(&self, other: &Self) -> (r: bool) {
        self.0 == other.0
    }
}

impl PropertyValue for EdgeID {
    fn matches(&self, other: &Self) -> (r: bool) {
        self.0 == other.0
    }
}

impl PropertyValue for NodePropertyID {
    fn matches(&self, other: &Self) -> (r: bool) {
        self.0 == other.0
    }
}

impl PropertyValue for NodePropertyTypeID {
    fn matches(&self, other: &Self) -> (r: bool) {
        self.0 == other.0
    }
}

impl PropertyValue for EdgePropertyID {
    fn matches(&self, other: &Self) -> (r: bool) {
        self.0 == other.0
    }
}

impl PropertyValue for EdgePropertyTypeID {
    fn matches(&self, other: &Self) -> (r: bool) {
        self.0 == other.0
    }
}

impl PropertyValue for EdgeKind {
    fn matches(&self, other: &Self) -> (r: bool) {
        *self == *other
    }
}

/// What the equivalence check compares of an edge: its kind and its property.
#[derive(Clone, Copy, Debug)]
pub struct EdgeLabel<E> {
    pub kind: EdgeKind,
    pub property: E,
}

impl<E: PropertyValue> PropertyValue for EdgeLabel<E> {
    fn matches(&self, other: &Self) -> (r: bool) {
        self.kind == other.kind && self.property.matches(&other.property)
    }
}

/// Sequences without repeats whose elements correspond one-to-one under `g`,
/// with matching labels, have the same multiset of labels.
pub proof fn lemma_bijection_multiset<X, Y, L>(
    s1: Seq<X>,
    s2: Seq<Y>,
    g: spec_fn(X) -> Y,
    l1: spec_fn(X) -> L,
    l2: spec_fn(Y) -> L,
)
    requires
        s1.no_duplicates(),
        s2.no_duplicates(),
        forall|x: X| #[trigger] s1.contains(x) ==> s2.contains(g(x)) && l2(g(x)) == l1(x),
        forall|x1: X, x2: X| #[trigger] s1.contains(x1) && #[trigger] s1.contains(x2) && g(x1) == g(x2) ==> x1 == x2,
        forall|y: Y| #[trigger] s2.contains(y) ==> exists|x: X| #[trigger] s1.contains(x) && g(x) == y,
    ensures
        s1.map_values(l1).to_multiset() == s2.map_values(l2).to_multiset(),
    decreases s1.len(),
{
    if s1.len() == 0 {
        if s2.len() > 0 {
            assert(s2.contains(s2[0]));
        }
        assert(s1.map_values(l1) =~= Seq::<L>::empty());
        assert(s2.map_values(l2) =~= Seq::<L>::empty());
    } else {
        let x = s1.last();
        let rest1 = s1.drop_last();
        assert(s1.contains(x)) by {
            assert(s1[s1.len() - 1] == x);
        }
        let y = g(x);
        let j = choose|j: int| 0 <= j < s2.len() && s2[j] == y;
        let rest2 = s2.remove(j);
        assert forall|k: int| 0 <= k < rest1.len() implies rest1[k] == s1[k] by {}
        assert(rest1.no_duplicates()) by {
            assert forall|a: int, b: int| 0 <= a < rest1.len() && 0 <= b < rest1.len() && a != b implies rest1[a] != rest1[b] by {
                assert(rest1[a] == s1[a] && rest1[b] == s1[b]);
            }
        }
        assert forall|k: int| 0 <= k < rest2.len() implies rest2[k] == (if k < j { s2[k] } else { s2[k + 1] }) by {}
        assert(rest2.no_duplicates()) by {
            assert forall|a: int, b: int| 0 <= a < rest2.len() && 0 <= b < rest2.len() && a != b implies rest2[a] != rest2[b] by {
                let ia = if a < j { a } else { a + 1 };
                let ib = if b < j { b } else { b + 1 };
                assert(rest2[a] == s2[ia] && rest2[b] == s2[ib]);
            }
        }
        assert forall|x1: X| #[trigger] rest1.contains(x1) implies s1.contains(x1) && x1 != x by {
            let k = choose|k: int| 0 <= k < rest1.len() && rest1[k] == x1;
            assert(s1[k] == x1);
            assert(s1[s1.len() - 1] == x);
        }
        assert forall|y1: Y| #[trigger] rest2.contains(y1) <==> (s2.contains(y1) && y1 != y) by {
            if rest2.contains(y1) {
                let k = choose|k: int| 0 <= k < rest2.len() && rest2[k] == y1;
                let ik = if k < j { k } else { k + 1 };
                assert(s2[ik] == y1);
            }
            if s2.contains(y1) && y1 != y {
                let k = choose|k: int| 0 <= k < s2.len() && s2[k] == y1;
                assert(k != j);
                if k < j {
                    assert(rest2[k] == y1);
                } else {
                    assert(rest2[k - 1] == y1);
                }
            }
        }
        assert forall|x1: X| #[trigger] rest1.contains(x1) implies rest2.contains(g(x1)) && l2(g(x1)) == l1(x1) by {
            assert(s1.contains(x1));
            assert(g(x1) != y);
        }
        assert forall|y1: Y| #[trigger] rest2.contains(y1) implies exists|x1: X| #[trigger] rest1.contains(x1) && g(x1) == y1 by {
            assert(s2.contains(y1));
            let x1 = choose|x1: X| #[trigger] s1.contains(x1) && g(x1) == y1;
            assert(x1 != x);
            let k = choose|k: int| 0 <= k < s1.len() && s1[k] == x1;
            assert(k != s1.len() - 1);
            assert(rest1[k] == x1);
            assert(rest1.contains(x1));
        }
        lemma_bijection_multiset(rest1, rest2, g, l1, l2);
        assert(s1.map_values(l1) =~= rest1.map_values(l1).push(l1(x)));
        assert(s2.map_values(l2).remove(j) =~= rest2.map_values(l2));
        s2.map_values(l2).to_multiset_ensures();
        assert(s2.map_values(l2)[j] == l1(x));
        let m2 = s2.map_values(l2).to_multiset();
        assert(m2.count(l1(x)) > 0) by {
            assert(s2.map_values(l2).contains(l1(x)));
        }
        assert(m2 =~= m2.remove(l1(x)).insert(l1(x)));
    }
}

/// `f` comes before `g` in lexicographic order of node indices: they agree
/// up to some position, where `f` holds the smaller node.
pub open spec fn precedes(f: Seq<NodeID>, g: Seq<NodeID>) -> bool {
    exists|k: int| 0 <= k < f.len() && k < g.len() && f.take(k) == g.take(k) && #[trigger] f[k].index() < g[k].index()
}

/// How often `x` occurs in `s`.
fn count_of<T: PropertyValue>(s: &Vec<T>, x: &T) -> (r: usize)
    ensures
        r == s@.to_multiset().count(*x),
{
    let mut n: usize = 0;
    let mut i: usize = 0;
    while i < s.len()
        invariant
            i <= s@.len(),
            n == s@.take(i as int).to_multiset().count(*x),
            n <= i,
        decreases s@.len() - i,
    {
        assert(s@.take(i as int + 1) =~= s@.take(i as int).push(s@[i as int]));
        if s[i].matches(x) {
            n = n + 1;
        }
        i = i + 1;
    }
    assert(s@.take(s@.len() as int) =~= s@);
    n
}

/// Whether two sequences hold the same elements, each as often.
fn same_multiset<T: PropertyValue>(s1: &Vec<T>, s2: &Vec<T>) -> (r: bool)
    ensures
        r == (s1@.to_multiset() == s2@.to_multiset()),
{
    if s1.len() != s2.len() {
        assert(s1@.to_multiset().len() != s2@.to_multiset().len());
        return false;
    }
    let mut i: usize = 0;
    while i < s1.len()
        invariant
            i <= s1@.len(),
            forall|k: int| 0 <= k < i ==> s1@.to_multiset().count(#[trigger] s1@[k]) == s2@.to_multiset().count(s1@[k]),
        decreases s1@.len() - i,
    {
        if count_of(s1, &s1[i]) != count_of(s2, &s1[i]) {
            return false;
        }
        i = i + 1;
    }
    let mut j: usize = 0;
    while j < s2.len()
        invariant
            j <= s2@.len(),
            forall|k: int| 0 <= k < s1@.len() ==> s1@.to_multiset().count(#[trigger] s1@[k]) == s2@.to_multiset().count(s1@[k]),
            forall|k: int| 0 <= k < j ==> s1@.to_multiset().count(#[trigger] s2@[k]) == s2@.to_multiset().count(s2@[k]),
        decreases s2@.len() - j,
    {
        if count_of(s1, &s2[j]) != count_of(s2, &s2[j]) {
            return false;
        }
        j = j + 1;
    }
    assert forall|x: T| s1@.to_multiset().count(x) == s2@.to_multiset().count(x) by {
        if s1@.contains(x) {
            let k = choose|k: int| 0 <= k < s1@.len() && s1@[k] == x;
            assert(s1@.to_multiset().count(s1@[k]) == s2@.to_multiset().count(s1@[k]));
        } else if s2@.contains(x) {
            let k = choose|k: int| 0 <= k < s2@.len() && s2@[k] == x;
            assert(s1@.to_multiset().count(s2@[k]) == s2@.to_multiset().count(s2@[k]));
        }
    }
    assert(s1@.to_multiset() =~= s2@.to_multiset());
    true
}

impl<N: PropertyValue, E: PropertyValue> GraphStores<N, E> {
    /// Kind and property of a live edge.
    pub open spec fn label(&self, e: EdgeID) -> EdgeLabel<E> {
        EdgeLabel { kind: self.edge(e).kind, property: self.edge(e).property }
    }

    /// Properties of the live nodes, in ascending node order.
    pub open spec fn node_props(&self) -> Seq<N> {
        self.node_id_seq().map_values(|n: NodeID| self.node(n))
    }

    /// Labels of the live edges, in ascending edge order.
    pub open spec fn edge_labels(&self) -> Seq<EdgeLabel<E>> {
        self.edge_id_seq().map_values(|e: EdgeID| self.label(e))
    }

    /// Labels of the edges that count as edges from `a` to `b`.
    pub open spec fn labels_between(&self, a: NodeID, b: NodeID) -> Seq<EdgeLabel<E>> {
        self.between_seq(a, b).map_values(|e: EdgeID| self.label(e))
    }

    /// Mapping `a` to `x` and `b` to `y` keeps the labels of the edges from
    /// `a` to `b` and from `b` to `a`, as multisets.
    pub open spec fn pair_consistent(&self, other: &Self, a: NodeID, b: NodeID, x: NodeID, y: NodeID) -> bool {
        &&& self.labels_between(a, b).to_multiset() == other.labels_between(x, y).to_multiset()
        &&& self.labels_between(b, a).to_multiset() == other.labels_between(y, x).to_multiset()
    }

    /// `f[i]` is an image for the `i`-th live node of `self` (ascending order):
    /// distinct live nodes of `other` with equal properties, every pair consistent.
    pub open spec fn is_partial_matching(&self, other: &Self, f: Seq<NodeID>) -> bool {
        let a = self.node_id_seq();
        &&& f.len() <= a.len()
        &&& forall|i: int| 0 <= i < f.len() ==> other.has_node(#[trigger] f[i]) && self.node(a[i]) == other.node(f[i])
        &&& forall|i: int, j: int| #![trigger f[i], f[j]] 0 <= i < j < f.len() ==> f[i] != f[j] && self.pair_consistent(other, a[i], a[j], f[i], f[j])
    }

    /// Structural equivalence: equal node and edge counts, equal multisets of
    /// node properties and of edge labels, and a matching of all nodes.
    pub open spec fn is_equivalent(&self, other: &Self) -> bool {
        &&& self.node_ids().len() == other.node_ids().len()
        &&& self.edge_ids().len() == other.edge_ids().len()
        &&& self.node_props().to_multiset() == other.node_props().to_multiset()
        &&& self.edge_labels().to_multiset() == other.edge_labels().to_multiset()
        &&& exists|f: Seq<NodeID>| f.len() == self.node_ids().len() && #[trigger] self.is_partial_matching(other, f)
    }

    /// Node properties and edge labels, in ascending identifier order.
    fn property_summary(&self) -> (r: (Vec<N>, Vec<EdgeLabel<E>>))
        requires
            self.wf(),
        ensures
            r.0@ == self.node_props(),
            r.1@ == self.edge_labels(),
    {
        proof {
            self.lemma_id_seqs();
        }
        let nodes = self.nodes();
        let mut props: Vec<N> = Vec::new();
        let mut i: usize = 0;
        while i < nodes.len()
            invariant
                self.wf(),
                nodes@ == self.node_id_seq(),
                forall|k: int| 0 <= k < self.node_id_seq().len() ==> self.has_node(#[trigger] self.node_id_seq()[k]),
                i <= nodes@.len(),
                props@ == self.node_props().take(i as int),
            decreases nodes@.len() - i,
        {
            props.push(*self.get_node(nodes[i]));
            i = i + 1;
            assert(props@ =~= self.node_props().take(i as int));
        }
        let edges = self.edges();
        let mut labels: Vec<EdgeLabel<E>> = Vec::new();
        let mut j: usize = 0;
        while j < edges.len()
            invariant
                self.wf(),
                edges@ == self.edge_id_seq(),
                forall|k: int| 0 <= k < self.edge_id_seq().len() ==> self.has_edge(#[trigger] self.edge_id_seq()[k]),
                j <= edges@.len(),
                labels@ == self.edge_labels().take(j as int),
            decreases edges@.len() - j,
        {
            let kind = self.get_edge_kind(edges[j]);
            labels.push(EdgeLabel { kind, property: *self.get_edge(edges[j]) });
            j = j + 1;
            assert(labels@ =~= self.edge_labels().take(j as int));
        }
        assert(props@ =~= self.node_props());
        assert(labels@ =~= self.edge_labels());
        (props, labels)
    }

    /// Labels of the given live edges, in the same order.
    fn labels_of(&self, ids: &Vec<EdgeID>) -> (r: Vec<EdgeLabel<E>>)
        requires
            self.wf(),
            forall|k: int| 0 <= k < ids@.len() ==> self.has_edge(#[trigger] ids@[k]),
        ensures
            r@ == ids@.map_values(|e: EdgeID| self.label(e)),
    {
        let mut labels: Vec<EdgeLabel<E>> = Vec::new();
        let mut j: usize = 0;
        while j < ids.len()
            invariant
                self.wf(),
                forall|k: int| 0 <= k < ids@.len() ==> self.has_edge(#[trigger] ids@[k]),
                j <= ids@.len(),
                labels@ == ids@.map_values(|e: EdgeID| self.label(e)).take(j as int),
            decreases ids@.len() - j,
        {
            let kind = self.get_edge_kind(ids[j]);
            labels.push(EdgeLabel { kind, property: *self.get_edge(ids[j]) });
            j = j + 1;
            assert(labels@ =~= ids@.map_values(|e: EdgeID| self.label(e)).take(j as int));
        }
        assert(labels@ =~= ids@.map_values(|e: EdgeID| self.label(e)));
        labels
    }

    /// Labels of the edges that count as edges from `a` to `b`.
    fn labels_between_exec(&self, a: NodeID, b: NodeID) -> (r: Vec<EdgeLabel<E>>)
        requires
            self.wf(),
            self.has_node(a),
            self.has_node(b),
        ensures
            r@ == self.labels_between(a, b),
    {
        let ids = self.get_edges_between(a, b);
        assert forall|k: int| 0 <= k < ids@.len() implies self.has_edge(#[trigger] ids@[k]) by {
            assert(ids@.contains(ids@[k]));
        }
        self.labels_of(&ids)
    }

    /// Whether mapping `self_node` to `other_node` is consistent with every
    /// pair already in the partial matching `images`.
    fn are_adjacencies_consistent(
        &self,
        other: &Self,
        other_node: NodeID,
        self_node: NodeID,
        a_nodes: &Vec<NodeID>,
        images: &Vec<NodeID>,
    ) -> (r: bool)
        requires
            self.wf(),
            other.wf(),
            a_nodes@ == self.node_id_seq(),
            images@.len() <= a_nodes@.len(),
            self.has_node(self_node),
            other.has_node(other_node),
            forall|i: int| 0 <= i < images@.len() ==> other.has_node(#[trigger] images@[i]),
        ensures
            r == forall|i: int| 0 <= i < images@.len() ==> #[trigger] self.pair_consistent(other, a_nodes@[i], self_node, images@[i], other_node),
    {
        proof {
            self.lemma_id_seqs();
        }
        let mut i: usize = 0;
        while i < images.len()
            invariant
                self.wf(),
                other.wf(),
                a_nodes@ == self.node_id_seq(),
                images@.len() <= a_nodes@.len(),
                self.has_node(self_node),
                other.has_node(other_node),
                forall|i: int| 0 <= i < images@.len() ==> other.has_node(#[trigger] images@[i]),
                forall|k: int| 0 <= k < self.node_id_seq().len() ==> self.has_node(#[trigger] self.node_id_seq()[k]),
                i <= images@.len(),
                forall|k: int| 0 <= k < i ==> #[trigger] self.pair_consistent(other, a_nodes@[k], self_node, images@[k], other_node),
            decreases images@.len() - i,
        {
            let self_prime = a_nodes[i];
            let other_prime = images[i];
            let forward = same_multiset(
                &self.labels_between_exec(self_prime, self_node),
                &other.labels_between_exec(other_prime, other_node),
            );
            let backward = same_multiset(
                &self.labels_between_exec(self_node, self_prime),
                &other.labels_between_exec(other_node, other_prime),
            );
            if !forward || !backward {
                assert(!self.pair_consistent(other, a_nodes@[i as int], self_node, images@[i as int], other_node));
                return false;
            }
            i = i + 1;
        }
        true
    }
}

impl<N: PropertyValue + Send + Sync, E: PropertyValue + Send + Sync> GraphStores<N, E> {
    /// Relies on `rayon::join`: runs both closures, possibly on two threads,
    /// and returns their results as a pair, first closure first.
    #[verifier::external_body]
    fn join_summaries(a: &Self, b: &Self) -> (r: ((Vec<N>, Vec<EdgeLabel<E>>), (Vec<N>, Vec<EdgeLabel<E>>)))
        requires
            a.wf(),
            b.wf(),
        ensures
            r.0.0@ == a.node_props(),
            r.0.1@ == a.edge_labels(),
            r.1.0@ == b.node_props(),
            r.1.1@ == b.edge_labels(),
    {
        rayon::join(|| a.property_summary(), || b.property_summary())
    }

    /// Depth-first search for a matching that extends `images`: the next
    /// unmapped node of `self` (ascending order) is tried against every unused
    /// node of `other` in ascending order, undoing each failed choice.
    fn backtrack(
        &self,
        other: &Self,
        a_nodes: &Vec<NodeID>,
        b_nodes: &Vec<NodeID>,
        images: &mut Vec<NodeID>,
        used: &mut Vec<bool>,
    ) -> (r: bool)
        requires
            self.wf(),
            other.wf(),
            a_nodes@ == self.node_id_seq(),
            b_nodes@ == other.node_id_seq(),
            a_nodes@.len() == b_nodes@.len(),
            self.is_partial_matching(other, old(images)@),
            old(used)@.len() == b_nodes@.len(),
            forall|j: int| 0 <= j < b_nodes@.len() ==> #[trigger] old(used)@[j] == old(images)@.contains(b_nodes@[j]),
        ensures
            r ==> final(images)@.len() == a_nodes@.len() && self.is_partial_matching(other, final(images)@),
            r ==> final(images)@.take(old(images)@.len() as int) == old(images)@,
            r ==> final(used)@.len() == b_nodes@.len() && forall|j: int|
                0 <= j < b_nodes@.len() ==> #[trigger] final(used)@[j] == final(images)@.contains(b_nodes@[j]),
            r ==> forall|f: Seq<NodeID>|
                f.len() == a_nodes@.len() && #[trigger] self.is_partial_matching(other, f) && f.take(old(images)@.len() as int)
                    == old(images)@ ==> !precedes(f, final(images)@),
            !r ==> final(images)@ == old(images)@ && final(used)@ == old(used)@,
            !r ==> forall|f: Seq<NodeID>|
                f.len() == a_nodes@.len() && #[trigger] self.is_partial_matching(other, f) ==> f.take(old(images)@.len() as int) != old(images)@,
        decreases a_nodes@.len() - images@.len(),
    {
        if images.len() == a_nodes.len() {
            proof {
                assert(images@.take(images@.len() as int) =~= images@);
                assert forall|f: Seq<NodeID>|
                    f.len() == a_nodes@.len() && #[trigger] self.is_partial_matching(other, f) && f.take(images@.len() as int)
                        == images@ implies !precedes(f, images@) by {
                    assert(f =~= f.take(images@.len() as int));
                }
            }
            return true;
        }
        proof {
            self.lemma_id_seqs();
            other.lemma_id_seqs();
        }
        let ghost start = images@;
        let ghost start_used = used@;
        let k = images.len();
        let unmapped = a_nodes[k];
        let n = b_nodes.len();
        let mut j: usize = 0;
        while j < n
            invariant
                self.wf(),
                other.wf(),
                a_nodes@ == self.node_id_seq(),
                b_nodes@ == other.node_id_seq(),
                a_nodes@.len() == b_nodes@.len(),
                n == b_nodes@.len(),
                k == start.len(),
                k < a_nodes@.len(),
                unmapped == a_nodes@[k as int],
                self.has_node(unmapped),
                images@ == start,
                start == old(images)@,
                used@ == start_used,
                self.is_partial_matching(other, start),
                start_used.len() == n,
                forall|j: int| 0 <= j < n ==> #[trigger] start_used[j] == start.contains(b_nodes@[j]),
                forall|x: int| 0 <= x < n ==> other.has_node(#[trigger] b_nodes@[x]),
                b_nodes@.no_duplicates(),
                forall|m: NodeID| #[trigger] b_nodes@.contains(m) <==> other.has_node(m),
                forall|a: int, b: int| 0 <= a < b < n ==> b_nodes@[a].index() < b_nodes@[b].index(),
                j <= n,
                forall|f: Seq<NodeID>, x: int|
                    0 <= x < j && f.len() == a_nodes@.len() && #[trigger] self.is_partial_matching(other, f) && f.take(k as int) == start ==> f[k as int] != #[trigger] b_nodes@[x],
            decreases n - j,
        {
            let node = b_nodes[j];
            let mut rejected = true;
            if !used[j] && self.get_node(unmapped).matches(other.get_node(node))
                && self.are_adjacencies_consistent(other, node, unmapped, a_nodes, images) {
                images.push(node);
                used.set(j, true);
                proof {
                    let ext = images@;
                    assert(ext == start.push(node));
                    assert(!start.contains(node));
                    assert forall|i: int, l: int| #![trigger ext[i], ext[l]] 0 <= i < l < ext.len() implies ext[i] != ext[l] && self.pair_consistent(other, a_nodes@[i], a_nodes@[l], ext[i], ext[l]) by {
                        if l == k {
                            assert(start.contains(start[i]));
                            assert(self.pair_consistent(other, a_nodes@[i], unmapped, start[i], node));
                        } else {
                            assert(start[i] == ext[i] && start[l] == ext[l]);
                        }
                    }
                    assert forall|i: int| 0 <= i < ext.len() implies other.has_node(#[trigger] ext[i]) && self.node(a_nodes@[i]) == other.node(ext[i]) by {
                        if i < k {
                            assert(start[i] == ext[i]);
                        }
                    }
                    assert(self.is_partial_matching(other, ext));
                    assert(a_nodes@.len() - images@.len() < a_nodes@.len() - start.len());
                    assert forall|x: int| 0 <= x < n implies #[trigger] used@[x] == ext.contains(b_nodes@[x]) by {
                        if x == j {
                            assert(ext[k as int] == node);
                        } else {
                            assert(b_nodes@[x] != node);
                            if ext.contains(b_nodes@[x]) {
                                let q = choose|q: int| 0 <= q < ext.len() && ext[q] == b_nodes@[x];
                                assert(q != k);
                                assert(start[q] == b_nodes@[x]);
                            }
                            if start.contains(b_nodes@[x]) {
                                let q = choose|q: int| 0 <= q < start.len() && start[q] == b_nodes@[x];
                                assert(ext[q] == b_nodes@[x]);
                            }
                        }
                    }
                }
                let ghost ext = images@;
                if self.backtrack(other, a_nodes, b_nodes, images, used) {
                    proof {
                        let res = images@;
                        assert(res.take(k as int + 1) == ext);
                        assert(res.take(k as int) =~= ext.take(k as int));
                        assert(ext.take(k as int) =~= start);
                        assert(res[k as int] == ext[k as int]);
                        assert forall|f: Seq<NodeID>|
                            f.len() == a_nodes@.len() && #[trigger] self.is_partial_matching(other, f) && f.take(k as int)
                                == start implies !precedes(f, res) by {
                            if precedes(f, res) {
                                let m = choose|m: int|
                                    0 <= m < f.len() && m < res.len() && f.take(m) == res.take(m) && #[trigger] f[m].index()
                                        < res[m].index();
                                if m < k {
                                    assert(f[m] == f.take(k as int)[m]);
                                    assert(res[m] == res.take(k as int)[m]);
                                } else if m == k {
                                    assert(other.has_node(f[k as int]));
                                    assert(b_nodes@.contains(f[k as int]));
                                    let x = choose|x: int| 0 <= x < n && b_nodes@[x] == f[k as int];
                                    if x >= j {
                                        assert(b_nodes@[j as int].index() <= b_nodes@[x].index());
                                    }
                                    assert(f[k as int] != b_nodes@[x]);
                                } else {
                                    assert(f[k as int] == f.take(m)[k as int]);
                                    assert(res[k as int] == res.take(m)[k as int]);
                                    assert(f.take(k as int + 1) =~= ext);
                                }
                            }
                        }
                    }
                    return true;
                }
                images.pop();
                used.set(j, false);
                proof {
                    assert(images@ =~= start);
                    assert(used@ =~= start_used);
                    assert forall|f: Seq<NodeID>|
                        f.len() == a_nodes@.len() && #[trigger] self.is_partial_matching(other, f) && f.take(k as int) == start implies f[k as int] != node by {
                        if f[k as int] == node {
                            assert(f.take(k as int + 1) =~= start.push(node));
                        }
                    }
                }
            } else {
                proof {
                    assert forall|f: Seq<NodeID>|
                        f.len() == a_nodes@.len() && #[trigger] self.is_partial_matching(other, f) && f.take(k as int) == start implies f[k as int] != node by {
                        if f[k as int] == node {
                            if start_used[j as int] {
                                let q = choose|q: int| 0 <= q < start.len() && start[q] == node;
                                assert(f.take(k as int)[q] == f[q]);
                                assert(f[q] != f[k as int]);
                            } else if self.node(unmapped) != other.node(node) {
                                assert(other.has_node(f[k as int]));
                            } else {
                                let q = choose|q: int| 0 <= q < start.len() && !self.pair_consistent(other, a_nodes@[q], unmapped, start[q], node);
                                assert(f.take(k as int)[q] == f[q]);
                                assert(f[q] != f[k as int] && self.pair_consistent(other, a_nodes@[q], a_nodes@[k as int], f[q], f[k as int]));
                            }
                        }
                    }
                }
            }
            j = j + 1;
        }
        proof {
            assert forall|f: Seq<NodeID>|
                f.len() == a_nodes@.len() && #[trigger] self.is_partial_matching(other, f) implies f.take(k as int) != start by {
                if f.take(k as int) == start {
                    assert(other.has_node(f[k as int]));
                    assert(b_nodes@.contains(f[k as int]));
                    let x = choose|x: int| 0 <= x < n && b_nodes@[x] == f[k as int];
                    assert(f[k as int] != b_nodes@[x]);
                }
            }
        }
        false
    }

    /// Structural equivalence of two graphs (see `is_equivalent`).
    pub(crate) fn structurally_equals(&self, other: &Self) -> (r: bool)
        requires
            self.wf(),
            other.wf(),
        ensures
            r == self.is_equivalent(other),
    {
        proof {
            self.lemma_id_seqs();
            other.lemma_id_seqs();
        }
        let a_nodes = self.nodes();
        let b_nodes = other.nodes();
        let a_edges = self.edges();
        let b_edges = other.edges();
        if a_nodes.len() != b_nodes.len() || a_edges.len() != b_edges.len() {
            return false;
        }
        let (mine, theirs) = Self::join_summaries(self, other);
        if !same_multiset(&mine.0, &theirs.0) || !same_multiset(&mine.1, &theirs.1) {
            return false;
        }
        let mut images: Vec<NodeID> = Vec::new();
        let mut used: Vec<bool> = Vec::new();
        let mut j: usize = 0;
        while j < b_nodes.len()
            invariant
                j <= b_nodes@.len(),
                used@.len() == j,
                forall|x: int| 0 <= x < j ==> !#[trigger] used@[x],
            decreases b_nodes@.len() - j,
        {
            used.push(false);
            j = j + 1;
        }
        assert(self.is_partial_matching(other, images@));
        let found = self.backtrack(other, &a_nodes, &b_nodes, &mut images, &mut used);
        proof {
            if found {
                assert(self.is_partial_matching(other, images@));
            } else {
                assert forall|f: Seq<NodeID>| f.len() == self.node_ids().len() implies !#[trigger] self.is_partial_matching(other, f) by {
                    if self.is_partial_matching(other, f) {
                        assert(f.take(0) =~= Seq::<NodeID>::empty());
                    }
                }
            }
        }
        found
    }
}

impl<N: PropertyValue, E: PropertyValue> GraphStores<N, E> {
    /// Graphs that differ only in their identifiers are structurally
    /// equivalent: here `nm` maps the live nodes of `g1` one-to-one onto those
    /// of `g2` keeping properties, and `em` maps the live edges of `g1`
    /// one-to-one onto those of `g2` keeping kind, property and the mapped
    /// endpoints. This is the case for one graph built with its nodes added in
    /// two orders, with extra nodes added and deleted on the way.
    pub proof fn lemma_relabelled_graphs_are_equivalent(
        g1: &Self,
        g2: &Self,
        nm: spec_fn(NodeID) -> NodeID,
        em: spec_fn(EdgeID) -> EdgeID,
    )
        requires
            g1.wf(),
            g2.wf(),
            forall|n: NodeID| #[trigger] g1.has_node(n) ==> g2.has_node(nm(n)) && g2.node(nm(n)) == g1.node(n),
            forall|n1: NodeID, n2: NodeID| #[trigger] g1.has_node(n1) && #[trigger] g1.has_node(n2) && nm(n1) == nm(n2) ==> n1 == n2,
            forall|m: NodeID| #[trigger] g2.has_node(m) ==> exists|n: NodeID| #[trigger] g1.has_node(n) && nm(n) == m,
            forall|e: EdgeID| #[trigger] g1.has_edge(e) ==> g2.has_edge(em(e)) && g2.edge(em(e)) == (Edge {
                from: nm(g1.edge(e).from),
                to: nm(g1.edge(e).to),
                kind: g1.edge(e).kind,
                property: g1.edge(e).property,
            }),
            forall|e1: EdgeID, e2: EdgeID| #[trigger] g1.has_edge(e1) && #[trigger] g1.has_edge(e2) && em(e1) == em(e2) ==> e1 == e2,
            forall|d: EdgeID| #[trigger] g2.has_edge(d) ==> exists|e: EdgeID| #[trigger] g1.has_edge(e) && em(e) == d,
        ensures
            g1.is_equivalent(g2),
    {
        g1.lemma_id_seqs();
        g2.lemma_id_seqs();
        let s1 = g1.node_id_seq();
        let s2 = g2.node_id_seq();
        let t1 = g1.edge_id_seq();
        let t2 = g2.edge_id_seq();
        assert forall|m: NodeID| #[trigger] s2.contains(m) implies exists|n: NodeID| #[trigger] s1.contains(n) && nm(n) == m by {
            let n = choose|n: NodeID| #[trigger] g1.has_node(n) && nm(n) == m;
            assert(s1.contains(n));
        }
        assert forall|d: EdgeID| #[trigger] t2.contains(d) implies exists|e: EdgeID| #[trigger] t1.contains(e) && em(e) == d by {
            let e = choose|e: EdgeID| #[trigger] g1.has_edge(e) && em(e) == d;
            assert(t1.contains(e));
        }
        assert forall|n1: NodeID, n2: NodeID| #[trigger] s1.contains(n1) && #[trigger] s1.contains(n2) && nm(n1) == nm(n2) implies n1 == n2 by {
            assert(g1.has_node(n1) && g1.has_node(n2));
        }
        assert forall|e1: EdgeID, e2: EdgeID| #[trigger] t1.contains(e1) && #[trigger] t1.contains(e2) && em(e1) == em(e2) implies e1 == e2 by {
            assert(g1.has_edge(e1) && g1.has_edge(e2));
        }
        // counts
        let ident_n = |m: NodeID| m;
        let ident_e = |d: EdgeID| d;
        lemma_bijection_multiset(s1, s2, nm, nm, ident_n);
        s1.map_values(nm).to_multiset_ensures();
        s2.map_values(ident_n).to_multiset_ensures();
        lemma_bijection_multiset(t1, t2, em, em, ident_e);
        t1.map_values(em).to_multiset_ensures();
        t2.map_values(ident_e).to_multiset_ensures();
        // multisets of properties and labels
        lemma_bijection_multiset(s1, s2, nm, |n: NodeID| g1.node(n), |m: NodeID| g2.node(m));
        assert(g1.node_props() =~= s1.map_values(|n: NodeID| g1.node(n)));
        assert(g2.node_props() =~= s2.map_values(|m: NodeID| g2.node(m)));
        lemma_bijection_multiset(t1, t2, em, |e: EdgeID| g1.label(e), |d: EdgeID| g2.label(d));
        assert(g1.edge_labels() =~= t1.map_values(|e: EdgeID| g1.label(e)));
        assert(g2.edge_labels() =~= t2.map_values(|d: EdgeID| g2.label(d)));
        // the matching
        let f = s1.map_values(nm);
        assert forall|i: int, j: int| #![trigger f[i], f[j]] 0 <= i < j < f.len() implies f[i] != f[j]
            && g1.pair_consistent(g2, s1[i], s1[j], f[i], f[j]) by {
            assert(s1.contains(s1[i]) && s1.contains(s1[j]));
            Self::lemma_relabelled_pair(g1, g2, nm, em, s1[i], s1[j]);
            Self::lemma_relabelled_pair(g1, g2, nm, em, s1[j], s1[i]);
        }
        assert forall|i: int| 0 <= i < f.len() implies g2.has_node(#[trigger] f[i]) && g1.node(s1[i]) == g2.node(f[i]) by {
            assert(g1.has_node(s1[i]));
        }
        assert(g1.is_partial_matching(g2, f));
    }

    /// Under such a relabelling the edges from `a` to `b` and those from their
    /// images carry the same multiset of labels.
    proof fn lemma_relabelled_pair(
        g1: &Self,
        g2: &Self,
        nm: spec_fn(NodeID) -> NodeID,
        em: spec_fn(EdgeID) -> EdgeID,
        a: NodeID,
        b: NodeID,
    )
        requires
            g1.wf(),
            g2.wf(),
            g1.has_node(a),
            g1.has_node(b),
            forall|n: NodeID| #[trigger] g1.has_node(n) ==> g2.has_node(nm(n)) && g2.node(nm(n)) == g1.node(n),
            forall|n1: NodeID, n2: NodeID| #[trigger] g1.has_node(n1) && #[trigger] g1.has_node(n2) && nm(n1) == nm(n2) ==> n1 == n2,
            forall|e: EdgeID| #[trigger] g1.has_edge(e) ==> g2.has_edge(em(e)) && g2.edge(em(e)) == (Edge {
                from: nm(g1.edge(e).from),
                to: nm(g1.edge(e).to),
                kind: g1.edge(e).kind,
                property: g1.edge(e).property,
            }),
            forall|e1: EdgeID, e2: EdgeID| #[trigger] g1.has_edge(e1) && #[trigger] g1.has_edge(e2) && em(e1) == em(e2) ==> e1 == e2,
            forall|d: EdgeID| #[trigger] g2.has_edge(d) ==> exists|e: EdgeID| #[trigger] g1.has_edge(e) && em(e) == d,
        ensures
            g1.labels_between(a, b).to_multiset() == g2.labels_between(nm(a), nm(b)).to_multiset(),
    {
        let s1 = g1.between_seq(a, b);
        let s2 = g2.between_seq(nm(a), nm(b));
        g1.lemma_between_seq(a, b);
        g2.lemma_between_seq(nm(a), nm(b));
        assert forall|e: EdgeID| #[trigger] s1.contains(e) implies s2.contains(em(e)) && g2.label(em(e)) == g1.label(e) by {
            assert(g1.has_edge(e));
        }
        assert forall|e1: EdgeID, e2: EdgeID| #[trigger] s1.contains(e1) && #[trigger] s1.contains(e2) && em(e1) == em(e2) implies e1 == e2 by {
            assert(g1.has_edge(e1) && g1.has_edge(e2));
        }
        assert forall|d: EdgeID| #[trigger] s2.contains(d) implies exists|e: EdgeID| #[trigger] s1.contains(e) && em(e) == d by {
            assert(g2.has_edge(d));
            let e = choose|e: EdgeID| #[trigger] g1.has_edge(e) && em(e) == d;
            let ed = g1.edge(e);
            g1.lemma_edge_endpoints(e);
            assert(joins(ed, a, b));
            assert(s1.contains(e));
        }
        lemma_bijection_multiset(s1, s2, em, |e: EdgeID| g1.label(e), |d: EdgeID| g2.label(d));
    }
}

impl<N: PropertyValue + Send + Sync, E: PropertyValue + Send + Sync> PartialEq for Graph<N, E> {
    /// Structural equivalence of the two graphs (see `GraphStores::is_equivalent`).
    fn eq(&self, other: &Self) -> (r: bool) {
        self.stores().structurally_equals(other.stores())
    }
}

impl<N: PropertyValue + Send + Sync, E: PropertyValue + Send + Sync> vstd::std_specs::cmp::PartialEqSpecImpl for Graph<N, E> {
    open spec fn obeys_eq_spec() -> bool {
        true
    }

    open spec fn eq_spec(&self, other: &Graph<N, E>) -> bool {
        self@.is_equivalent(&other@)
    }
}

} // verus!
