//! Typed identifiers: one zero-cost wrapper over a slot index per entity kind.
use vstd::prelude::*;

verus! {

/// Conversion between a typed identifier and the raw slot index it names.
pub trait IDIntoUSize: Sized + Copy {
    /// The slot index named by this identifier.
    spec fn index(&self) -> nat;

    fn as_usize(&self) -> (r: usize)
        ensures
            r as nat == self.index(),
    ;

    fn from_usize(id: usize) -> (r: Self)
        ensures
            r.index() == id as nat,
    ;

    /// Two identifiers of one kind are equal exactly when their indices are.
    proof fn lemma_index_injective(a: Self, b: Self)
        ensures
            a.index() == b.index() ==> a == b,
    ;
}

/// Identifies a node of a graph.
#[derive(Copy, Clone, PartialEq, Eq, Structural, PartialOrd, Ord, Debug, Hash)]
pub struct NodeID(pub usize);

/// Identifies an edge of a graph.
#[derive(Copy, Clone, PartialEq, Eq, Structural, PartialOrd, Ord, Debug, Hash)]
pub struct EdgeID(pub usize);

/// Identifies one stored property instance attached to a node.
#[derive(Copy, Clone, PartialEq, Eq, Structural, PartialOrd, Ord, Debug, Hash)]
pub struct NodePropertyID(pub usize);

/// Identifies a registered property type for nodes.
#[derive(Copy, Clone, PartialEq, Eq, Structural, PartialOrd, Ord, Debug, Hash)]
pub struct NodePropertyTypeID(pub usize);

/// Identifies one stored property instance attached to an edge.
#[derive(Copy, Clone, PartialEq, Eq, Structural, PartialOrd, Ord, Debug, Hash)]
pub struct EdgePropertyID(pub usize);

/// Identifies a registered property type for edges.
#[derive(Copy, Clone, PartialEq, Eq, Structural, PartialOrd, Ord, Debug, Hash)]
pub struct EdgePropertyTypeID(pub usize);

impl IDIntoUSize for NodeID {
    open spec fn index(&self) -> nat {
        self.0 as nat
    }

    fn as_usize(&self) -> (r: usize) {
        self.0
    }

    fn from_usize(id: usize) -> (r: Self) {
        NodeID(id)
    }

    proof fn lemma_index_injective(a: Self, b: Self) {
    }
}

impl IDIntoUSize for EdgeID {
    open spec fn index(&self) -> nat {
        self.0 as nat
    }

    fn as_usize(&self) -> (r: usize) {
        self.0
    }

    fn from_usize(id: usize) -> (r: Self) {
        EdgeID(id)
    }

    proof fn lemma_index_injective(a: Self, b: Self) {
    }
}

impl IDIntoUSize for NodePropertyID {
    open spec fn index(&self) -> nat {
        self.0 as nat
    }

    fn as_usize(&self) -> (r: usize) {
        self.0
    }

    fn from_usize(id: usize) -> (r: Self) {
        NodePropertyID(id)
    }

    proof fn lemma_index_injective(a: Self, b: Self) {
    }
}

impl IDIntoUSize for NodePropertyTypeID {
    open spec fn index(&self) -> nat {
        self.0 as nat
    }

    fn as_usize(&self) -> (r: usize) {
        self.0
    }

    fn from_usize(id: usize) -> (r: Self) {
        NodePropertyTypeID(id)
    }

    proof fn lemma_index_injective(a: Self, b: Self) {
    }
}

impl IDIntoUSize for EdgePropertyID {
    open spec fn index(&self) -> nat {
        self.0 as nat
    }

    fn as_usize(&self) -> (r: usize) {
        self.0
    }

    fn from_usize(id: usize) -> (r: Self) {
        EdgePropertyID(id)
    }

    proof fn lemma_index_injective(a: Self, b: Self) {
    }
}

impl IDIntoUSize for EdgePropertyTypeID {
    open spec fn index(&self) -> nat {
        self.0 as nat
    }

    fn as_usize(&self) -> (r: usize) {
        self.0
    }

    fn from_usize(id: usize) -> (r: Self) {
        EdgePropertyTypeID(id)
    }

    proof fn lemma_index_injective(a: Self, b: Self) {
    }
}

} // verus!
