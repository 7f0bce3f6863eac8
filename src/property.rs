//! Per-type columnar storage of property values, and the identifier pair that
//! a node or edge holds to name its property.
use vstd::prelude::*;

use crate::availability_manager::max_bits;
use crate::equivalence::PropertyValue;
use crate::id::IDIntoUSize;
use crate::store::Store;
use crate::type_registry::{
    copy_contents, PropertyField, PropertyFieldContents, TypeDescriptor, ValidatedProperty,
};

verus! {

/// The columns of a type before a row is added: a type without columns yet
/// gets `n` empty ones.
pub open spec fn base_columns(cols: Seq<Map<nat, PropertyFieldContents>>, n: nat) -> Seq<Map<nat, PropertyFieldContents>> {
    if cols.len() == 0 {
        Seq::new(n, |c: int| Map::<nat, PropertyFieldContents>::empty())
    } else {
        cols
    }
}

/// The columns after `fields` is stored as row `row`, one value per column.
pub open spec fn with_row(
    cols: Seq<Map<nat, PropertyFieldContents>>,
    row: nat,
    fields: Seq<PropertyField>,
) -> Seq<Map<nat, PropertyFieldContents>> {
    Seq::new(
        fields.len(),
        |c: int| base_columns(cols, fields.len())[c].insert(row, fields[c].value),
    )
}

/// Names one stored property: its type, and its row in that type's storage.
#[derive(Copy, Clone, PartialEq, Eq, PartialOrd, Ord, Debug, Hash)]
pub struct PropertyIdentifier<PropertyID, TypeID> {
    pub id: PropertyID,
    pub type_id: TypeID,
}

impl<P: PropertyValue, T: PropertyValue> PropertyValue for PropertyIdentifier<P, T> {
    fn matches(&self, other: &Self) -> (r: bool) {
        self.id.matches(&other.id) && self.type_id.matches(&other.type_id)
    }
}

/// The rows of one type: one column per declared field, all advancing in lockstep.
struct Properties<PropertyId> {
    fields: Vec<Store<PropertyFieldContents, PropertyId>>,
}

impl<PropertyId: IDIntoUSize> Properties<PropertyId> {
    spec fn wf(&self) -> bool {
        forall|c: int| #![trigger self.fields@[c]] 0 <= c < self.fields@.len() ==> {
            &&& self.fields@[c].wf()
            &&& self.fields@[c]@.dom() == self.fields@[0]@.dom()
            &&& self.fields@[c].extent() == self.fields@[0].extent()
            &&& forall|i: nat| i < self.fields@[c].extent() ==> #[trigger] self.fields@[c]@.dom().contains(i)
        }
    }

    fn new<PropertyTypeId>(type_descriptor: &TypeDescriptor<PropertyTypeId>) -> (r: Self)
        ensures
            r.fields@.len() == 0,
    {
        Properties { fields: Vec::with_capacity(type_descriptor.field_count()) }
    }
}

/// Property values of every registered type, by type and then by row.
pub struct PropertyStore<PropertyId, PropertyTypeId> {
    items: Store<Properties<PropertyId>, PropertyTypeId>,
}

impl<PropertyId: IDIntoUSize, PropertyTypeId: IDIntoUSize> PropertyStore<PropertyId, PropertyTypeId> {
    /// For each type index, its columns, each a map from row index to value.
    pub closed spec fn columns(&self) -> Map<nat, Seq<Map<nat, PropertyFieldContents>>> {
        self.items@.map_values(
            |p: Properties<PropertyId>| p.fields@.map_values(|s: Store<PropertyFieldContents, PropertyId>| s@),
        )
    }

    /// The taken rows of type `t` (none while it has no columns).
    pub closed spec fn rows(&self, t: nat) -> Set<nat> {
        if self.items@[t].fields@.len() == 0 {
            Set::empty()
        } else {
            self.items@[t].fields@[0]@.dom()
        }
    }

    /// Row slots ever allocated for type `t`.
    pub closed spec fn row_extent(&self, t: nat) -> nat {
        if self.items@[t].fields@.len() == 0 {
            0
        } else {
            self.items@[t].fields@[0].extent()
        }
    }

    /// The number of types with storage; type indices are `0..type_count()`.
    pub closed spec fn type_count(&self) -> nat {
        self.items.extent()
    }

    pub closed spec fn wf(&self) -> bool {
        &&& self.items.wf()
        &&& forall|t: nat| t < self.items.extent() ==> #[trigger] self.items@.dom().contains(t)
        &&& forall|t: nat| #[trigger] self.items@.dom().contains(t) ==> self.items@[t].wf()
    }

    pub proof fn lemma_types_dom(&self)
        requires
            self.wf(),
        ensures
            forall|t: nat| #[trigger] self.columns().dom().contains(t) <==> t < self.type_count(),
    {
        self.items.lemma_wf();
    }

    /// All columns of a type hold the same rows, and rows are never removed:
    /// they are exactly `0..row_extent(t)`.
    pub proof fn lemma_rows(&self, t: nat)
        requires
            self.wf(),
            t < self.type_count(),
        ensures
            forall|c: int| 0 <= c < self.columns()[t].len() ==> (#[trigger] self.columns()[t][c]).dom() == self.rows(t),
            forall|i: nat| #[trigger] self.rows(t).contains(i) <==> i < self.row_extent(t),
            self.rows(t).finite(),
            self.rows(t).len() == self.row_extent(t),
    {
        self.items.lemma_wf();
        assert(self.items@.dom().contains(t));
        let p = self.items@[t];
        if p.fields@.len() == 0 {
            assert(self.rows(t) =~= Set::<nat>::empty());
        } else {
            let col = p.fields@[0];
            assert(col.wf());
            col.lemma_wf();
            crate::store::lemma_ascending_below_full(col@.dom(), col.extent());
        }
    }

    pub fn new() -> (r: Self)
        ensures
            r.wf(),
            r.columns() == Map::<nat, Seq<Map<nat, PropertyFieldContents>>>::empty(),
            r.type_count() == 0,
    {
        let r = PropertyStore { items: Store::new() };
        assert(r.columns() =~= Map::<nat, Seq<Map<nat, PropertyFieldContents>>>::empty());
        r
    }

    /// Adds storage for a newly registered type, under the next type index.
    pub fn add_type(&mut self, type_descriptor: &TypeDescriptor<PropertyTypeId>) -> (r: PropertyTypeId)
        requires
            old(self).wf(),
            old(self).type_count() + 1 <= max_bits(),
        ensures
            final(self).wf(),
            r.index() == old(self).type_count(),
            final(self).type_count() == old(self).type_count() + 1,
            final(self).columns() == old(self).columns().insert(r.index(), Seq::empty()),
            final(self).rows(r.index()) == Set::<nat>::empty(),
            final(self).row_extent(r.index()) == 0,
            forall|t: nat| t != r.index() ==> final(self).rows(t) == old(self).rows(t) && final(self).row_extent(t) == old(self).row_extent(t),
    {
        let ghost old_self = *self;
        proof {
            self.items.lemma_wf();
        }
        let id = self.items.add(Properties::new(type_descriptor));
        proof {
            assert(id.index() == old_self.items.extent()) by {
                if id.index() < old_self.items.extent() {
                    assert(old_self.items@.dom().contains(id.index()));
                }
            }
            assert(self.items@[id.index()].fields@.map_values(
                |s: Store<PropertyFieldContents, PropertyId>| s@,
            ) =~= Seq::<Map<nat, PropertyFieldContents>>::empty());
            assert(self.columns() =~= old_self.columns().insert(id.index(), Seq::empty()));
        }
        id
    }

    /// Stores a validated property as a new row of type `type_id`, one value
    /// per column, in the lowest free row. The columns are created by the
    /// type's first property. Returns the row, or `None` for a type without fields.
    pub fn add_property(&mut self, type_id: PropertyTypeId, property: &ValidatedProperty) -> (r: Option<PropertyId>)
        requires
            old(self).wf(),
            type_id.index() < old(self).type_count(),
            old(self).columns()[type_id.index()].len() == 0 || old(self).columns()[type_id.index()].len()
                == property.field_seq().len(),
            old(self).row_extent(type_id.index()) + 1 <= max_bits(),
        ensures
            final(self).wf(),
            final(self).type_count() == old(self).type_count(),
            forall|t: nat| t != type_id.index() ==> final(self).rows(t) == old(self).rows(t) && final(self).row_extent(t) == old(self).row_extent(t),
            forall|c: int|
                0 <= c < final(self).columns()[type_id.index()].len() ==> (#[trigger] final(self).columns()[type_id.index()][c]).dom()
                    == final(self).rows(type_id.index()),
            match r {
                None => property.field_seq().len() == 0 && final(self).columns() == old(self).columns()
                    && final(self).row_extent(type_id.index()) == old(self).row_extent(type_id.index()),
                Some(row) => {
                    &&& property.field_seq().len() > 0
                    &&& row.index() == old(self).row_extent(type_id.index())
                    &&& final(self).row_extent(type_id.index()) == old(self).row_extent(type_id.index()) + 1
                    &&& final(self).columns()[type_id.index()].len() == property.field_seq().len()
                    &&& !old(self).rows(type_id.index()).contains(row.index())
                    &&& forall|j: nat| j < row.index() ==> old(self).rows(type_id.index()).contains(j)
                    &&& final(self).rows(type_id.index()) == old(self).rows(type_id.index()).insert(row.index())
                    &&& final(self).columns() == old(self).columns().insert(
                        type_id.index(),
                        with_row(old(self).columns()[type_id.index()], row.index(), property.field_seq()),
                    )
                },
            },
    {
        let ghost old_self = *self;
        let ghost t = type_id.index();
        let values = property.fields();
        let n = values.len();
        if n == 0 {
            proof {
                self.lemma_rows(t);
            }
            return None;
        }
        proof {
            self.items.lemma_wf();
            assert(self.items@.dom().contains(t));
        }
        let props = self.items.get_mut(type_id);
        if props.fields.len() == 0 {
            let mut k: usize = 0;
            while k < n
                invariant
                    k <= n,
                    props.fields@.len() == k,
                    forall|c: int| 0 <= c < k ==> (#[trigger] props.fields@[c]).wf() && props.fields@[c]@ == Map::<nat, PropertyFieldContents>::empty() && props.fields@[c].extent() == 0,
                decreases n - k,
            {
                props.fields.push(Store::new());
                k = k + 1;
            }
        }
        let ghost base = *props;
        assert(base.wf());
        let mut row: Option<PropertyId> = None;
        let mut idx: usize = 0;
        while idx < n
            invariant
                n == values@.len(),
                values@ == property.field_seq(),
                base.fields@.len() == n,
                base.wf(),
                props.fields@.len() == n,
                idx <= n,
                n > 0 ==> base.fields@[0].extent() + 1 <= max_bits(),
                idx == 0 <==> row is None,
                forall|c: int| #![trigger props.fields@[c]] idx <= c < n ==> props.fields@[c] == base.fields@[c],
                row matches Some(r) ==> {
                    &&& base.fields@[0].is_lowest_free(r.index())
                    &&& forall|c: int| #![trigger props.fields@[c]] 0 <= c < idx ==> {
                        &&& props.fields@[c].wf()
                        &&& props.fields@[c]@ == base.fields@[c]@.insert(r.index(), values@[c].value)
                        &&& props.fields@[c].extent() == if r.index() == base.fields@[0].extent() {
                            base.fields@[0].extent() + 1
                        } else {
                            base.fields@[0].extent()
                        }
                    }
                },
            decreases n - idx,
        {
            let value = copy_contents(&values[idx].value);
            let column = &mut props.fields[idx];
            let id = column.add(value);
            proof {
                let b = base.fields@[idx as int];
                assert(b@.dom() == base.fields@[0]@.dom());
                if let Some(r) = row {
                    assert(b.is_lowest_free(id.index()));
                    assert(id.index() == r.index()) by {
                        if id.index() < r.index() {
                            assert(base.fields@[0]@.dom().contains(id.index()));
                        } else if r.index() < id.index() {
                            assert(b@.dom().contains(r.index()));
                        }
                    }
                    PropertyId::lemma_index_injective(id, r);
                }
            }
            row = Some(id);
            idx = idx + 1;
        }
        proof {
            assert(row is Some);
            let r = row->Some_0;
            assert(self.items@ == old_self.items@.insert(t, *props));
            assert(!old_self.rows(t).contains(r.index()));
            assert(forall|j: nat| j < r.index() ==> old_self.rows(t).contains(j));
            assert(self.rows(t) == old_self.rows(t).insert(r.index()));
            let expected = with_row(old_self.columns()[t], r.index(), property.field_seq());
            assert(self.columns()[t] =~= expected);
            assert(self.columns() =~= old_self.columns().insert(t, expected));
            assert(r.index() == base.fields@[0].extent()) by {
                if r.index() < base.fields@[0].extent() {
                    assert(base.fields@[0]@.dom().contains(r.index()));
                }
            }
            self.lemma_rows(t);
        }
        row
    }
}

} // verus!
