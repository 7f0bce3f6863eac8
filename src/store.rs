//! A slotted arena: items addressed by typed identifiers whose slots are recycled.
use vstd::prelude::*;

use crate::availability_manager::{count_true, max_bits, AvailabilityManager};
use crate::id::IDIntoUSize;

verus! {

/// The taken slots of a bit sequence.
pub open spec fn taken_slots(bits: Seq<bool>) -> Set<nat> {
    Set::new(|i: nat| i < bits.len() && bits[i as int])
}

proof fn lemma_taken_slots(bits: Seq<bool>)
    ensures
        taken_slots(bits).finite(),
        taken_slots(bits).len() == count_true(bits),
    decreases bits.len(),
{
    if bits.len() == 0 {
        assert(taken_slots(bits) =~= Set::empty());
    } else {
        let rest = bits.drop_last();
        let n = rest.len();
        lemma_taken_slots(rest);
        if bits.last() {
            assert(taken_slots(bits) =~= taken_slots(rest).insert(n));
        } else {
            assert(taken_slots(bits) =~= taken_slots(rest));
        }
    }
}

/// The members of `dom` below `n`, in ascending order.
pub open spec fn ascending_below(dom: Set<nat>, n: nat) -> Seq<nat>
    decreases n,
{
    if n == 0 {
        Seq::empty()
    } else {
        ascending_below(dom, (n - 1) as nat) + if dom.contains((n - 1) as nat) {
            seq![(n - 1) as nat]
        } else {
            Seq::empty()
        }
    }
}

/// `ascending_below` lists each member of `dom` below `n` once, in increasing order.
pub proof fn lemma_ascending_below(dom: Set<nat>, n: nat)
    ensures
        forall|k: int|
            0 <= k < ascending_below(dom, n).len() ==> #[trigger] ascending_below(dom, n)[k] < n
                && dom.contains(ascending_below(dom, n)[k]),
        forall|i: nat| i < n && dom.contains(i) ==> #[trigger] ascending_below(dom, n).contains(i),
        forall|i: nat| #[trigger] ascending_below(dom, n).contains(i) ==> i < n && dom.contains(i),
        forall|j: int, k: int|
            0 <= j < k < ascending_below(dom, n).len() ==> ascending_below(dom, n)[j]
                < ascending_below(dom, n)[k],
        ascending_below(dom, n).no_duplicates(),
    decreases n,
{
    if n > 0 {
        let m = (n - 1) as nat;
        lemma_ascending_below(dom, m);
        let s = ascending_below(dom, n);
        let p = ascending_below(dom, m);
        let t = if dom.contains(m) {
            seq![m]
        } else {
            Seq::<nat>::empty()
        };
        assert(s == p + t);
        assert forall|k: int| 0 <= k < s.len() implies #[trigger] s[k] < n && dom.contains(s[k]) by {
            if k < p.len() {
                assert(s[k] == p[k]);
            } else {
                assert(s[k] == t[k - p.len()]);
            }
        }
        assert forall|i: nat| i < n && dom.contains(i) implies #[trigger] s.contains(i) by {
            if i < m {
                assert(p.contains(i));
                let k = choose|k: int| 0 <= k < p.len() && p[k] == i;
                assert(s[k] == i);
            } else {
                assert(s[p.len() as int] == i);
            }
        }
        assert forall|j: int, k: int| 0 <= j < k < s.len() implies s[j] < s[k] by {
            assert(s[j] == p[j]);
            if k >= p.len() {
                assert(p[j] < m);
                assert(s[k] == t[k - p.len()]);
            } else {
                assert(s[k] == p[k]);
            }
        }
    }
}

/// When every index below `n` is a member, `ascending_below` lists all of them.
pub proof fn lemma_ascending_below_full(dom: Set<nat>, n: nat)
    requires
        forall|i: nat| i < n ==> #[trigger] dom.contains(i),
    ensures
        ascending_below(dom, n).len() == n,
    decreases n,
{
    if n > 0 {
        lemma_ascending_below_full(dom, (n - 1) as nat);
        assert(dom.contains((n - 1) as nat));
    }
}

/// An arena of items addressed by identifiers of type `I`.
///
/// `add` hands out the lowest free slot; `remove` frees a slot without
/// clearing the value that was stored there.
#[derive(Debug)]
pub struct Store<T, I> {
    items: Vec<T>,
    availability: AvailabilityManager<I>,
}

impl<T, I> View for Store<T, I> {
    type V = Map<nat, T>;

    /// The items of the taken slots, by slot index.
    closed spec fn view(&self) -> Map<nat, T> {
        Map::new(|i: nat| taken_slots(self.availability@).contains(i), |i: nat| self.items@[i as int])
    }
}

impl<T, I: IDIntoUSize> Store<T, I> {
    /// The internal vectors are in step.
    pub closed spec fn wf(&self) -> bool {
        &&& self.items@.len() == self.availability@.len()
        &&& self.availability@.len() <= max_bits()
    }

    /// How many slots have ever been allocated; the store never shrinks.
    pub closed spec fn extent(&self) -> nat {
        self.availability@.len()
    }

    /// `i` is the lowest free slot, or the first slot past the extent when none is free.
    pub open spec fn is_lowest_free(&self, i: nat) -> bool {
        &&& i <= self.extent()
        &&& !self@.dom().contains(i)
        &&& forall|j: nat| j < i ==> self@.dom().contains(j)
    }

    /// The taken slots in ascending order.
    pub open spec fn live_ids(&self) -> Seq<nat> {
        ascending_below(self@.dom(), self.extent())
    }

    pub proof fn lemma_wf(&self)
        requires
            self.wf(),
        ensures
            self@.dom().finite(),
            self.extent() <= max_bits(),
            forall|i: nat| self@.dom().contains(i) ==> i < self.extent(),
            forall|i: nat| self.live_ids().contains(i) <==> self@.dom().contains(i),
            forall|j: int, k: int|
                0 <= j < k < self.live_ids().len() ==> self.live_ids()[j] < self.live_ids()[k],
            self.live_ids().no_duplicates(),
            self.live_ids().len() == self@.dom().len(),
    {
        lemma_taken_slots(self.availability@);
        assert(self@.dom() =~= taken_slots(self.availability@));
        lemma_ascending_below(self@.dom(), self.extent());
        self.live_ids().unique_seq_to_set();
        assert(self.live_ids().to_set() =~= self@.dom());
    }

    pub fn new() -> (r: Self)
        ensures
            r.wf(),
            r@ == Map::<nat, T>::empty(),
            r.extent() == 0,
    {
        let r = Store { items: Vec::new(), availability: AvailabilityManager::new() };
        assert(r@ =~= Map::<nat, T>::empty());
        r
    }

    /// The identifiers of the taken slots, in ascending order.
    pub fn all(&self) -> (r: Vec<I>)
        requires
            self.wf(),
        ensures
            r@.len() == self.live_ids().len(),
            forall|k: int| 0 <= k < r@.len() ==> #[trigger] r@[k].index() == self.live_ids()[k],
    {
        let mut r: Vec<I> = Vec::new();
        let n = self.items.len();
        let mut i: usize = 0;
        while i < n
            invariant
                self.wf(),
                n == self.extent(),
                i <= n,
                r@.len() == ascending_below(self@.dom(), i as nat).len(),
                forall|k: int|
                    0 <= k < r@.len() ==> #[trigger] r@[k].index() == ascending_below(
                        self@.dom(),
                        i as nat,
                    )[k],
            decreases n - i,
        {
            let id = I::from_usize(i);
            if self.availability.is_taken(id) {
                assert(self@.dom().contains(i as nat));
                r.push(id);
            }
            i = i + 1;
        }
        r
    }

    pub fn get(&self, id: I) -> (r: &T)
        requires
            self.wf(),
            self@.dom().contains(id.index()),
        ensures
            *r == self@[id.index()],
    {
        &self.items[id.as_usize()]
    }

    pub fn get_mut(&mut self, id: I) -> (r: &mut T)
        requires
            old(self).wf(),
            old(self)@.dom().contains(id.index()),
        ensures
            *r == old(self)@[id.index()],
            final(self).wf(),
            final(self).extent() == old(self).extent(),
            final(self)@ == old(self)@.insert(id.index(), *final(r)),
    {
        let ghost old_self = *self;
        let r = &mut self.items[id.as_usize()];
        proof {
            assert(self.availability@ == old_self.availability@);
            assert(after_borrow(self).items@ == old_self.items@.update(id.index() as int, *final(r)));
            assert(after_borrow(self)@ =~= old_self@.insert(id.index(), *final(r)));
        }
        r
    }

    /// Stores `item` in the lowest free slot, growing the store when none is free.
    pub fn add(&mut self, item: T) -> (r: I)
        requires
            old(self).wf(),
            old(self).extent() + 1 <= max_bits(),
        ensures
            final(self).wf(),
            old(self).is_lowest_free(r.index()),
            final(self)@ == old(self)@.insert(r.index(), item),
            final(self)@.dom().len() == old(self)@.dom().len() + 1,
            final(self).extent() == if r.index() == old(self).extent() {
                old(self).extent() + 1
            } else {
                old(self).extent()
            },
    {
        let ghost old_self = *self;
        let id = self.availability.get_available();
        let idx = id.as_usize();
        if idx < self.items.len() {
            self.items.set(idx, item);
        } else {
            self.items.push(item);
        }
        proof {
            old_self.lemma_wf();
            assert(self@ =~= old_self@.insert(idx as nat, item));
            assert forall|j: nat| j < idx implies old_self@.dom().contains(j) by {
                assert(old_self.availability@[j as int]);
            }
        }
        id
    }

    /// Frees a taken slot; its old value stays until the slot is reused.
    pub fn remove(&mut self, id: I)
        requires
            old(self).wf(),
            old(self)@.dom().contains(id.index()),
        ensures
            final(self).wf(),
            final(self).extent() == old(self).extent(),
            final(self)@ == old(self)@.remove(id.index()),
            final(self)@.dom().len() + 1 == old(self)@.dom().len(),
    {
        let ghost old_self = *self;
        self.availability.mark_as_available(id);
        proof {
            old_self.lemma_wf();
            assert(self@ =~= old_self@.remove(id.index()));
        }
    }

    /// Whether `id` names a taken slot.
    pub fn is_live(&self, id: I) -> (r: bool)
        requires
            self.wf(),
        ensures
            r == self@.dom().contains(id.index()),
    {
        let idx = id.as_usize();
        if idx < self.items.len() {
            self.availability.is_taken(id)
        } else {
            false
        }
    }

    /// The number of taken slots.
    pub fn len(&self) -> (r: usize)
        requires
            self.wf(),
        ensures
            r == self@.dom().len(),
    {
        proof {
            lemma_taken_slots(self.availability@);
            assert(self@.dom() =~= taken_slots(self.availability@));
        }
        self.availability.taken_count()
    }
}

/// `after` is `before` with one item added under a free slot `key` (`add`),
/// or with the taken slot `key` removed (`!add`), as `Store::add` and
/// `Store::remove` state.
pub open spec fn is_add_or_remove<T, I: IDIntoUSize>(before: Store<T, I>, after: Store<T, I>, add: bool, key: nat) -> bool {
    if add {
        !before@.dom().contains(key) && after@ == before@.insert(key, after@[key])
    } else {
        before@.dom().contains(key) && after@ == before@.remove(key)
    }
}

/// Over any sequence of adds and removes, the number of taken slots changes by
/// the number of adds minus the number of removes.
pub proof fn lemma_len_counts_adds_and_removes<T, I: IDIntoUSize>(
    stores: Seq<Store<T, I>>,
    adds: Seq<bool>,
    keys: Seq<nat>,
)
    requires
        stores.len() == adds.len() + 1,
        keys.len() == adds.len(),
        stores[0].wf(),
        forall|i: int| 0 <= i < adds.len() ==> is_add_or_remove(stores[i], stores[i + 1], #[trigger] adds[i], keys[i]),
    ensures
        stores.last()@.dom().finite(),
        stores.last()@.dom().len() + (adds.len() - count_true(adds)) == stores[0]@.dom().len() + count_true(adds),
    decreases adds.len(),
{
    if adds.len() == 0 {
        stores[0].lemma_wf();
    } else {
        let n = adds.len() as int;
        assert forall|i: int| 0 <= i < n - 1 implies is_add_or_remove(stores[i], stores[i + 1], #[trigger] adds.drop_last()[i], keys.drop_last()[i]) by {
            assert(adds.drop_last()[i] == adds[i]);
        }
        lemma_len_counts_adds_and_removes(stores.drop_last(), adds.drop_last(), keys.drop_last());
        let before = stores[n - 1];
        assert(before == stores.drop_last().last());
        assert(is_add_or_remove(stores[n - 1], stores[n], adds[n - 1], keys[n - 1]));
        assert(adds.last() == adds[n - 1]);
    }
}

} // verus!
