use std::cell::Ref;
use std::cell::RefCell;
use std::cell::RefMut;
use std::rc::Rc;
use vstd::prelude::*;

verus! {

/// `std::cell::RefCell`, the cell every managed value lives in. Its content
/// is out of the verifier's sight.
#[verifier::external_type_specification]
#[verifier::external_body]
#[verifier::reject_recursive_types(T)]
pub struct ExRefCell<T: ?Sized>(RefCell<T>);

/// `std::cell::Ref`, the read view that `RefCell::try_borrow` hands out.
#[verifier::external_type_specification]
#[verifier::external_body]
#[verifier::reject_recursive_types(T)]
pub struct ExRef<'b, T: ?Sized>(Ref<'b, T>);

/// `std::cell::RefMut`, the write view that `RefCell::try_borrow_mut` hands
/// out.
#[verifier::external_type_specification]
#[verifier::external_body]
#[verifier::reject_recursive_types(T)]
pub struct ExRefMut<'b, T: ?Sized + 'b>(RefMut<'b, T>);

/// A value whose concrete type the collectors have forgotten. Every managed
/// value lives in a `RefCell`, and a collector keeps it only as
/// `Rc<dyn Managed>`: it can hold the value and count its claimants, and
/// nothing else.
pub trait Managed {
}

impl<T: 'static> Managed for RefCell<T> {
}

/// A claim on a managed value of forgotten type.
pub struct Payload {
    value: Rc<dyn Managed>,
}

impl Payload {
    /// Takes a value under management: the payload is the first claim on it.
    pub fn new<T: 'static>(value: T) -> (payload: Payload) {
        let data = Rc::new(new_cell(value));
        erase(&data)
    }
}

/// The counters every collector reports.
#[derive(Debug, Clone, Copy, PartialEq, Eq, Structural)]
pub struct GcStats {
    pub total_allocated: usize,
    pub total_freed: usize,
    pub current_heap_size: usize,
    pub num_collections: usize,
}

impl GcStats {
    /// The counters agree with each other: what is live is what was allocated
    /// and not freed.
    pub open spec fn consistent(self) -> bool {
        &&& self.total_freed <= self.total_allocated
        &&& self.current_heap_size == self.total_allocated - self.total_freed
    }

    /// The counters of a collector that has done nothing yet.
    pub open spec fn zero() -> GcStats {
        GcStats { total_allocated: 0, total_freed: 0, current_heap_size: 0, num_collections: 0 }
    }

    /// The counters after one more allocation.
    pub open spec fn allocated_one(self) -> GcStats {
        GcStats {
            total_allocated: (self.total_allocated + 1) as usize,
            current_heap_size: (self.current_heap_size + 1) as usize,
            ..self
        }
    }

    /// The counters after `freed` records were destroyed.
    pub open spec fn swept(self, freed: nat) -> GcStats {
        GcStats {
            total_freed: (self.total_freed + freed) as usize,
            current_heap_size: (self.current_heap_size - freed) as usize,
            ..self
        }
    }

    /// The counters after one collection cycle that freed `freed` records.
    pub open spec fn collected(self, freed: nat) -> GcStats {
        GcStats { num_collections: (self.num_collections + 1) as usize, ..self.swept(freed) }
    }
}

impl Default for GcStats {
    fn default() -> (s: GcStats)
        ensures
            s == GcStats::zero(),
    {
        GcStats { total_allocated: 0, total_freed: 0, current_heap_size: 0, num_collections: 0 }
    }
}

/// A shared, clonable reference to one allocated value. All clones of a handle
/// reach the same value; each clone is one more claimant to it.
#[derive(Clone)]
#[verifier::reject_recursive_types(T)]
pub struct GcHandle<T> {
    pub(crate) id: usize,
    pub(crate) data: Rc<RefCell<T>>,
}

impl<T> GcHandle<T> {
    /// Shared read access to the value, by `RefCell::try_borrow`: a read view,
    /// or `None` while a write view of the same value is outstanding. Which
    /// of the two comes back depends on the views that are alive, so nothing
    /// is claimed of it. The call never panics.
    #[verifier::external_body]
    pub fn borrow(&self) -> (view: Option<Ref<'_, T>>) {
        match self.data.try_borrow() {
            Ok(view) => Some(view),
            Err(_) => None,
        }
    }

    /// Exclusive write access to the value, by `RefCell::try_borrow_mut`: a
    /// write view, or `None` while any other view of the same value is
    /// outstanding. Which of the two comes back depends on the views that are
    /// alive, so nothing is claimed of it. The call never panics.
    #[verifier::external_body]
    pub fn borrow_mut(&self) -> (view: Option<RefMut<'_, T>>) {
        match self.data.try_borrow_mut() {
            Ok(view) => Some(view),
            Err(_) => None,
        }
    }

    /// The identity of the record behind this handle.
    pub closed spec fn spec_id(&self) -> usize {
        self.id
    }

    /// A handle to the value in `data`, for the record with identity `id`.
    pub(crate) fn from_parts(id: usize, data: Rc<RefCell<T>>) -> (handle: GcHandle<T>)
        ensures
            handle.spec_id() == id,
    {
        GcHandle { id, data }
    }

    /// The identity the collector gave to the record behind this handle.
    pub fn id(&self) -> (id: usize)
        ensures
            id == self.spec_id(),
    {
        self.id
    }
}

/// Puts a value into a fresh cell, by `RefCell::new`. Nothing is claimed of
/// the cell.
#[verifier::external_body]
pub(crate) fn new_cell<T>(value: T) -> (cell: RefCell<T>) {
    RefCell::new(value)
}

/// A second claim on a shared cell with its type forgotten, by `Rc::clone`.
/// Nothing is claimed of the result.
#[verifier::external_body]
pub(crate) fn erase<T: 'static>(data: &Rc<RefCell<T>>) -> (payload: Payload) {
    Payload { value: data.clone() }
}

/// The number of claimants to a payload at this instant, by
/// `Rc::strong_count`. It counts the collector's own claim and every live
/// handle, so it changes as handles are cloned and dropped: nothing is
/// promised of the number.
#[verifier::external_body]
pub(crate) fn claim_count(payload: &Payload) -> (count: usize) {
    Rc::strong_count(&payload.value)
}

/// The interface both collection strategies offer.
pub trait Gc: Sized {
    /// The collector's bookkeeping is intact.
    spec fn wf(&self) -> bool;

    /// The counters that `stats` reports.
    spec fn spec_stats(&self) -> GcStats;

    /// The number of records the collector tracks.
    spec fn live(&self) -> nat;

    /// An allocation now would run a collection cycle before it returns.
    spec fn allocation_collects(&self) -> bool;

    /// In every intact collector the counters agree with each other and with
    /// what is tracked: the live count is what was allocated less what was
    /// freed, and it is the number of records.
    proof fn lemma_counters_agree(&self)
        requires
            self.wf(),
        ensures
            self.spec_stats().consistent(),
            self.spec_stats().current_heap_size == self.live(),
    ;

    /// An empty collector: no record, every counter zero.
    fn new() -> (gc: Self)
        ensures
            gc.wf(),
            gc.live() == 0,
            gc.spec_stats() == GcStats::zero(),
    ;

    /// Allocates one value and hands back a handle to it. Exactly one
    /// allocation is counted; one collection cycle runs before the call
    /// returns where one is due, and none where none is; the counters stay
    /// consistent either way. The counters that the call raises must have
    /// room for one more.
    fn allocate<T: 'static>(&mut self, value: T) -> (handle: GcHandle<T>)
        requires
            old(self).wf(),
            old(self).spec_stats().total_allocated < usize::MAX,
            old(self).allocation_collects() ==> old(self).spec_stats().num_collections
                < usize::MAX,
        ensures
            final(self).wf(),
            final(self).spec_stats().total_allocated == old(self).spec_stats().total_allocated + 1,
            final(self).spec_stats().total_freed >= old(self).spec_stats().total_freed,
            final(self).spec_stats().num_collections == old(self).spec_stats().num_collections
                + if old(self).allocation_collects() {
                1int
            } else {
                0int
            },
            final(self).spec_stats().consistent(),
            final(self).spec_stats().current_heap_size == final(self).live(),
            final(self).live() <= old(self).live() + 1,
    ;

    /// Runs one collection cycle. The cycle is counted once whatever it
    /// frees; nothing is allocated; what was freed is added to `total_freed`
    /// and taken from `current_heap_size`.
    fn collect(&mut self)
        requires
            old(self).wf(),
            old(self).spec_stats().num_collections < usize::MAX,
        ensures
            final(self).wf(),
            final(self).live() <= old(self).live(),
            final(self).spec_stats() == old(self).spec_stats().collected(
                (old(self).live() - final(self).live()) as nat,
            ),
            final(self).spec_stats().total_allocated == old(self).spec_stats().total_allocated,
            final(self).spec_stats().total_freed == old(self).spec_stats().total_freed
                + old(self).live() - final(self).live(),
            final(self).spec_stats().num_collections == old(self).spec_stats().num_collections + 1,
            final(self).spec_stats().consistent(),
            final(self).spec_stats().current_heap_size == final(self).live(),
    ;

    /// A snapshot of the counters.
    fn stats(&self) -> (s: GcStats)
        ensures
            s == self.spec_stats(),
    ;
}

} // verus!
