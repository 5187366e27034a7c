use crate::gc_trait::claim_count;
use crate::gc_trait::Payload;
use crate::graph::lemma_retain_push;
use crate::graph::retain_marked;
use crate::graph::root_ids;
use crate::object::GcObject;
use crate::object::Record;
use vstd::prelude::*;

verus! {

/// The arena of live object records. It issues identities in increasing
/// order, keeps the records in the order they were allocated, and destroys
/// records only in `sweep`.
pub struct Heap {
    objects: Vec<GcObject>,
    next_id: usize,
    threshold: usize,
}

impl View for Heap {
    type V = Seq<Record>;

    closed spec fn view(&self) -> Seq<Record> {
        Seq::new(self.objects@.len(), |i: int| self.objects@[i]@)
    }
}

impl Heap {
    /// The identity the next allocation will get.
    pub closed spec fn spec_next_id(&self) -> usize {
        self.next_id
    }

    /// The live-record count at which a collection is due.
    pub closed spec fn spec_threshold(&self) -> usize {
        self.threshold
    }

    /// Identities grow along the arena and stay below the next one to issue,
    /// so no two live records share an identity.
    pub open spec fn wf(&self) -> bool {
        &&& forall|i: int, j: int| 0 <= i < j < self@.len() ==> self@[i].id < self@[j].id
        &&& forall|i: int| 0 <= i < self@.len() ==> self@[i].id < self.spec_next_id()
    }

    /// Every record is unmarked, as between two collection cycles.
    pub open spec fn clean(&self) -> bool {
        forall|i: int| 0 <= i < self@.len() ==> !self@[i].marked
    }

    /// An empty heap that issues identities from 0 and asks for a collection
    /// at 100 live records.
    pub fn new() -> (heap: Heap)
        ensures
            heap@ == Seq::<Record>::empty(),
            heap.spec_next_id() == 0,
            heap.spec_threshold() == 100,
            heap.wf(),
    {
        Heap::with_threshold(100)
    }

    /// An empty heap that issues identities from 0 and asks for a collection
    /// at `threshold` live records.
    pub fn with_threshold(threshold: usize) -> (heap: Heap)
        ensures
            heap@ == Seq::<Record>::empty(),
            heap.spec_next_id() == 0,
            heap.spec_threshold() == threshold,
            heap.wf(),
    {
        let heap = Heap { objects: Vec::new(), next_id: 0, threshold };
        assert(heap@ =~= Seq::<Record>::empty());
        heap
    }

    /// The identity the next allocation will get.
    pub fn next_id(&self) -> (id: usize)
        ensures
            id == self.spec_next_id(),
    {
        self.next_id
    }

    /// Registers a payload under the next unused identity, as an unmarked
    /// record without edges at the end of the arena, and returns the identity.
    pub fn allocate(&mut self, payload: Payload) -> (id: usize)
        requires
            old(self).wf(),
            old(self).spec_next_id() < usize::MAX,
        ensures
            id == old(self).spec_next_id(),
            forall|i: int| 0 <= i < old(self)@.len() ==> old(self)@[i].id != id,
            final(self).spec_next_id() == id + 1,
            final(self).spec_threshold() == old(self).spec_threshold(),
            final(self)@ == old(self)@.push(Record::fresh(id, payload)),
            final(self).wf(),
    {
        let id: usize = self.next_id;
        self.next_id = self.next_id + 1;
        self.objects.push(GcObject::new(id, payload));
        assert(self@ =~= old(self)@.push(Record::fresh(id, payload)));
        id
    }

    /// Whether a collection is due: the live records have reached the
    /// threshold.
    pub fn should_collect(&self) -> (due: bool)
        ensures
            due == (self@.len() >= self.spec_threshold()),
    {
        self.objects.len() >= self.threshold
    }

    /// The number of live records.
    pub fn size(&self) -> (n: usize)
        ensures
            n == self@.len(),
    {
        self.objects.len()
    }

    /// The identity of the record at position `i`.
    pub fn id_at(&self, i: usize) -> (id: usize)
        requires
            i < self@.len(),
        ensures
            id == self@[i as int].id,
    {
        self.objects[i].id
    }

    /// Whether the record at position `i` is marked.
    pub fn is_marked_at(&self, i: usize) -> (marked: bool)
        requires
            i < self@.len(),
        ensures
            marked == self@[i as int].marked,
    {
        self.objects[i].is_marked()
    }

    /// Marks the record at position `i`.
    pub fn mark_at(&mut self, i: usize)
        requires
            i < old(self)@.len(),
        ensures
            final(self)@ == old(self)@.update(i as int, old(self)@[i as int].with_mark(true)),
            final(self).spec_next_id() == old(self).spec_next_id(),
            final(self).spec_threshold() == old(self).spec_threshold(),
    {
        self.objects[i].marked = true;
        assert(self@ =~= old(self)@.update(i as int, old(self)@[i as int].with_mark(true)));
    }

    /// The number of edges of the record at position `i`.
    pub fn edge_count(&self, i: usize) -> (n: usize)
        requires
            i < self@.len(),
        ensures
            n == self@[i as int].edges.len(),
    {
        self.objects[i].references.len()
    }

    /// The identity that edge `k` of the record at position `i` names.
    pub fn edge_at(&self, i: usize, k: usize) -> (target: usize)
        requires
            i < self@.len(),
            k < self@[i as int].edges.len(),
        ensures
            target == self@[i as int].edges[k as int],
    {
        self.objects[i].references[k]
    }

    /// The position of the live record with identity `id`, or `None` where no
    /// live record has it. Identities grow along the arena, so the search
    /// halves its range at each step.
    pub fn index_of(&self, id: usize) -> (found: Option<usize>)
        requires
            self.wf(),
        ensures
            match found {
                Some(i) => i < self@.len() && self@[i as int].id == id,
                None => forall|i: int| 0 <= i < self@.len() ==> self@[i].id != id,
            },
    {
        let mut lo: usize = 0;
        let mut hi: usize = self.objects.len();
        while lo < hi
            invariant
                lo <= hi <= self@.len(),
                self@.len() == self.objects@.len(),
                self.wf(),
                forall|j: int| 0 <= j < lo ==> self@[j].id < id,
                forall|j: int| hi <= j < self@.len() ==> self@[j].id > id,
            decreases hi - lo,
        {
            let mid: usize = lo + (hi - lo) / 2;
            let mid_id: usize = self.objects[mid].id;
            assert(mid_id == self@[mid as int].id);
            if mid_id == id {
                return Some(mid);
            } else if mid_id < id {
                lo = mid + 1;
            } else {
                hi = mid;
            }
        }
        None
    }

    /// Adds an edge from the record with identity `from` to the identity `to`
    /// and says whether `from` is live. The target need not be live: an edge
    /// names a record and claims nothing.
    pub fn add_reference(&mut self, from: usize, to: usize) -> (added: bool)
        requires
            old(self).wf(),
        ensures
            final(self).wf(),
            final(self).spec_next_id() == old(self).spec_next_id(),
            final(self).spec_threshold() == old(self).spec_threshold(),
            added == (exists|i: int| 0 <= i < old(self)@.len() && old(self)@[i].id == from),
            added ==> exists|i: int|
                0 <= i < old(self)@.len() && old(self)@[i].id == from
                    && final(self)@ == old(self)@.update(i, old(self)@[i].with_edge(to)),
            !added ==> final(self)@ == old(self)@,
    {
        match self.index_of(from) {
            Some(i) => {
                self.objects[i].references.push(to);
                assert(self@ =~= old(self)@.update(i as int, old(self)@[i as int].with_edge(to)));
                true
            },
            None => false,
        }
    }

    /// Destroys every unmarked record and clears the mark of every other. The
    /// survivors keep their order.
    pub fn sweep(&mut self)
        requires
            old(self).wf(),
        ensures
            final(self)@ == retain_marked(old(self)@),
            final(self).spec_next_id() == old(self).spec_next_id(),
            final(self).spec_threshold() == old(self).spec_threshold(),
            final(self).wf(),
            final(self).clean(),
    {
        let ghost g0 = self@;
        let mut swept: Vec<GcObject> = Vec::new();
        core::mem::swap(&mut self.objects, &mut swept);
        let ghost all = swept@;
        assert(g0.take(0) =~= Seq::<Record>::empty());
        assert(retain_marked(g0.take(0)) =~= Seq::<Record>::empty()) by {
            reveal(Seq::filter);
        }
        assert(self@ =~= Seq::<Record>::empty());
        for obj in it: swept.into_iter()
            invariant
                it.seq() == all,
                all.len() == g0.len(),
                forall|j: int| 0 <= j < g0.len() ==> g0[j] == (#[trigger] all[j])@,
                old(self).wf(),
                g0 == old(self)@,
                self@ =~= retain_marked(g0.take(it.index())),
                self.next_id == old(self).next_id,
                self.threshold == old(self).threshold,
                self.wf(),
                self.clean(),
                forall|a: int, b: int|
                    0 <= a < self@.len() && it.index() <= b < g0.len() ==> (#[trigger] self@[a]).id
                        < (#[trigger] g0[b]).id,
        {
            let ghost k = it.index();
            let ghost before = self@;
            assert(obj@ == g0[k]);
            assert(g0.take(k + 1) =~= g0.take(k).push(g0[k]));
            proof {
                lemma_retain_push(g0.take(k), g0[k]);
            }
            if obj.is_marked() {
                let mut kept = obj;
                kept.unmark();
                self.objects.push(kept);
                assert(self@ =~= before.push(g0[k].with_mark(false)));
            }
        }
        assert(g0.take(g0.len() as int) =~= g0);
    }

    /// The identities of the records with more than one claimant in `claims`,
    /// which holds one count for each record, in arena order.
    pub fn roots_with(&self, claims: &Vec<usize>) -> (roots: Vec<usize>)
        requires
            claims@.len() == self@.len(),
        ensures
            roots@ == root_ids(self@, claims@),
    {
        let mut roots: Vec<usize> = Vec::new();
        let mut i: usize = 0;
        assert(self@.take(0) =~= Seq::<Record>::empty());
        while i < self.objects.len()
            invariant
                i <= self.objects@.len(),
                self@.len() == self.objects@.len(),
                claims@.len() == self@.len(),
                roots@ == root_ids(self@.take(i as int), claims@),
            decreases self.objects.len() - i,
        {
            assert(self@.take(i + 1).drop_last() =~= self@.take(i as int));
            if claims[i] > 1 {
                roots.push(self.objects[i].id);
            }
            i = i + 1;
        }
        assert(self@.take(i as int) =~= self@);
        roots
    }

    /// The identities of the records that somebody besides the heap claims
    /// at this instant, in arena order: the roots of a trace.
    pub fn roots(&self) -> (roots: Vec<usize>)
        ensures
            exists|claims: Seq<usize>|
                claims.len() == self@.len() && roots@ == #[trigger] root_ids(self@, claims),
    {
        let claims = self.claims();
        self.roots_with(&claims)
    }

    /// The claim count of every record at this instant, in arena order. The
    /// counts are whatever the handles outside make them.
    pub fn claims(&self) -> (claims: Vec<usize>)
        ensures
            claims@.len() == self@.len(),
    {
        let mut claims: Vec<usize> = Vec::new();
        let mut i: usize = 0;
        while i < self.objects.len()
            invariant
                i <= self.objects@.len(),
                claims@.len() == i,
                self@.len() == self.objects@.len(),
            decreases self.objects.len() - i,
        {
            claims.push(claim_count(&self.objects[i].data));
            i = i + 1;
        }
        claims
    }
}

} // verus!
