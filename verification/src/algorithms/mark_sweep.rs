use crate::gc_trait::erase;
use crate::gc_trait::new_cell;
use crate::gc_trait::Gc;
use crate::gc_trait::GcHandle;
use crate::gc_trait::GcStats;
use crate::gc_trait::Payload;
use crate::graph::allocate_into;
use crate::graph::count_unmarked;
use crate::graph::has_edge;
use crate::graph::has_id;
use crate::graph::is_root;
use crate::graph::lemma_closed_holds_path;
use crate::graph::lemma_edge_reachable;
use crate::graph::lemma_mark_one;
use crate::graph::lemma_retain_len;
use crate::graph::lemma_root_reachable;
use crate::graph::is_path;
use crate::graph::mark_reachable;
use crate::graph::reachable;
use crate::graph::retain_marked;
use crate::graph::same_shape;
use crate::graph::trace_collect;
use crate::heap::Heap;
use crate::object::Record;
use std::collections::VecDeque;
use std::rc::Rc;
use vstd::prelude::*;

verus! {

/// Position `j` waits in the work queue.
spec fn queued(q: Seq<usize>, j: int) -> bool {
    exists|k: int| 0 <= k < q.len() && #[trigger] q[k] == j
}

/// The tracing collector. It owns the heap; a record is a root while somebody
/// besides the heap claims its payload, and a cycle keeps what the roots
/// reach.
pub struct MarkSweepGc {
    heap: Heap,
    stats: GcStats,
}

impl MarkSweepGc {
    /// The records of the heap, in arena order.
    pub closed spec fn records(&self) -> Seq<Record> {
        self.heap@
    }

    /// The live-record count at which `allocate` runs a cycle.
    pub closed spec fn spec_threshold(&self) -> usize {
        self.heap.spec_threshold()
    }

    /// The heap and the counters agree: identities grow along the arena,
    /// every allocation got the next identity, and the live count is the
    /// number of records.
    pub closed spec fn bookkeeping(&self) -> bool {
        &&& self.heap.wf()
        &&& self.heap.spec_next_id() == self.stats.total_allocated
        &&& self.stats.consistent()
        &&& self.stats.current_heap_size == self.heap@.len()
    }

    /// Where the heap and the counters agree, the live count is what was
    /// allocated less what was freed, and it is the number of records. This
    /// holds between the mark phase and the sweep too.
    pub proof fn lemma_bookkeeping_counters(&self)
        requires
            self.bookkeeping(),
        ensures
            self.spec_stats().consistent(),
            self.spec_stats().current_heap_size == self.records().len(),
    {
    }

    /// An empty collector that runs a cycle whenever an allocation brings the
    /// live records to `threshold`.
    pub fn with_threshold(threshold: usize) -> (gc: MarkSweepGc)
        ensures
            gc.wf(),
            gc.records() == Seq::<Record>::empty(),
            gc.spec_stats() == GcStats::zero(),
            gc.spec_threshold() == threshold,
    {
        MarkSweepGc { heap: Heap::with_threshold(threshold), stats: GcStats::default() }
    }

    /// Whether a live record has the identity `id`.
    pub fn is_live(&self, id: usize) -> (live: bool)
        requires
            self.bookkeeping(),
        ensures
            live == has_id(self.records(), id),
    {
        match self.heap.index_of(id) {
            Some(i) => {
                assert(self.records()[i as int].id == id);
                true
            },
            None => false,
        }
    }

    /// The mark phase with the claim counts given: marks every record that
    /// is a root by `claims` or that a chain of edges reaches from a root,
    /// and no other. An edge that names no live record is passed over.
    pub fn mark_with(&mut self, claims: &Vec<usize>)
        requires
            old(self).wf(),
            claims@.len() == old(self).records().len(),
        ensures
            final(self).records() == mark_reachable(old(self).records(), claims@),
            final(self).bookkeeping(),
            final(self).spec_stats() == old(self).spec_stats(),
            final(self).spec_stats().consistent(),
            final(self).spec_stats().current_heap_size == final(self).records().len(),
            final(self).spec_threshold() == old(self).spec_threshold(),
    {
        let ghost g0 = self.heap@;
        let n = self.heap.size();
        let mut work_list: VecDeque<usize> = VecDeque::new();
        let mut i: usize = 0;
        while i < n
            invariant
                i <= n,
                n == g0.len(),
                claims@.len() == n,
                same_shape(self.heap@, g0),
                self.heap.spec_next_id() == old(self).heap.spec_next_id(),
                self.heap.spec_threshold() == old(self).heap.spec_threshold(),
                self.stats == old(self).stats,
                forall|j: int|
                    0 <= j < n ==> (#[trigger] self.heap@[j].marked <==> (j < i && is_root(
                        claims@,
                        j,
                    ))),
                forall|k: int|
                    0 <= k < work_list@.len() ==> #[trigger] work_list@[k] < n
                        && self.heap@[work_list@[k] as int].marked,
                forall|j: int|
                    0 <= j < n && #[trigger] self.heap@[j].marked ==> queued(work_list@, j),
            decreases n - i,
        {
            if claims[i] > 1 && !self.heap.is_marked_at(i) {
                let ghost q = work_list@;
                self.heap.mark_at(i);
                work_list.push_back(i);
                assert(work_list@[q.len() as int] == i);
                assert forall|j: int| 0 <= j < n && #[trigger] self.heap@[j].marked implies queued(
                    work_list@,
                    j,
                ) by {
                    if j != i {
                        let k = choose|k: int| 0 <= k < q.len() && #[trigger] q[k] == j;
                        assert(work_list@[k] == j);
                    }
                }
            }
            i = i + 1;
        }
        assert forall|j: int| 0 <= j < n && #[trigger] self.heap@[j].marked implies reachable(
            g0,
            claims@,
            j,
        ) by {
            lemma_root_reachable(g0, claims@, j);
        }
        while work_list.len() > 0
            invariant
                n == g0.len(),
                claims@.len() == n,
                old(self).heap.wf(),
                g0 == old(self).heap@,
                same_shape(self.heap@, g0),
                self.heap.spec_next_id() == old(self).heap.spec_next_id(),
                self.heap.spec_threshold() == old(self).heap.spec_threshold(),
                self.stats == old(self).stats,
                forall|j: int|
                    0 <= j < n && #[trigger] self.heap@[j].marked ==> reachable(g0, claims@, j),
                forall|j: int| 0 <= j < n && is_root(claims@, j) ==> #[trigger] self.heap@[j].marked,
                forall|k: int|
                    0 <= k < work_list@.len() ==> #[trigger] work_list@[k] < n
                        && self.heap@[work_list@[k] as int].marked,
                forall|j: int, t: int|
                    0 <= j < n && self.heap@[j].marked && !queued(work_list@, j) && #[trigger] has_edge(
                        g0,
                        j,
                        t,
                    ) ==> self.heap@[t].marked,
            decreases count_unmarked(self.heap@) + work_list@.len(),
        {
            let ghost q0 = work_list@;
            let x = work_list.pop_front().unwrap();
            assert forall|j: int| j != x && queued(q0, j) implies queued(work_list@, j) by {
                let k = choose|k: int| 0 <= k < q0.len() && #[trigger] q0[k] == j;
                assert(work_list@[k - 1] == j);
            }
            assert(q0[0] == x);
            let m = self.heap.edge_count(x);
            let ghost measure = count_unmarked(self.heap@) + work_list@.len();
            let mut k: usize = 0;
            while k < m
                invariant
                    x < n,
                    k <= m,
                    m == g0[x as int].edges.len(),
                    n == g0.len(),
                    claims@.len() == n,
                    old(self).heap.wf(),
                    g0 == old(self).heap@,
                    same_shape(self.heap@, g0),
                    self.heap.spec_next_id() == old(self).heap.spec_next_id(),
                    self.heap.spec_threshold() == old(self).heap.spec_threshold(),
                    self.stats == old(self).stats,
                    self.heap@[x as int].marked,
                    forall|j: int|
                        0 <= j < n && #[trigger] self.heap@[j].marked ==> reachable(g0, claims@, j),
                    forall|j: int|
                        0 <= j < n && is_root(claims@, j) ==> #[trigger] self.heap@[j].marked,
                    forall|k: int|
                        0 <= k < work_list@.len() ==> #[trigger] work_list@[k] < n
                            && self.heap@[work_list@[k] as int].marked,
                    forall|j: int, t: int|
                        0 <= j < n && j != x && self.heap@[j].marked && !queued(work_list@, j)
                            && #[trigger] has_edge(g0, j, t) ==> self.heap@[t].marked,
                    forall|kk: int, t: int|
                        0 <= kk < k && 0 <= t < n && #[trigger] g0[t].id == #[trigger] g0[x as int].edges[kk]
                            ==> self.heap@[t].marked,
                    count_unmarked(self.heap@) + work_list@.len() == measure,
                decreases m - k,
            {
                let target = self.heap.edge_at(x, k);
                match self.heap.index_of(target) {
                    Some(t) => {
                        if !self.heap.is_marked_at(t) {
                            let ghost q = work_list@;
                            let ghost g = self.heap@;
                            proof {
                                lemma_mark_one(g, t as int);
                                assert(g0[x as int].edges[k as int] == g0[t as int].id);
                                assert(has_edge(g0, x as int, t as int));
                                lemma_edge_reachable(g0, claims@, x as int, t as int);
                            }
                            self.heap.mark_at(t);
                            work_list.push_back(t);
                            assert(work_list@[q.len() as int] == t);
                            assert forall|j: int| queued(q, j) implies queued(work_list@, j) by {
                                let w = choose|w: int| 0 <= w < q.len() && #[trigger] q[w] == j;
                                assert(work_list@[w] == j);
                            }
                            assert(queued(work_list@, t as int));
                        }
                    },
                    None => {},
                }
                k = k + 1;
            }
            assert forall|t: int| has_edge(g0, x as int, t) implies self.heap@[t].marked by {
                let kk = choose|kk: int|
                    0 <= kk < g0[x as int].edges.len() && g0[x as int].edges[kk] == g0[t].id;
                assert(g0[t].id == g0[x as int].edges[kk]);
            }
        }
        proof {
            let g1 = self.heap@;
            assert forall|j: int| 0 <= j < n implies (g1[j].marked <==> reachable(
                g0,
                claims@,
                j,
            )) by {
                if reachable(g0, claims@, j) {
                    let p = choose|p: Seq<int>| #[trigger] is_path(g0, claims@, p) && p.last() == j;
                    assert forall|a: int, b: int|
                        0 <= a < g0.len() && g1[a].marked && has_edge(g0, a, b) implies g1[b].marked by {
                        assert(!queued(work_list@, a));
                    }
                    lemma_closed_holds_path(g0, claims@, g1, p);
                }
            }
            assert(g1 =~= mark_reachable(g0, claims@));
        }
    }
    /// The mark phase on the claim counts of this instant. Which records are
    /// roots is for the handles outside to decide; whatever the counts are,
    /// exactly the records reachable from the roots end marked.
    pub fn mark(&mut self)
        requires
            old(self).wf(),
        ensures
            exists|claims: Seq<usize>|
                claims.len() == old(self).records().len() && final(self).records()
                    == #[trigger] mark_reachable(old(self).records(), claims),
            final(self).bookkeeping(),
            final(self).spec_stats() == old(self).spec_stats(),
            final(self).spec_stats().consistent(),
            final(self).spec_stats().current_heap_size == final(self).records().len(),
            final(self).spec_threshold() == old(self).spec_threshold(),
    {
        let claims = self.heap.claims();
        self.mark_with(&claims);
    }

    /// The sweep phase: destroys every unmarked record, clears the mark of
    /// every survivor, and moves what was destroyed from the live count to
    /// the freed count.
    pub fn sweep(&mut self)
        requires
            old(self).bookkeeping(),
        ensures
            final(self).wf(),
            final(self).records() == retain_marked(old(self).records()),
            final(self).records().len() <= old(self).records().len(),
            final(self).spec_stats() == old(self).spec_stats().swept(
                (old(self).records().len() - final(self).records().len()) as nat,
            ),
            final(self).spec_stats().consistent(),
            final(self).spec_stats().current_heap_size == final(self).records().len(),
            final(self).spec_stats().total_freed == old(self).spec_stats().total_freed
                + old(self).records().len() - final(self).records().len(),
            final(self).spec_threshold() == old(self).spec_threshold(),
    {
        proof {
            lemma_retain_len(self.heap@);
        }
        let before_size = self.heap.size();
        self.heap.sweep();
        let after_size = self.heap.size();
        let freed = before_size - after_size;
        self.stats.total_freed = self.stats.total_freed + freed;
        self.stats.current_heap_size = after_size;
    }

    /// One whole cycle with the claim counts given: mark from the roots,
    /// sweep, count the cycle. The survivors are the records reachable from
    /// the roots, in their order and unmarked.
    pub fn collect_with(&mut self, claims: &Vec<usize>)
        requires
            old(self).wf(),
            claims@.len() == old(self).records().len(),
            old(self).spec_stats().num_collections < usize::MAX,
        ensures
            final(self).wf(),
            final(self).records() == trace_collect(old(self).records(), claims@),
            final(self).records().len() <= old(self).records().len(),
            final(self).spec_stats() == old(self).spec_stats().collected(
                (old(self).records().len() - final(self).records().len()) as nat,
            ),
            final(self).spec_stats().consistent(),
            final(self).spec_stats().current_heap_size == final(self).records().len(),
            final(self).spec_stats().total_freed == old(self).spec_stats().total_freed
                + old(self).records().len() - final(self).records().len(),
            final(self).spec_threshold() == old(self).spec_threshold(),
    {
        self.mark_with(claims);
        self.sweep();
        self.stats.num_collections = self.stats.num_collections + 1;
    }

    /// Adds an edge from the record with identity `from` to the identity `to`
    /// and says whether `from` is live. An edge claims nothing: it keeps its
    /// target alive only as long as a root reaches its source.
    pub fn add_reference(&mut self, from: usize, to: usize) -> (added: bool)
        requires
            old(self).wf(),
        ensures
            final(self).wf(),
            final(self).spec_stats() == old(self).spec_stats(),
            final(self).spec_threshold() == old(self).spec_threshold(),
            added == (exists|i: int|
                0 <= i < old(self).records().len() && old(self).records()[i].id == from),
            added ==> exists|i: int|
                0 <= i < old(self).records().len() && old(self).records()[i].id == from
                    && final(self).records() == old(self).records().update(
                    i,
                    old(self).records()[i].with_edge(to),
                ),
            !added ==> final(self).records() == old(self).records(),
    {
        let added = self.heap.add_reference(from, to);
        assert forall|i: int| 0 <= i < self.records().len() implies !self.records()[i].marked by {
            assert(!old(self).records()[i].marked);
        }
        added
    }
}

impl Gc for MarkSweepGc {
    open spec fn wf(&self) -> bool {
        &&& self.bookkeeping()
        &&& forall|i: int| 0 <= i < self.records().len() ==> !self.records()[i].marked
    }

    closed spec fn spec_stats(&self) -> GcStats {
        self.stats
    }

    open spec fn live(&self) -> nat {
        self.records().len()
    }

    open spec fn allocation_collects(&self) -> bool {
        self.records().len() + 1 >= self.spec_threshold()
    }

    proof fn lemma_counters_agree(&self) {
        self.lemma_bookkeeping_counters();
    }

    /// An empty collector with the threshold of 100 live records.
    fn new() -> (gc: MarkSweepGc)
        ensures
            gc.records() == Seq::<Record>::empty(),
            gc.spec_threshold() == 100,
    {
        MarkSweepGc::with_threshold(100)
    }

    /// Allocates one value: a new record at the end of the arena, under the
    /// next identity. Where the live records then reach the threshold, one
    /// whole cycle runs before the call returns, on the claim counts of that
    /// instant.
    fn allocate<T: 'static>(&mut self, value: T) -> (handle: GcHandle<T>)
        ensures
            handle.spec_id() == old(self).spec_stats().total_allocated,
            final(self).spec_threshold() == old(self).spec_threshold(),
            exists|payload: Payload, claims: Seq<usize>|
                claims.len() == old(self).records().len() + 1 && final(self).records()
                    == #[trigger] allocate_into(
                    old(self).records(),
                    old(self).spec_threshold(),
                    Record::fresh(handle.spec_id(), payload),
                    claims,
                ),
            final(self).spec_stats() == if !old(self).allocation_collects() {
                old(self).spec_stats().allocated_one()
            } else {
                old(self).spec_stats().allocated_one().collected(
                    (old(self).records().len() + 1 - final(self).records().len()) as nat,
                )
            },
    {
        let data = Rc::new(new_cell(value));
        let payload = erase(&data);
        let ghost record = Record::fresh(self.heap.spec_next_id(), payload);
        let id = self.heap.allocate(payload);
        self.stats.total_allocated = self.stats.total_allocated + 1;
        self.stats.current_heap_size = self.stats.current_heap_size + 1;
        assert forall|i: int| 0 <= i < self.records().len() implies !self.records()[i].marked by {
            if i < old(self).records().len() {
                assert(!old(self).records()[i].marked);
            }
        }
        let ghost grown = self.records();
        if self.heap.should_collect() {
            self.collect();
            proof {
                let claims = choose|claims: Seq<usize>|
                    claims.len() == grown.len() && self.records() == #[trigger] trace_collect(
                        grown,
                        claims,
                    );
                assert(self.records() == allocate_into(
                    old(self).records(),
                    old(self).spec_threshold(),
                    record,
                    claims,
                ));
            }
        } else {
            proof {
                let claims = Seq::new(grown.len(), |i: int| 0usize);
                assert(self.records() == allocate_into(
                    old(self).records(),
                    old(self).spec_threshold(),
                    record,
                    claims,
                ));
            }
        }
        GcHandle::from_parts(id, data)
    }

    /// One whole cycle on the claim counts of this instant: whatever they
    /// are, the survivors are the records reachable from the roots.
    fn collect(&mut self)
        ensures
            exists|claims: Seq<usize>|
                claims.len() == old(self).records().len() && final(self).records()
                    == #[trigger] trace_collect(old(self).records(), claims),
            final(self).spec_threshold() == old(self).spec_threshold(),
    {
        let claims = self.heap.claims();
        self.collect_with(&claims);
    }

    fn stats(&self) -> (s: GcStats) {
        self.stats
    }
}

} // verus!
