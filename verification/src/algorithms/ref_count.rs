use crate::gc_trait::claim_count;
use crate::gc_trait::erase;
use crate::gc_trait::new_cell;
use crate::gc_trait::Gc;
use crate::gc_trait::GcHandle;
use crate::gc_trait::GcStats;
use crate::gc_trait::Payload;
use std::rc::Rc;
use vstd::prelude::*;

verus! {

/// A tracked node as the contracts speak of it: its counter and the payload
/// it watches.
pub struct NodeRecord {
    pub count: usize,
    pub payload: Payload,
}

impl NodeRecord {
    /// The node of a new allocation: its one handle claims it.
    pub open spec fn fresh(payload: Payload) -> NodeRecord {
        NodeRecord { count: 1, payload }
    }
}

/// The handles behind a claim count: every claimant but the collector itself.
pub open spec fn handles_of(claim: usize) -> usize {
    if claim > 0 {
        (claim - 1) as usize
    } else {
        0
    }
}

/// The nodes after their counters were set from the claim counts.
pub open spec fn observed(nodes: Seq<NodeRecord>, claims: Seq<usize>) -> Seq<NodeRecord> {
    Seq::new(
        nodes.len(),
        |i: int| NodeRecord { count: handles_of(claims[i]), payload: nodes[i].payload },
    )
}

/// The nodes that stay when the dead ones are discarded: those with a
/// positive counter, in their order.
pub open spec fn retain_alive(nodes: Seq<NodeRecord>) -> Seq<NodeRecord> {
    nodes.filter(|node: NodeRecord| node.count > 0)
}

/// The nodes after a whole cycle on the claim counts given.
pub open spec fn count_collect(nodes: Seq<NodeRecord>, claims: Seq<usize>) -> Seq<NodeRecord> {
    retain_alive(observed(nodes, claims))
}

/// Discarding the dead among nodes with one more node at the end: the node
/// stays exactly if its counter is positive.
pub proof fn lemma_retain_alive_push(nodes: Seq<NodeRecord>, node: NodeRecord)
    ensures
        retain_alive(nodes.push(node)) == if node.count > 0 {
            retain_alive(nodes).push(node)
        } else {
            retain_alive(nodes)
        },
{
    reveal(Seq::filter);
    assert(nodes.push(node).drop_last() =~= nodes);
}

/// Discarding never adds a node.
pub proof fn lemma_retain_alive_len(nodes: Seq<NodeRecord>)
    ensures
        retain_alive(nodes).len() <= nodes.len(),
{
    nodes.lemma_filter_len(|node: NodeRecord| node.count > 0);
}

/// The bookkeeping for one allocation: the number of handles that claim it.
pub struct RefCountNode {
    pub strong_count: usize,
}

impl RefCountNode {
    /// The node of a fresh allocation: its one handle claims it.
    pub fn new() -> (node: RefCountNode)
        ensures
            node.strong_count == 1,
    {
        RefCountNode { strong_count: 1 }
    }

    /// Whether a handle still claims the allocation.
    pub fn is_alive(&self) -> (alive: bool)
        ensures
            alive == (self.strong_count > 0),
    {
        self.strong_count > 0
    }
}

struct Entry {
    node: RefCountNode,
    payload: Payload,
}

/// The reference-counting collector. It keeps one node for each allocation
/// and discards, when asked, the nodes that no handle claims any more. It
/// never runs by itself and knows no edges: values that hold handles to each
/// other keep each other claimed.
pub struct RefCountGc {
    stats: GcStats,
    nodes: Vec<Entry>,
}

impl RefCountGc {
    /// The tracked nodes, in the order of allocation.
    pub closed spec fn nodes(&self) -> Seq<NodeRecord> {
        Seq::new(
            self.nodes@.len(),
            |i: int|
                NodeRecord {
                    count: self.nodes@[i].node.strong_count,
                    payload: self.nodes@[i].payload,
                },
        )
    }

    /// Counts one allocation.
    pub fn track_allocation(&mut self)
        requires
            old(self).spec_stats().total_allocated < usize::MAX,
            old(self).spec_stats().current_heap_size < usize::MAX,
        ensures
            final(self).spec_stats() == old(self).spec_stats().allocated_one(),
            final(self).nodes() == old(self).nodes(),
    {
        self.stats.total_allocated = self.stats.total_allocated + 1;
        self.stats.current_heap_size = self.stats.current_heap_size + 1;
    }

    /// The claim count of every node's payload at this instant, in the order
    /// of the nodes. The counts are whatever the handles outside make them.
    pub fn claims(&self) -> (claims: Vec<usize>)
        ensures
            claims@.len() == self.nodes().len(),
    {
        let mut claims: Vec<usize> = Vec::new();
        let mut i: usize = 0;
        while i < self.nodes.len()
            invariant
                i <= self.nodes@.len(),
                claims@.len() == i,
            decreases self.nodes.len() - i,
        {
            claims.push(claim_count(&self.nodes[i].payload));
            i = i + 1;
        }
        claims
    }

    /// Sets every node's counter from the claim counts given: the claimants
    /// of its payload without the collector's own claim.
    pub fn observe_with(&mut self, claims: &Vec<usize>)
        requires
            claims@.len() == old(self).nodes().len(),
        ensures
            final(self).nodes() == observed(old(self).nodes(), claims@),
            final(self).nodes().len() == old(self).nodes().len(),
            final(self).spec_stats() == old(self).spec_stats(),
            old(self).wf() ==> final(self).wf(),
    {
        let mut i: usize = 0;
        while i < self.nodes.len()
            invariant
                i <= self.nodes@.len(),
                claims@.len() == self.nodes@.len(),
                self.nodes@.len() == old(self).nodes@.len(),
                self.stats == old(self).stats,
                forall|j: int|
                    0 <= j < i ==> self.nodes@[j].node.strong_count == handles_of(claims@[j]),
                forall|j: int|
                    0 <= j < self.nodes@.len() ==> self.nodes@[j].payload
                        == old(self).nodes@[j].payload,
            decreases self.nodes.len() - i,
        {
            let claim: usize = claims[i];
            let handles: usize = if claim > 0 {
                claim - 1
            } else {
                0
            };
            self.nodes[i].node.strong_count = handles;
            i = i + 1;
        }
        assert(self.nodes() =~= observed(old(self).nodes(), claims@));
    }

    /// Discards every node whose counter is zero and moves what was discarded
    /// from the live count to the freed count. The other nodes keep their
    /// order and their counters.
    pub fn cleanup_deallocated(&mut self)
        requires
            old(self).wf(),
        ensures
            final(self).wf(),
            final(self).nodes() == retain_alive(old(self).nodes()),
            final(self).nodes().len() <= old(self).nodes().len(),
            final(self).spec_stats() == old(self).spec_stats().swept(
                (old(self).nodes().len() - final(self).nodes().len()) as nat,
            ),
            final(self).spec_stats().consistent(),
            final(self).spec_stats().current_heap_size == final(self).nodes().len(),
            final(self).spec_stats().total_freed == old(self).spec_stats().total_freed
                + old(self).nodes().len() - final(self).nodes().len(),
    {
        let ghost c0 = self.nodes();
        let before_count = self.nodes.len();
        let mut scanned: Vec<Entry> = Vec::new();
        core::mem::swap(&mut self.nodes, &mut scanned);
        let ghost all = scanned@;
        assert(c0.take(0) =~= Seq::<NodeRecord>::empty());
        assert(retain_alive(c0.take(0)) =~= Seq::<NodeRecord>::empty()) by {
            reveal(Seq::filter);
        }
        assert(self.nodes() =~= Seq::<NodeRecord>::empty());
        for entry in it: scanned.into_iter()
            invariant
                it.seq() == all,
                all.len() == c0.len(),
                forall|j: int|
                    0 <= j < c0.len() ==> c0[j] == (NodeRecord {
                        count: (#[trigger] all[j]).node.strong_count,
                        payload: all[j].payload,
                    }),
                self.nodes() =~= retain_alive(c0.take(it.index())),
                self.stats == old(self).stats,
        {
            let ghost k = it.index();
            let ghost before = self.nodes();
            assert(entry.node.strong_count == c0[k].count && entry.payload == c0[k].payload);
            assert(c0.take(k + 1) =~= c0.take(k).push(c0[k]));
            proof {
                lemma_retain_alive_push(c0.take(k), c0[k]);
            }
            if entry.node.is_alive() {
                self.nodes.push(entry);
                assert(self.nodes() =~= before.push(c0[k]));
            }
        }
        assert(c0.take(c0.len() as int) =~= c0);
        proof {
            lemma_retain_alive_len(c0);
        }
        let after_count = self.nodes.len();
        let freed = before_count - after_count;
        if freed > 0 {
            self.stats.total_freed = self.stats.total_freed + freed;
            self.stats.current_heap_size = after_count;
        }
    }

    /// One whole cycle with the claim counts given: set the counters, discard
    /// the dead nodes, count the cycle. A node stays exactly if its payload
    /// has a claimant besides the collector.
    pub fn collect_with(&mut self, claims: &Vec<usize>)
        requires
            old(self).wf(),
            claims@.len() == old(self).nodes().len(),
            old(self).spec_stats().num_collections < usize::MAX,
        ensures
            final(self).wf(),
            final(self).nodes() == count_collect(old(self).nodes(), claims@),
            final(self).nodes().len() <= old(self).nodes().len(),
            final(self).spec_stats() == old(self).spec_stats().collected(
                (old(self).nodes().len() - final(self).nodes().len()) as nat,
            ),
            final(self).spec_stats().consistent(),
            final(self).spec_stats().current_heap_size == final(self).nodes().len(),
            final(self).spec_stats().total_freed == old(self).spec_stats().total_freed
                + old(self).nodes().len() - final(self).nodes().len(),
    {
        self.observe_with(claims);
        self.cleanup_deallocated();
        self.stats.num_collections = self.stats.num_collections + 1;
    }
}

impl Gc for RefCountGc {
    closed spec fn wf(&self) -> bool {
        &&& self.stats.consistent()
        &&& self.stats.current_heap_size == self.nodes@.len()
    }

    closed spec fn spec_stats(&self) -> GcStats {
        self.stats
    }

    open spec fn live(&self) -> nat {
        self.nodes().len()
    }

    open spec fn allocation_collects(&self) -> bool {
        false
    }

    proof fn lemma_counters_agree(&self) {
    }

    /// An empty collector.
    fn new() -> (gc: RefCountGc)
        ensures
            gc.nodes() == Seq::<NodeRecord>::empty(),
    {
        let gc = RefCountGc { stats: GcStats::default(), nodes: Vec::new() };
        assert(gc.nodes() =~= Seq::<NodeRecord>::empty());
        gc
    }

    /// Allocates one value: a new node with counter 1 at the end of the
    /// nodes. No cycle runs.
    fn allocate<T: 'static>(&mut self, value: T) -> (handle: GcHandle<T>)
        ensures
            handle.spec_id() == old(self).spec_stats().total_allocated,
            exists|payload: Payload|
                final(self).nodes() == old(self).nodes().push(#[trigger] NodeRecord::fresh(payload)),
            final(self).spec_stats() == old(self).spec_stats().allocated_one(),
    {
        let data = Rc::new(new_cell(value));
        let payload = erase(&data);
        let id = self.stats.total_allocated;
        let ghost watched = payload;
        self.nodes.push(Entry { node: RefCountNode::new(), payload });
        assert(self.nodes() =~= old(self).nodes().push(NodeRecord::fresh(watched)));
        self.track_allocation();
        GcHandle::from_parts(id, data)
    }

    /// One whole cycle on the claim counts of this instant: whatever they
    /// are, exactly the nodes that a handle still claims stay.
    fn collect(&mut self)
        ensures
            exists|claims: Seq<usize>|
                claims.len() == old(self).nodes().len() && final(self).nodes()
                    == #[trigger] count_collect(old(self).nodes(), claims),
    {
        let claims = self.claims();
        self.collect_with(&claims);
    }

    fn stats(&self) -> (s: GcStats) {
        self.stats
    }
}

} // verus!
