use crate::algorithms::ref_count::count_collect;
use crate::algorithms::ref_count::lemma_retain_alive_push;
use crate::algorithms::ref_count::observed;
use crate::algorithms::ref_count::retain_alive;
use crate::algorithms::ref_count::NodeRecord;
use crate::gc_trait::GcStats;
use crate::graph::has_edge;
use crate::graph::has_id;
use crate::graph::is_path;
use crate::graph::is_root;
use crate::graph::lemma_retain_push;
use crate::graph::lemma_root_reachable;
use crate::graph::mark_reachable;
use crate::graph::reachable;
use crate::graph::retain_marked;
use crate::graph::root_ids;
use crate::graph::trace_collect;
use crate::graph::unique_ids;
use crate::object::Record;
use vstd::prelude::*;

verus! {

/// The identities that survive a sweep are those of the marked records.
pub proof fn lemma_sweep_keeps_marked(g: Seq<Record>, id: usize)
    ensures
        has_id(retain_marked(g), id) <==> exists|i: int|
            0 <= i < g.len() && (#[trigger] g[i]).id == id && g[i].marked,
    decreases g.len(),
{
    if g.len() == 0 {
        assert(retain_marked(g) =~= Seq::<Record>::empty()) by {
            reveal(Seq::filter);
        }
    } else {
        let front = g.drop_last();
        let r = g.last();
        assert(g =~= front.push(r));
        lemma_retain_push(front, r);
        lemma_sweep_keeps_marked(front, id);
        let swept = retain_marked(g);
        let swept_front = retain_marked(front);
        if has_id(swept, id) {
            let j = choose|j: int| 0 <= j < swept.len() && #[trigger] swept[j].id == id;
            if r.marked && j == swept.len() - 1 {
                assert(g[g.len() - 1].id == id && g[g.len() - 1].marked);
            } else {
                assert(swept_front[j].id == id);
                assert(has_id(swept_front, id));
                let i = choose|i: int|
                    0 <= i < front.len() && (#[trigger] front[i]).id == id && front[i].marked;
                assert(g[i].id == id && g[i].marked);
            }
        }
        if exists|i: int| 0 <= i < g.len() && (#[trigger] g[i]).id == id && g[i].marked {
            let i = choose|i: int| 0 <= i < g.len() && (#[trigger] g[i]).id == id && g[i].marked;
            if i == g.len() - 1 {
                assert(swept[swept.len() - 1].id == id);
            } else {
                assert(front[i].id == id && front[i].marked);
                assert(has_id(swept_front, id));
                let j = choose|j: int|
                    0 <= j < swept_front.len() && #[trigger] swept_front[j].id == id;
                assert(swept[j].id == id);
            }
        }
    }
}

/// A marked record survives a sweep as it is, but for its mark: it keeps its
/// identity, its edges and its payload.
pub proof fn lemma_sweep_keeps_record(g: Seq<Record>, i: int)
    requires
        0 <= i < g.len(),
        g[i].marked,
    ensures
        retain_marked(g).contains(g[i].with_mark(false)),
    decreases g.len(),
{
    let front = g.drop_last();
    let r = g.last();
    assert(g =~= front.push(r));
    lemma_retain_push(front, r);
    let swept = retain_marked(g);
    if i == g.len() - 1 {
        assert(swept[swept.len() - 1] == g[i].with_mark(false));
    } else {
        lemma_sweep_keeps_record(front, i);
        let kept = g[i].with_mark(false);
        let j = choose|j: int| 0 <= j < retain_marked(front).len() && retain_marked(front)[j] == kept;
        assert(swept[j] == kept);
    }
}

/// Every record that a sweep leaves was a marked record before, and is that
/// record but for its mark.
pub proof fn lemma_swept_was_marked(g: Seq<Record>, j: int)
    requires
        0 <= j < retain_marked(g).len(),
    ensures
        exists|i: int|
            0 <= i < g.len() && (#[trigger] g[i]).marked && retain_marked(g)[j] == g[i].with_mark(
                false,
            ),
    decreases g.len(),
{
    if g.len() == 0 {
        assert(retain_marked(g) =~= Seq::<Record>::empty()) by {
            reveal(Seq::filter);
        }
    } else {
        let front = g.drop_last();
        let r = g.last();
        assert(g =~= front.push(r));
        lemma_retain_push(front, r);
        if r.marked && j == retain_marked(g).len() - 1 {
            assert(g[g.len() - 1].marked);
        } else {
            lemma_swept_was_marked(front, j);
            let i = choose|i: int|
                0 <= i < front.len() && (#[trigger] front[i]).marked && retain_marked(front)[j]
                    == front[i].with_mark(false);
            assert(g[i].marked && g[i] == front[i]);
        }
    }
}

/// Every record that a cycle of the tracing collector leaves was reachable
/// before the cycle, and is that record but for its mark: a cycle makes no
/// record, changes no identity, edge or payload, and leaves no mark.
pub proof fn lemma_survivor_was_reachable(g: Seq<Record>, claims: Seq<usize>, j: int)
    requires
        0 <= j < trace_collect(g, claims).len(),
    ensures
        exists|i: int|
            0 <= i < g.len() && #[trigger] reachable(g, claims, i) && trace_collect(g, claims)[j]
                == g[i].with_mark(false),
{
    let marked = mark_reachable(g, claims);
    lemma_swept_was_marked(marked, j);
    let i = choose|i: int|
        0 <= i < marked.len() && (#[trigger] marked[i]).marked && retain_marked(marked)[j]
            == marked[i].with_mark(false);
    assert(reachable(g, claims, i));
    assert(marked[i].with_mark(false) == g[i].with_mark(false));
}

/// The root identities are those of the records with more than one claimant.
pub proof fn lemma_root_ids_are_claimed(g: Seq<Record>, claims: Seq<usize>, id: usize)
    ensures
        root_ids(g, claims).contains(id) <==> exists|i: int|
            0 <= i < g.len() && (#[trigger] g[i]).id == id && is_root(claims, i),
    decreases g.len(),
{
    if g.len() > 0 {
        let front = g.drop_last();
        let last = g.len() - 1;
        lemma_root_ids_are_claimed(front, claims, id);
        let roots = root_ids(g, claims);
        let front_roots = root_ids(front, claims);
        if roots.contains(id) {
            let j = choose|j: int| 0 <= j < roots.len() && roots[j] == id;
            if is_root(claims, last) && j == roots.len() - 1 {
                assert(g[last].id == id);
            } else {
                assert(front_roots[j] == id);
                let i = choose|i: int|
                    0 <= i < front.len() && (#[trigger] front[i]).id == id && is_root(claims, i);
                assert(g[i].id == id);
            }
        }
        if exists|i: int| 0 <= i < g.len() && (#[trigger] g[i]).id == id && is_root(claims, i) {
            let i = choose|i: int|
                0 <= i < g.len() && (#[trigger] g[i]).id == id && is_root(claims, i);
            if i == last {
                assert(roots[roots.len() - 1] == id);
            } else {
                assert(front[i].id == id);
                let j = choose|j: int| 0 <= j < front_roots.len() && front_roots[j] == id;
                assert(roots[j] == id);
            }
        }
    }
}

/// A record that is a root, or that a chain of edges reaches from a root,
/// survives a cycle of the tracing collector, unmarked and otherwise as it
/// was.
pub proof fn lemma_reachable_survives(g: Seq<Record>, claims: Seq<usize>, i: int)
    requires
        0 <= i < g.len(),
        reachable(g, claims, i),
    ensures
        has_id(trace_collect(g, claims), g[i].id),
        trace_collect(g, claims).contains(g[i].with_mark(false)),
{
    let marked = mark_reachable(g, claims);
    lemma_sweep_keeps_marked(marked, g[i].id);
    assert(marked[i].id == g[i].id && marked[i].marked);
    lemma_sweep_keeps_record(marked, i);
    assert(marked[i].with_mark(false) == g[i].with_mark(false));
}

/// A record that no chain of edges reaches from any root is freed by a cycle
/// of the tracing collector.
pub proof fn lemma_unreachable_freed(g: Seq<Record>, claims: Seq<usize>, i: int)
    requires
        unique_ids(g),
        0 <= i < g.len(),
        !reachable(g, claims, i),
    ensures
        !has_id(trace_collect(g, claims), g[i].id),
{
    let marked = mark_reachable(g, claims);
    lemma_sweep_keeps_marked(marked, g[i].id);
    if has_id(trace_collect(g, claims), g[i].id) {
        let j = choose|j: int|
            0 <= j < marked.len() && (#[trigger] marked[j]).id == g[i].id && marked[j].marked;
        assert(g[j].id == g[i].id);
    }
}

/// No path ends in either of two records that are no roots and that only
/// each other's edges name.
pub proof fn lemma_no_path_into_cycle(
    g: Seq<Record>,
    claims: Seq<usize>,
    a: int,
    b: int,
    p: Seq<int>,
)
    requires
        !is_root(claims, a),
        !is_root(claims, b),
        forall|j: int| has_edge(g, j, a) ==> j == b,
        forall|j: int| has_edge(g, j, b) ==> j == a,
        is_path(g, claims, p),
    ensures
        p.last() != a,
        p.last() != b,
    decreases p.len(),
{
    if p.len() > 1 {
        let q = p.drop_last();
        assert forall|k: int| #![trigger q[k]] 0 <= k < q.len() - 1 implies has_edge(
            g,
            q[k],
            q[k + 1],
        ) by {
            assert(q[k] == p[k]);
            assert(q[k + 1] == p[k + 1]);
        }
        assert(q[0] == p[0]);
        lemma_no_path_into_cycle(g, claims, a, b, q);
        let k = p.len() - 2;
        assert(q.last() == p[k]);
        assert(has_edge(g, p[k], p[k + 1]));
    }
}

/// Two records that name each other, that are no roots and that no other
/// record names are both freed by a cycle of the tracing collector.
pub proof fn lemma_unrooted_cycle_freed(g: Seq<Record>, claims: Seq<usize>, a: int, b: int)
    requires
        unique_ids(g),
        0 <= a < g.len(),
        0 <= b < g.len(),
        !is_root(claims, a),
        !is_root(claims, b),
        has_edge(g, a, b),
        has_edge(g, b, a),
        forall|j: int| has_edge(g, j, a) ==> j == b,
        forall|j: int| has_edge(g, j, b) ==> j == a,
    ensures
        !has_id(trace_collect(g, claims), g[a].id),
        !has_id(trace_collect(g, claims), g[b].id),
{
    assert forall|p: Seq<int>| is_path(g, claims, p) implies p.last() != a && p.last() != b by {
        lemma_no_path_into_cycle(g, claims, a, b, p);
    }
    lemma_unreachable_freed(g, claims, a);
    lemma_unreachable_freed(g, claims, b);
}

/// A cycle of the tracing collector frees nothing where every record is a
/// root.
pub proof fn lemma_all_roots_stay(g: Seq<Record>, claims: Seq<usize>)
    requires
        claims.len() == g.len(),
        forall|i: int| 0 <= i < g.len() ==> is_root(claims, i),
    ensures
        trace_collect(g, claims).len() == g.len(),
{
    let marked = mark_reachable(g, claims);
    assert forall|i: int| 0 <= i < marked.len() implies (#[trigger] marked[i]).marked by {
        lemma_root_reachable(g, claims, i);
    }
    lemma_all_marked_stay(marked);
}

/// A sweep destroys nothing where every record is marked.
pub proof fn lemma_all_marked_stay(g: Seq<Record>)
    requires
        forall|i: int| 0 <= i < g.len() ==> (#[trigger] g[i]).marked,
    ensures
        retain_marked(g).len() == g.len(),
    decreases g.len(),
{
    if g.len() == 0 {
        assert(retain_marked(g) =~= Seq::<Record>::empty()) by {
            reveal(Seq::filter);
        }
    } else {
        let front = g.drop_last();
        assert(g =~= front.push(g.last()));
        lemma_retain_push(front, g.last());
        assert forall|i: int| 0 <= i < front.len() implies (#[trigger] front[i]).marked by {
            assert(g[i].marked);
        }
        lemma_all_marked_stay(front);
    }
}

/// The reference-count collector frees no node whose payload has a claimant
/// besides the collector: where every node has one, a cycle keeps every node.
/// Values that hold handles to each other are such nodes, whether or not any
/// handle is left outside.
pub proof fn lemma_claimed_nodes_stay(nodes: Seq<NodeRecord>, claims: Seq<usize>)
    requires
        claims.len() == nodes.len(),
        forall|i: int| 0 <= i < claims.len() ==> (#[trigger] claims[i]) > 1,
    ensures
        count_collect(nodes, claims) == observed(nodes, claims),
    decreases nodes.len(),
{
    if nodes.len() == 0 {
        assert(retain_alive(observed(nodes, claims)) =~= observed(nodes, claims)) by {
            reveal(Seq::filter);
        }
    } else {
        let front = nodes.drop_last();
        let front_claims = claims.drop_last();
        assert forall|i: int| 0 <= i < front_claims.len() implies (#[trigger] front_claims[i])
            > 1 by {
            assert(claims[i] > 1);
        }
        lemma_claimed_nodes_stay(front, front_claims);
        let last = observed(nodes, claims).last();
        assert(claims[claims.len() - 1] > 1);
        assert(observed(nodes, claims) =~= observed(front, front_claims).push(last));
        lemma_retain_alive_push(observed(front, front_claims), last);
    }
}

/// A cycle on an empty collector tracks nothing afterwards and changes one
/// counter: the number of cycles, from 0 to 1.
pub proof fn lemma_collect_on_empty(claims: Seq<usize>)
    requires
        claims.len() == 0,
    ensures
        trace_collect(Seq::<Record>::empty(), claims) == Seq::<Record>::empty(),
        count_collect(Seq::<NodeRecord>::empty(), claims) == Seq::<NodeRecord>::empty(),
        GcStats::zero().collected(0) == (GcStats {
            total_allocated: 0,
            total_freed: 0,
            current_heap_size: 0,
            num_collections: 1,
        }),
{
    reveal(Seq::filter);
    assert(mark_reachable(Seq::<Record>::empty(), claims) =~= Seq::<Record>::empty());
    assert(trace_collect(Seq::<Record>::empty(), claims) =~= Seq::<Record>::empty());
    assert(observed(Seq::<NodeRecord>::empty(), claims) =~= Seq::<NodeRecord>::empty());
    assert(count_collect(Seq::<NodeRecord>::empty(), claims) =~= Seq::<NodeRecord>::empty());
}

/// Counting `n` allocations one by one from the counters `s`.
pub open spec fn allocated_many(s: GcStats, n: nat) -> GcStats
    decreases n,
{
    if n == 0 {
        s
    } else {
        allocated_many(s, (n - 1) as nat).allocated_one()
    }
}

/// After `n` allocations on a new collector `total_allocated` is `n`.
pub proof fn lemma_allocated_counts(n: nat)
    requires
        n <= usize::MAX,
    ensures
        allocated_many(GcStats::zero(), n).total_allocated == n,
        allocated_many(GcStats::zero(), n).current_heap_size == n,
        allocated_many(GcStats::zero(), n).total_freed == 0,
    decreases n,
{
    if n > 0 {
        lemma_allocated_counts((n - 1) as nat);
    }
}

/// A cycle keeps the counters consistent: afterwards the live count is what
/// was allocated less what was freed.
pub proof fn lemma_collected_consistent(s: GcStats, freed: nat)
    requires
        s.consistent(),
        freed <= s.current_heap_size,
    ensures
        s.collected(freed).consistent(),
        s.collected(freed).current_heap_size == s.collected(freed).total_allocated - s.collected(
            freed,
        ).total_freed,
        s.collected(freed).total_allocated == s.total_allocated,
{
}

} // verus!
