use crate::object::Record;
use vstd::prelude::*;

verus! {

/// Record `i` has an edge that names record `j`.
pub open spec fn has_edge(g: Seq<Record>, i: int, j: int) -> bool {
    &&& 0 <= i < g.len()
    &&& 0 <= j < g.len()
    &&& g[i].edges.contains(g[j].id)
}

/// Record `i` is a root: more than one claimant holds its payload, so
/// somebody besides the collector does.
pub open spec fn is_root(claims: Seq<usize>, i: int) -> bool {
    0 <= i < claims.len() && claims[i] > 1
}

/// `p` lists positions that start at a root and follow one edge at each step.
pub open spec fn is_path(g: Seq<Record>, claims: Seq<usize>, p: Seq<int>) -> bool {
    &&& p.len() > 0
    &&& 0 <= p[0] < g.len()
    &&& is_root(claims, p[0])
    &&& forall|k: int| #![trigger p[k]] 0 <= k < p.len() - 1 ==> has_edge(g, p[k], p[k + 1])
}

/// Record `i` is a root or a chain of edges leads to it from a root.
pub open spec fn reachable(g: Seq<Record>, claims: Seq<usize>, i: int) -> bool {
    exists|p: Seq<int>| #[trigger] is_path(g, claims, p) && p.last() == i
}

/// No two records share an identity.
pub open spec fn unique_ids(g: Seq<Record>) -> bool {
    forall|i: int, j: int| 0 <= i < g.len() && 0 <= j < g.len() && i != j ==> g[i].id != g[j].id
}

/// Two arenas hold the same records but for their marks.
pub open spec fn same_shape(a: Seq<Record>, b: Seq<Record>) -> bool {
    &&& a.len() == b.len()
    &&& forall|i: int|
        0 <= i < a.len() ==> a[i].id == b[i].id && a[i].edges == b[i].edges && a[i].payload
            == b[i].payload
}

/// The arena after the mark phase: a record is marked exactly if it is
/// reachable.
pub open spec fn mark_reachable(g: Seq<Record>, claims: Seq<usize>) -> Seq<Record> {
    Seq::new(g.len(), |i: int| g[i].with_mark(reachable(g, claims, i)))
}

/// The arena after a sweep: the marked records, in their order, each with its
/// mark cleared.
pub open spec fn retain_marked(g: Seq<Record>) -> Seq<Record> {
    g.filter(|r: Record| r.marked).map_values(|r: Record| r.with_mark(false))
}

/// The arena after an allocation under the threshold given: the new record
/// stands at the end, and where the records then reach the threshold, a whole
/// cycle has run.
pub open spec fn allocate_into(
    g: Seq<Record>,
    threshold: usize,
    record: Record,
    claims: Seq<usize>,
) -> Seq<Record> {
    if g.len() + 1 < threshold {
        g.push(record)
    } else {
        trace_collect(g.push(record), claims)
    }
}

/// The arena after a whole cycle of the tracing collector.
pub open spec fn trace_collect(g: Seq<Record>, claims: Seq<usize>) -> Seq<Record> {
    retain_marked(mark_reachable(g, claims))
}

/// The identities of the roots, in arena order.
pub open spec fn root_ids(g: Seq<Record>, claims: Seq<usize>) -> Seq<usize>
    decreases g.len(),
{
    if g.len() == 0 {
        Seq::empty()
    } else if is_root(claims, g.len() - 1) {
        root_ids(g.drop_last(), claims).push(g.last().id)
    } else {
        root_ids(g.drop_last(), claims)
    }
}

/// The number of unmarked records.
pub open spec fn count_unmarked(g: Seq<Record>) -> nat
    decreases g.len(),
{
    if g.len() == 0 {
        0
    } else if g.last().marked {
        count_unmarked(g.drop_last())
    } else {
        count_unmarked(g.drop_last()) + 1
    }
}

/// An identity occurs among the records of an arena.
pub open spec fn has_id(g: Seq<Record>, id: usize) -> bool {
    exists|i: int| 0 <= i < g.len() && #[trigger] g[i].id == id
}

/// A root is reachable.
pub proof fn lemma_root_reachable(g: Seq<Record>, claims: Seq<usize>, i: int)
    requires
        0 <= i < g.len(),
        is_root(claims, i),
    ensures
        reachable(g, claims, i),
{
    let p = seq![i];
    assert(is_path(g, claims, p));
}

/// What an edge from a reachable record names is reachable.
pub proof fn lemma_edge_reachable(g: Seq<Record>, claims: Seq<usize>, i: int, j: int)
    requires
        reachable(g, claims, i),
        has_edge(g, i, j),
    ensures
        reachable(g, claims, j),
{
    let p = choose|p: Seq<int>| #[trigger] is_path(g, claims, p) && p.last() == i;
    let q = p.push(j);
    assert forall|k: int| #![trigger q[k]] 0 <= k < q.len() - 1 implies has_edge(
        g,
        q[k],
        q[k + 1],
    ) by {
        if k < p.len() - 1 {
            assert(q[k] == p[k]);
            assert(q[k + 1] == p[k + 1]);
        }
    }
    assert(is_path(g, claims, q));
    assert(q.last() == j);
}

/// A set of marks that holds every root and follows every edge holds the end
/// of every path.
pub proof fn lemma_closed_holds_path(
    g: Seq<Record>,
    claims: Seq<usize>,
    marks: Seq<Record>,
    p: Seq<int>,
)
    requires
        marks.len() == g.len(),
        forall|i: int| 0 <= i < g.len() && is_root(claims, i) ==> marks[i].marked,
        forall|i: int, j: int| 0 <= i < g.len() && marks[i].marked && has_edge(g, i, j) ==> marks[j].marked,
        is_path(g, claims, p),
    ensures
        0 <= p.last() < g.len(),
        marks[p.last()].marked,
    decreases p.len(),
{
    if p.len() > 1 {
        let q = p.drop_last();
        assert forall|k: int| #![trigger q[k]] 0 <= k < q.len() - 1 implies has_edge(
            g,
            q[k],
            q[k + 1],
        ) by {
            assert(q[k] == p[k]);
            assert(q[k + 1] == p[k + 1]);
        }
        assert(q[0] == p[0]);
        lemma_closed_holds_path(g, claims, marks, q);
        let k = p.len() - 2;
        assert(q.last() == p[k]);
        assert(has_edge(g, p[k], p[k + 1]));
    }
}

/// Marking one unmarked record leaves one unmarked record fewer.
pub proof fn lemma_mark_one(g: Seq<Record>, t: int)
    requires
        0 <= t < g.len(),
        !g[t].marked,
    ensures
        count_unmarked(g.update(t, g[t].with_mark(true))) + 1 == count_unmarked(g),
    decreases g.len(),
{
    let h = g.update(t, g[t].with_mark(true));
    if t == g.len() - 1 {
        assert(h.drop_last() =~= g.drop_last());
    } else {
        assert(h.drop_last() =~= g.drop_last().update(t, g[t].with_mark(true)));
        lemma_mark_one(g.drop_last(), t);
    }
}

/// A sweep never adds a record.
pub proof fn lemma_retain_len(g: Seq<Record>)
    ensures
        retain_marked(g).len() <= g.len(),
{
    g.lemma_filter_len(|r: Record| r.marked);
}

/// Sweeping an arena with one more record at its end: the record stays, with
/// its mark cleared, exactly if it was marked.
pub proof fn lemma_retain_push(g: Seq<Record>, r: Record)
    ensures
        retain_marked(g.push(r)) == if r.marked {
            retain_marked(g).push(r.with_mark(false))
        } else {
            retain_marked(g)
        },
{
    reveal(Seq::filter);
    assert(g.push(r).drop_last() =~= g);
    if r.marked {
        assert(retain_marked(g.push(r)) =~= retain_marked(g).push(r.with_mark(false)));
    }
}

} // verus!
