use crate::gc_trait::Payload;
use vstd::prelude::*;

verus! {

/// An object record as the contracts speak of it: its identity, its mark,
/// the identities its edges name, and the payload it holds.
pub struct Record {
    pub id: usize,
    pub marked: bool,
    pub edges: Seq<usize>,
    pub payload: Payload,
}

impl Record {
    /// The record of a new allocation: unmarked, without edges.
    pub open spec fn fresh(id: usize, payload: Payload) -> Record {
        Record { id, marked: false, edges: Seq::empty(), payload }
    }

    /// The same record with its mark set to `marked`.
    pub open spec fn with_mark(self, marked: bool) -> Record {
        Record { marked, ..self }
    }

    /// The same record with one more edge at the end of its edge list.
    pub open spec fn with_edge(self, target: usize) -> Record {
        Record { edges: self.edges.push(target), ..self }
    }
}

/// The unit the heap tracks: an identity, a mark flag, a payload of forgotten
/// type and the outgoing edges. An edge holds the identity of its target and
/// never keeps the target alive.
pub struct GcObject {
    pub id: usize,
    pub marked: bool,
    pub data: Payload,
    pub references: Vec<usize>,
}

impl View for GcObject {
    type V = Record;

    open spec fn view(&self) -> Record {
        Record { id: self.id, marked: self.marked, edges: self.references@, payload: self.data }
    }
}

impl GcObject {
    /// A new record: unmarked, without edges.
    pub fn new(id: usize, data: Payload) -> (obj: GcObject)
        ensures
            obj@ == Record::fresh(id, data),
    {
        GcObject { id, marked: false, data, references: Vec::new() }
    }

    /// Sets the mark.
    pub fn mark(&mut self)
        ensures
            final(self)@ == old(self)@.with_mark(true),
    {
        self.marked = true;
    }

    /// Clears the mark.
    pub fn unmark(&mut self)
        ensures
            final(self)@ == old(self)@.with_mark(false),
    {
        self.marked = false;
    }

    /// Whether the mark is set.
    pub fn is_marked(&self) -> (marked: bool)
        ensures
            marked == self@.marked,
    {
        self.marked
    }

    /// Appends an edge to the record with identity `target`.
    pub fn add_reference(&mut self, target: usize)
        ensures
            final(self)@ == old(self)@.with_edge(target),
    {
        self.references.push(target);
    }
}

} // verus!
