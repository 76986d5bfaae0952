use vstd::prelude::*;

verus! {

/// Unique identifier for AST nodes.
#[derive(Debug, Clone, Copy, PartialEq, Eq, Hash)]
pub struct NodeId(pub usize);

impl NodeId {
    pub fn new(id: usize) -> (r: NodeId)
        ensures
            r.0 == id,
    {
        NodeId(id)
    }

    pub fn as_usize(&self) -> (r: usize)
        ensures
            r == self.0,
    {
        self.0
    }
}

/// Hands out node ids in increasing order, starting from 0.
#[derive(Debug)]
pub struct NodeIdGenerator {
    next_id: usize,
}

impl NodeIdGenerator {
    /// The id the next call of `next` gives.
    pub closed spec fn upcoming(&self) -> nat {
        self.next_id as nat
    }

    pub fn new() -> (r: NodeIdGenerator)
        ensures
            r.upcoming() == 0,
    {
        NodeIdGenerator { next_id: 0 }
    }

    /// A new id: each call gives one more than the call before, so no id is
    /// given twice.
    pub fn next(&mut self) -> (r: NodeId)
        requires
            old(self).upcoming() < usize::MAX,
        ensures
            r.0 == old(self).upcoming(),
            final(self).upcoming() == old(self).upcoming() + 1,
    {
        let id = self.next_id;
        self.next_id = id + 1;
        NodeId(id)
    }
}

impl Default for NodeIdGenerator {
    fn default() -> (r: NodeIdGenerator)
        ensures
            r.upcoming() == 0,
    {
        NodeIdGenerator::new()
    }
}

} // verus!
