//! Atomic groups of writes.
use vstd::prelude::*;

verus! {

/// One operation of a write batch.
#[derive(Debug, Clone)]
pub enum BatchOp {
    Put(Vec<u8>, Vec<u8>),
    Delete(Vec<u8>),
}

/// Abstract form of a batch operation: `Some(value)` for a put, `None` for a delete.
pub open spec fn op_view(op: BatchOp) -> (Seq<u8>, Option<Seq<u8>>) {
    match op {
        BatchOp::Put(k, v) => (k@, Some(v@)),
        BatchOp::Delete(k) => (k@, None),
    }
}

/// An ordered list of puts and deletes applied together.
#[derive(Debug, Clone)]
pub struct WriteBatch {
    pub ops: Vec<BatchOp>,
}

impl WriteBatch {
    pub open spec fn spec_ops(self) -> Seq<(Seq<u8>, Option<Seq<u8>>)> {
        self.ops@.map_values(|op: BatchOp| op_view(op))
    }

    pub fn new() -> (b: WriteBatch)
        ensures
            b.ops@.len() == 0,
    {
        WriteBatch { ops: Vec::new() }
    }

    pub fn put(&mut self, key: Vec<u8>, value: Vec<u8>)
        ensures
            final(self).spec_ops() == old(self).spec_ops().push((key@, Some(value@))),
    {
        self.ops.push(BatchOp::Put(key, value));
        assert(self.spec_ops() =~= old(self).spec_ops().push((key@, Some(value@))));
    }

    pub fn delete(&mut self, key: Vec<u8>)
        ensures
            final(self).spec_ops() == old(self).spec_ops().push((key@, None)),
    {
        self.ops.push(BatchOp::Delete(key));
        assert(self.spec_ops() =~= old(self).spec_ops().push((key@, None)));
    }

    pub fn len(&self) -> (r: usize)
        ensures
            r == self.ops@.len(),
    {
        self.ops.len()
    }

    pub fn is_empty(&self) -> (r: bool)
        ensures
            r == (self.ops@.len() == 0),
    {
        self.ops.len() == 0
    }

    pub fn clear(&mut self)
        ensures
            final(self).ops@.len() == 0,
    {
        self.ops.clear();
    }
}

} // verus!
