use vstd::prelude::*;
use crate::key::Key;
use crate::value::Value;

verus! {

/// One write of a batch.
pub enum Operation {
    PUT { key: Key, value: Value },
    DELETE { key: Key },
}

/// Bytes that an operation carries: its key and value.
pub open spec fn op_size(op: Operation) -> nat {
    match op {
        Operation::PUT { key, value } => key@.len() + value@.len(),
        Operation::DELETE { key } => key@.len(),
    }
}

pub open spec fn ops_size(ops: Seq<Operation>) -> nat
    decreases ops.len(),
{
    if ops.len() == 0 {
        0
    } else {
        ops_size(ops.drop_last()) + op_size(ops.last())
    }
}

/// Writes gathered to be applied in order.
pub struct WriteBatch {
    ops: Vec<Operation>,
}

impl View for WriteBatch {
    type V = Seq<Operation>;

    closed spec fn view(&self) -> Seq<Operation> {
        self.ops@
    }
}

impl WriteBatch {
    pub fn new() -> (r: WriteBatch)
        ensures
            r@ == Seq::<Operation>::empty(),
    {
        WriteBatch { ops: Vec::new() }
    }

    pub fn put(&mut self, key: Key, value: Value)
        ensures
            final(self)@ == old(self)@.push(Operation::PUT { key, value }),
    {
        self.ops.push(Operation::PUT { key: key, value: value });
    }

    pub fn delete(&mut self, key: Key)
        ensures
            final(self)@ == old(self)@.push(Operation::DELETE { key }),
    {
        self.ops.push(Operation::DELETE { key: key });
    }

    pub fn to_opertions(&self) -> (r: &Vec<Operation>)
        ensures
            r@ == self@,
    {
        &self.ops
    }

    /// Bytes of all keys and values of the batch.
    pub fn size(&self) -> (r: usize)
        requires
            ops_size(self@) <= usize::MAX,
        ensures
            r == ops_size(self@),
    {
        let mut res: usize = 0;
        let mut i: usize = 0;
        while i < self.ops.len()
            invariant
                i <= self@.len(),
                ops_size(self@) <= usize::MAX,
                res == ops_size(self@.subrange(0, i as int)),
            decreases self@.len() - i,
        {
            proof {
                assert(self@.subrange(0, i + 1).drop_last() =~= self@.subrange(0, i as int));
                lemma_ops_size_prefix(self@, i + 1);
            }
            match &self.ops[i] {
                Operation::PUT { key, value } => {
                    res = res + key.len() + value.len();
                },
                Operation::DELETE { key } => {
                    res = res + key.len();
                },
            }
            i = i + 1;
        }
        proof {
            assert(self@.subrange(0, i as int) =~= self@);
        }
        res
    }
}

proof fn lemma_ops_size_prefix(ops: Seq<Operation>, k: int)
    requires
        0 <= k <= ops.len(),
    ensures
        ops_size(ops.subrange(0, k)) <= ops_size(ops),
    decreases ops.len() - k,
{
    if k < ops.len() {
        assert(ops.subrange(0, k + 1).drop_last() =~= ops.subrange(0, k));
        lemma_ops_size_prefix(ops, k + 1);
    } else {
        assert(ops.subrange(0, k) =~= ops);
    }
}

} // verus!
