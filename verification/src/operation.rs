//! The kinds of mutation that a message can carry.

use vstd::prelude::*;

verus! {

/// What a message does to the value of its key.
#[derive(Debug, Copy, Clone, PartialEq, Eq, Structural)]
pub enum Operation {
    Assign,
}

impl Operation {
    /// The code that stands for the operation in an encoded node.
    pub open spec fn code(self) -> u32 {
        match self {
            Operation::Assign => 1,
        }
    }

    /// Some operation has this code.
    pub open spec fn known(val: u32) -> bool {
        val == 1
    }

    /// The code of the operation.
    pub fn serialize(self) -> (r: u32)
        ensures
            r == self.code(),
    {
        match self {
            Operation::Assign => 1,
        }
    }

    /// The operation with the code `val`, which must be a known one.
    pub fn deserialize(val: u32) -> (r: Operation)
        requires
            Operation::known(val),
        ensures
            r.code() == val,
    {
        Operation::Assign
    }

    /// The operation with the code `val`, if there is one.
    pub fn decode(val: u32) -> (r: Option<Operation>)
        ensures
            r is Some <==> Operation::known(val),
            r is Some ==> r->0.code() == val,
    {
        if val == 1 {
            Some(Operation::deserialize(val))
        } else {
            None
        }
    }
}

/// Different operations have different codes.
pub proof fn lemma_code_injective(a: Operation, b: Operation)
    requires
        a.code() == b.code(),
    ensures
        a == b,
{
}

} // verus!
