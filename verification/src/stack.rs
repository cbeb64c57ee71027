use vstd::prelude::*;
use crate::moves::Move;
use crate::pv::{Pv, MAX_STACK};

verus! {

/// What a search keeps for one move of the line that it follows.
#[derive(Debug, Clone, Copy)]
pub struct StackEntry {
    pub pv: Pv,
    pub mv: Move,
    pub eval: Option<i32>,
}

/// What a search keeps for each move of the line that it follows.
#[derive(Debug, Clone)]
pub struct Stack {
    pub data: [StackEntry; 136],
}

impl Stack {
    /// The stack before a search: in every place an empty line, the null
    /// move and no evaluation.
    pub fn new() -> (r: Stack)
        ensures
            forall|i: int|
                0 <= i < MAX_STACK ==> {
                    &&& (#[trigger] r.data[i]).mv == Move::none()
                    &&& r.data[i].eval.is_none()
                    &&& r.data[i].pv.size == 0
                    &&& forall|k: int| 0 <= k < MAX_STACK ==> r.data[i].pv.data[k] == Move::none()
                },
    {
        Stack { data: [StackEntry { pv: Pv::new(), mv: Move::null(), eval: None };136] }
    }

    /// The entry in place `index`, which the caller guarantees to be below
    /// the room of the stack.
    pub fn index(&self, index: usize) -> (r: &StackEntry)
        requires
            index < MAX_STACK,
        ensures
            *r == self.data[index as int],
    {
        &self.data[index]
    }
}

} // verus!
