use vstd::prelude::*;
use crate::movelist::MoveList;
use crate::moves::Move;

verus! {

/// The stages in which moves are handed to a search: the move that the
/// hash table names, then the noisy moves, then the quiet ones.
#[derive(Debug, Clone, Copy, PartialEq, Eq, PartialOrd, Structural)]
pub enum Stage {
    Hasher,
    NoisyGen,
    Noisy,
    QuietGen,
    Quiet,
}

/// What handing out the moves of a position takes: the moves found so far,
/// the place of the next, the move that the hash table names, and whether
/// the quiet moves are skipped.
#[derive(Debug)]
pub struct MovePicker {
    pub list: MoveList,
    pub index: usize,
    pub hasher: Move,
    pub skip: bool,
}

} // verus!
