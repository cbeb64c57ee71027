use vstd::prelude::*;
use crate::moves::Move;

verus! {

/// The deepest line of play that a search follows.
pub const MAX_PLY: usize = 128;

/// Room for a line of play and a few moves beyond it.
pub const MAX_STACK: usize = MAX_PLY + 8;

/// A line of play: the moves that a search expects, best first.
#[derive(Debug, Clone, Copy)]
pub struct Pv {
    pub data: [Move; 136],
    pub size: usize,
}

impl Pv {
    /// Whether the line fits in its room.
    pub open spec fn wf(&self) -> bool {
        self.size <= MAX_STACK
    }

    /// The moves of the line, first to last.
    pub open spec fn line(&self) -> Seq<Move> {
        self.data@.take(self.size as int)
    }

    /// The empty line: no moves, and the null move in every place.
    #[inline(always)]
    pub fn new() -> (r: Pv)
        ensures
            r.wf(),
            r.size == 0,
            r.line() == Seq::<Move>::empty(),
            forall|i: int| 0 <= i < MAX_STACK ==> r.data[i] == Move::none(),
    {
        let r = Pv { data: [Move::null();136], size: 0 };
        assert(r.line() =~= Seq::<Move>::empty());
        r
    }

    /// The first place of the line: its first move, or the null move if the
    /// line was empty from the start.
    #[inline(always)]
    pub fn front(&self) -> (r: Move)
        ensures
            r == self.data[0],
    {
        self.data[0]
    }

    /// The move in place `index`, which the caller guarantees to be below
    /// the room of a line.
    #[inline(always)]
    pub fn index(&self, index: usize) -> (r: Move)
        requires
            index < MAX_STACK,
        ensures
            r == self.data[index as int],
    {
        self.data[index]
    }

    /// Makes the line `mv` followed by the line `other`, which the caller
    /// guarantees to leave room for one more move.
    #[inline(always)]
    pub fn update(&mut self, mv: Move, other: &Pv)
        requires
            other.size < MAX_STACK,
        ensures
            final(self).wf(),
            final(self).size == other.size + 1,
            final(self).line() == seq![mv] + other.line(),
            forall|i: int|
                other.size < i < MAX_STACK ==> final(self).data[i] == old(self).data[i],
    {
        self.data[0] = mv;
        let mut i: usize = 0;
        while i < other.size
            invariant
                i <= other.size < MAX_STACK,
                self.data[0] == mv,
                forall|k: int| 0 <= k < i ==> self.data[k + 1] == other.data[k],
                forall|k: int| i < k < MAX_STACK ==> self.data[k] == old(self).data[k],
            decreases other.size - i,
        {
            self.data[i + 1] = other.data[i];
            i += 1;
        }
        self.size = other.size + 1;
        assert(self.line() =~= seq![mv] + other.line());
    }

    /// Puts the null move in every place. The length of the line stays as
    /// it is.
    #[inline(always)]
    pub fn clear(&mut self)
        ensures
            old(self).wf() ==> final(self).wf(),
            final(self).size == old(self).size,
            forall|i: int| 0 <= i < MAX_STACK ==> final(self).data[i] == Move::none(),
    {
        self.data = [Move::null();136];
    }
}

} // verus!
