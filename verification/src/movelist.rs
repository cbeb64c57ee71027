use vstd::prelude::*;
use arrayvec::ArrayVec;
use crate::moves::Move;

verus! {

/// The most moves that a list holds.
pub const MAX_MOVES: usize = 256;

/// A move with a score to order it by.
#[derive(Debug, Clone, Copy, PartialEq, Eq, Structural)]
pub struct MoveEntry {
    pub score: i32,
    pub mv: Move,
}

/// `arrayvec::ArrayVec`, a vector of bounded length that keeps its items
/// inline. Nothing of its inside is known here.
#[verifier::external_type_specification]
#[verifier::external_body]
#[verifier::reject_recursive_types(T)]
pub struct ExArrayVec<T, const CAP: usize>(ArrayVec<T, CAP>);

/// The items of a vector of entries, first to last.
pub uninterp spec fn entries(data: ArrayVec<MoveEntry, 256>) -> Seq<MoveEntry>;

/// `ArrayVec::new`: a vector without items. It panics only for a capacity
/// beyond `u32::MAX`, which 256 is not.
#[verifier::external_body]
fn data_new() -> (data: ArrayVec<MoveEntry, 256>)
    ensures
        entries(data) == Seq::<MoveEntry>::empty(),
{
    ArrayVec::new()
}

/// `ArrayVec::len`: the number of items, which never exceeds the capacity.
#[verifier::external_body]
fn data_len(data: &ArrayVec<MoveEntry, 256>) -> (len: usize)
    ensures
        len == entries(*data).len(),
        len <= 256,
{
    data.len()
}

/// `ArrayVec::push`: appends an item. It panics if the vector is full, so a
/// caller must know that it is not.
#[verifier::external_body]
fn data_push(data: &mut ArrayVec<MoveEntry, 256>, entry: MoveEntry)
    requires
        entries(*old(data)).len() < 256,
    ensures
        entries(*final(data)) == entries(*old(data)).push(entry),
{
    data.push(entry)
}

/// `ArrayVec::pop`: takes the last item off and returns it; `None`, and no
/// change, if there is no item.
#[verifier::external_body]
fn data_pop(data: &mut ArrayVec<MoveEntry, 256>) -> (entry: Option<MoveEntry>)
    ensures
        entries(*old(data)).len() == 0 ==> entry.is_none() && entries(*final(data)) == entries(
            *old(data),
        ),
        entries(*old(data)).len() > 0 ==> entry == Some(entries(*old(data)).last()) && entries(
            *final(data),
        ) == entries(*old(data)).drop_last(),
{
    data.pop()
}

/// `ArrayVec::clear`: removes every item.
#[verifier::external_body]
fn data_clear(data: &mut ArrayVec<MoveEntry, 256>)
    ensures
        entries(*final(data)) == Seq::<MoveEntry>::empty(),
{
    data.clear()
}

/// `ArrayVec::as_slice`: the items as a slice, first to last.
#[verifier::external_body]
fn data_slice(data: &ArrayVec<MoveEntry, 256>) -> (items: &[MoveEntry])
    ensures
        items@ == entries(*data),
{
    data.as_slice()
}

/// `ArrayVec::as_mut_slice`: the items as a slice through which they can be
/// changed, first to last. What the slice holds when the borrow ends is what
/// the vector holds from then on; the number of items stays, as that of
/// any slice does.
#[verifier::external_body]
fn data_slice_mut(data: &mut ArrayVec<MoveEntry, 256>) -> (items: &mut [MoveEntry])
    ensures
        items@ == entries(*old(data)),
        final(items)@ == entries(*final(data)),
{
    data.as_mut_slice()
}

/// `ArrayVec::clone`: a vector of the clones of the items, first to last.
/// An entry is a `Copy` value, so its clone is the entry.
#[verifier::external_body]
fn data_clone(data: &ArrayVec<MoveEntry, 256>) -> (copy: ArrayVec<MoveEntry, 256>)
    ensures
        entries(copy) == entries(*data),
{
    data.clone()
}

/// A list of up to 256 moves, kept inline.
#[derive(Debug)]
pub struct MoveList {
    data: ArrayVec<MoveEntry, 256>,
}

impl Clone for MoveList {
    /// A list with the same entries.
    fn clone(&self) -> (r: MoveList)
        ensures
            r@ == self@,
    {
        MoveList { data: data_clone(&self.data) }
    }
}

impl std::ops::Deref for MoveList {
    type Target = [MoveEntry];

    /// The entries as a slice.
    fn deref(&self) -> (items: &[MoveEntry])
        ensures
            items@ == self@,
    {
        data_slice(&self.data)
    }
}

impl std::ops::DerefMut for MoveList {
    /// The entries as a slice through which they can be changed: what the
    /// slice holds when the borrow ends is what the list holds from then on.
    fn deref_mut(&mut self) -> (items: &mut [MoveEntry])
        ensures
            items@ == old(self)@,
            final(items)@ == final(self)@,
    {
        data_slice_mut(&mut self.data)
    }
}

impl View for MoveList {
    type V = Seq<MoveEntry>;

    closed spec fn view(&self) -> Seq<MoveEntry> {
        entries(self.data)
    }
}

impl MoveList {
    /// The moves of the list, first to last.
    pub open spec fn moves(&self) -> Seq<Move> {
        self@.map_values(|entry: MoveEntry| entry.mv)
    }

    /// The empty list.
    pub fn new() -> (r: MoveList)
        ensures
            r@ == Seq::<MoveEntry>::empty(),
    {
        MoveList { data: data_new() }
    }

    /// The number of moves in the list.
    pub fn len(&self) -> (r: usize)
        ensures
            r == self@.len(),
            r <= MAX_MOVES,
    {
        data_len(&self.data)
    }

    /// Whether the list has no room for another move.
    pub fn is_full(&self) -> (r: bool)
        ensures
            r == (self@.len() >= MAX_MOVES),
            self@.len() <= MAX_MOVES,
    {
        data_len(&self.data) >= MAX_MOVES
    }

    /// Appends a move, with a score of zero. The caller guarantees that the
    /// list is not full.
    pub fn push(&mut self, mv: Move)
        requires
            old(self)@.len() < MAX_MOVES,
        ensures
            final(self)@ == old(self)@.push(MoveEntry { score: 0, mv }),
    {
        data_push(&mut self.data, MoveEntry { score: 0, mv });
    }

    /// Takes the last entry off the list and returns it; `None`, and no
    /// change, if the list is empty.
    pub fn pop(&mut self) -> (r: Option<MoveEntry>)
        ensures
            old(self)@.len() == 0 ==> r.is_none() && final(self)@ == old(self)@,
            old(self)@.len() > 0 ==> r == Some(old(self)@.last()) && final(self)@ == old(
                self,
            )@.drop_last(),
    {
        data_pop(&mut self.data)
    }

    /// The entry at `index`, which the caller guarantees to be below the
    /// length of the list.
    pub fn get(&self, index: usize) -> (r: MoveEntry)
        requires
            index < self@.len(),
        ensures
            r == self@[index as int],
            r.mv == self.moves()[index as int],
    {
        let items = data_slice(&self.data);
        items[index]
    }

    /// The moves of the list, first to last.
    pub fn iter_moves(&self) -> (r: Vec<Move>)
        ensures
            r@ == self.moves(),
    {
        let mut moves: Vec<Move> = Vec::new();
        let n = self.len();
        let mut i: usize = 0;
        while i < n
            invariant
                i <= n,
                n == self@.len(),
                moves@ == self.moves().take(i as int),
            decreases n - i,
        {
            moves.push(self.get(i).mv);
            assert(moves@ =~= self.moves().take(i + 1));
            i += 1;
        }
        assert(self.moves().take(n as int) =~= self.moves());
        moves
    }

    /// Empties the list.
    pub fn clear(&mut self)
        ensures
            final(self)@ == Seq::<MoveEntry>::empty(),
    {
        data_clear(&mut self.data);
    }
}

} // verus!
