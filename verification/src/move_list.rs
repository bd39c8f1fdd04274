use vstd::prelude::*;
use arrayvec::ArrayVec;

use crate::core_structs::Move;

verus! {

#[verifier::external_type_specification]
#[verifier::external_body]
#[verifier::reject_recursive_types(T)]
pub struct ExArrayVec<T, const CAP: usize>(ArrayVec<T, CAP>);

/// The moves of one position, at most 256 of them.
pub type MoveList = ArrayVec<Move, 256>;

/// The values of the moves a move list holds, in the order they were pushed.
pub uninterp spec fn move_list_values(list: ArrayVec<Move, 256>) -> Seq<u16>;

/// `ArrayVec::new`: a list with no moves.
#[verifier::external_body]
pub(crate) fn new_move_list() -> (r: MoveList)
    ensures
        move_list_values(r) == Seq::<u16>::empty(),
{
    ArrayVec::new()
}

/// `ArrayVec::len`: how many moves the list holds, never more than its capacity.
#[verifier::external_body]
pub(crate) fn move_list_len(list: &MoveList) -> (r: usize)
    ensures
        r == move_list_values(*list).len(),
        r <= 256,
{
    list.len()
}

/// `ArrayVec::push`: appends a move; the list must have room for it, or the call panics.
#[verifier::external_body]
pub(crate) fn move_list_push(list: &mut MoveList, mv: Move)
    requires
        move_list_values(*old(list)).len() < 256,
    ensures
        move_list_values(*final(list)) == move_list_values(*old(list)).push(mv.value),
{
    list.push(mv)
}

/// Indexing through `ArrayVec`'s slice: the move at position `index`.
#[verifier::external_body]
pub(crate) fn move_list_get(list: &MoveList, index: usize) -> (r: Move)
    requires
        index < move_list_values(*list).len(),
    ensures
        r.value == move_list_values(*list)[index as int],
{
    list[index]
}

/// An empty move list, for callers that fill it with the move generator.
pub fn empty_move_list() -> (r: MoveList)
    ensures
        move_list_values(r) == Seq::<u16>::empty(),
{
    new_move_list()
}

} // verus!
