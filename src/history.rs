//! The undo log: a fixed-capacity ring buffer of executed moves, kept in
//! `circular_buffer::CircularBuffer`; when full, the oldest move is dropped.

use circular_buffer::CircularBuffer;
use vstd::prelude::*;

verus! {

/// Number of moves the undo log remembers.
pub const UNDO_LEVELS: usize = 1000;

/// A move of the top card of field stack `from` onto field stack `to`.
#[derive(Clone, Copy, Debug, PartialEq, Eq, Structural)]
pub struct Move {
    pub from: u8,
    pub to: u8,
}

#[verifier::external_type_specification]
#[verifier::external_body]
#[verifier::reject_recursive_types(T)]
pub struct ExCircularBuffer<const N: usize, T>(CircularBuffer<N, T>);

/// The moves held in an undo log, oldest first.
pub uninterp spec fn logged_moves(b: CircularBuffer<UNDO_LEVELS, Move>) -> Seq<Move>;

/// The log after `m` is appended to `log`: when the log is full, its oldest
/// move is dropped first.
pub open spec fn log_push(log: Seq<Move>, m: Move) -> Seq<Move> {
    if log.len() >= UNDO_LEVELS {
        log.drop_first().push(m)
    } else {
        log.push(m)
    }
}

/// Relies on `CircularBuffer::new`: a buffer with no items.
#[verifier::external_body]
pub(crate) fn new_log() -> (b: CircularBuffer<UNDO_LEVELS, Move>)
    ensures
        logged_moves(b) == Seq::<Move>::empty(),
{
    CircularBuffer::new()
}

/// Relies on `CircularBuffer::push_back`: the item goes to the back; when
/// the buffer holds `N` items, the front item is dropped first.
#[verifier::external_body]
pub(crate) fn log_move(b: &mut CircularBuffer<UNDO_LEVELS, Move>, m: Move)
    ensures
        logged_moves(*final(b)) == log_push(logged_moves(*old(b)), m),
{
    b.push_back(m);
}

/// Relies on `CircularBuffer::pop_back`: removes and returns the back item,
/// or returns `None` and leaves the buffer as it is when it is empty.
#[verifier::external_body]
pub(crate) fn take_last_move(b: &mut CircularBuffer<UNDO_LEVELS, Move>) -> (r: Option<Move>)
    ensures
        logged_moves(*old(b)).len() == 0 ==> r is None && logged_moves(*final(b)) == logged_moves(
            *old(b),
        ),
        logged_moves(*old(b)).len() > 0 ==> r == Some(logged_moves(*old(b)).last())
            && logged_moves(*final(b)) == logged_moves(*old(b)).drop_last(),
{
    b.pop_back()
}

} // verus!
