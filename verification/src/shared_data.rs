//! The handle through which peripherals share one cursor.
//!
//! Every peripheral wired into one fuzz run holds a clone of one
//! [`FuzzData`]. The clones share a single read position, so each call on a
//! peripheral decodes bytes that no other call has seen, in the order in
//! which the driver makes the calls. A call claims the position for as long
//! as it decodes and gives it back before it returns; a claim that cannot be
//! had at once is refused, never waited for.

use crate::cursor::{chunk_of, first_of, Cursor};
use std::sync::{Arc, Mutex, MutexGuard};
use vstd::prelude::*;

verus! {

/// `std::sync::Mutex`, as a type whose inside the proofs never see.
#[verifier::external_type_specification]
#[verifier::external_body]
#[verifier::reject_recursive_types(T)]
pub struct ExMutex<T: ?Sized>(Mutex<T>);

/// `std::sync::MutexGuard`, as a type whose inside the proofs never see.
#[verifier::external_type_specification]
#[verifier::external_body]
#[verifier::reject_recursive_types(T)]
pub struct ExMutexGuard<'a, T: ?Sized + 'a>(MutexGuard<'a, T>);

/// `Mutex::new`: a new lock that guards `position`. Nothing is claimed of
/// the lock.
#[verifier::external_body]
fn new_slot(position: usize) -> Mutex<usize> {
    Mutex::new(position)
}

/// `Mutex::try_lock`: the guard of `slot` if the lock is free and was not
/// poisoned, without waiting. Nothing is claimed of when it is free.
#[verifier::external_body]
fn try_lock_slot<'g>(slot: &'g Mutex<usize>) -> Option<MutexGuard<'g, usize>> {
    slot.try_lock().ok()
}

/// `DerefMut::deref_mut` of a guard: the guarded value. Nothing is claimed of
/// the value found there: another holder of the lock may have written it.
#[verifier::external_body]
fn slot_mut<'g, 'm>(guard: &'g mut MutexGuard<'m, usize>) -> &'g mut usize {
    &mut **guard
}

/// `Arc::clone`: another owner of the same lock.
#[verifier::external_body]
fn share_slot(slot: &Arc<Mutex<usize>>) -> Arc<Mutex<usize>> {
    Arc::clone(slot)
}

/// A handle to the fuzz input of one run and to the read position that all
/// clones of the handle share.
#[derive(Debug)]
pub struct FuzzData<'a> {
    bytes: &'a [u8],
    position: Arc<Mutex<usize>>,
}

/// Exclusive access to the shared read position, for one operation.
///
/// The claim carries a cursor that stands where the last operation stopped.
/// `release` stores how far the cursor has come; a claim that is dropped
/// instead leaves the shared position where it was.
pub struct Claim<'g, 'a> {
    cursor: Cursor<'a>,
    slot: MutexGuard<'g, usize>,
}

impl<'g, 'a> Claim<'g, 'a> {
    /// The cursor that the claim carries.
    pub closed spec fn cursor(self) -> Cursor<'a> {
        self.cursor
    }

    /// The cursor to decode from.
    pub fn cursor_mut(&mut self) -> (cursor: &mut Cursor<'a>)
        ensures
            *cursor == old(self).cursor(),
            final(self).cursor() == *final(cursor),
    {
        &mut self.cursor
    }

    /// Gives the position back: the next claim starts where `cursor` stands.
    pub fn release(self) {
        let Claim { cursor, slot } = self;
        let mut slot = slot;
        let position = slot_mut(&mut slot);
        *position = cursor.consumed();
    }
}

impl<'a> FuzzData<'a> {
    /// The input bytes of the run.
    pub closed spec fn buffer(self) -> Seq<u8> {
        self.bytes@
    }

    /// What is unread when the shared position stands at `position`. Where
    /// it stands when an operation claims it, only the run decides.
    pub open spec fn unread_from(self, position: nat) -> Seq<u8> {
        self.buffer().skip(position as int)
    }

    /// A handle to `data`, with the shared position at its start.
    pub fn new(data: &'a [u8]) -> (handle: Self)
        ensures
            handle.buffer() == data@,
    {
        FuzzData { bytes: data, position: Arc::new(new_slot(0)) }
    }

    /// Claims the shared position without waiting. Returns `None` where
    /// another claim is outstanding or an earlier holder panicked.
    pub fn try_claim(&self) -> (claim: Option<Claim<'_, 'a>>)
        ensures
            claim matches Some(c) ==> {
                &&& c.cursor().buffer() == self.buffer()
                &&& c.cursor().position() <= self.buffer().len()
                &&& c.cursor()@ == self.unread_from(c.cursor().position())
            },
    {
        self.answer(try_lock_slot(&self.position))
    }

    /// What a claim comes to once the lock has answered: nothing where the
    /// lock was refused; where it was had, a claim whose cursor stands over
    /// the input at the position that the lock holds.
    fn answer<'g>(&self, lock: Option<MutexGuard<'g, usize>>) -> (claim: Option<Claim<'g, 'a>>)
        ensures
            claim.is_some() == lock.is_some(),
            claim matches Some(c) ==> {
                &&& c.cursor().buffer() == self.buffer()
                &&& c.cursor().position() <= self.buffer().len()
                &&& c.cursor()@ == self.unread_from(c.cursor().position())
            },
    {
        match lock {
            Some(guard) => {
                let mut guard = guard;
                let stored = *slot_mut(&mut guard);
                let cursor = Cursor::resume(self.bytes, stored);
                Some(Claim { cursor, slot: guard })
            },
            None => None,
        }
    }

    /// Hands out the next `n` bytes of the shared input, or what is left of
    /// it. A refused claim hands out nothing.
    pub fn next_chunk(&self, n: usize) -> (chunk: &'a [u8])
        ensures
            exists|position: nat|
                position <= self.buffer().len() && chunk@ == chunk_of(
                    #[trigger] self.unread_from(position),
                    n as nat,
                ),
    {
        match self.try_claim() {
            Some(claim) => {
                let mut claim = claim;
                let ghost position = claim.cursor().position();
                let chunk = claim.cursor_mut().next_chunk(n);
                claim.release();
                assert(chunk@ == chunk_of(self.unread_from(position), n as nat));
                chunk
            },
            None => {
                let chunk = vstd::slice::slice_subrange(self.bytes, 0, 0);
                assert(chunk@ =~= chunk_of(self.unread_from(self.buffer().len()), n as nat));
                chunk
            },
        }
    }

    /// Hands out the next byte of the shared input, if one is left and the
    /// claim is granted.
    pub fn next_byte(&self) -> (byte: Option<u8>)
        ensures
            exists|position: nat|
                position <= self.buffer().len() && byte == first_of(
                    #[trigger] self.unread_from(position),
                ),
    {
        let chunk = self.next_chunk(1);
        proof {
            let position = choose|position: nat|
                position <= self.buffer().len() && chunk@ == chunk_of(
                    #[trigger] self.unread_from(position),
                    1,
                );
            if chunk@.len() == 1 {
                assert(chunk@[0] == self.unread_from(position)[0]);
            }
            assert(chunk@.len() == 1 <==> self.unread_from(position).len() > 0);
        }
        if chunk.len() == 1 {
            Some(chunk[0])
        } else {
            None
        }
    }
}

impl<'a> Clone for FuzzData<'a> {
    /// Another handle to the same input and the same shared position.
    fn clone(&self) -> (handle: Self)
        ensures
            handle.buffer() == self.buffer(),
    {
        FuzzData { bytes: self.bytes, position: share_slot(&self.position) }
    }
}

} // verus!
