//! A mock serial interface.

use crate::cursor::{first_of, lemma_moves_compose, lemma_stays, Cursor};
use crate::error::{after_policy, fallback_error, injected, Blocking, FuzzedError};
use crate::fuzzed_type::{checked, FuzzedError as MaybeError};
use crate::shared_data::FuzzData;
use core::marker::PhantomData;
use vstd::prelude::*;

verus! {

/// What receiving one byte gives when `unread` is what the cursor has left.
/// An interface whose input is exhausted has nothing to give yet, and neither
/// has one whose input ends with the decision; else the policy decides, and the
/// byte after the decision is the byte received.
pub open spec fn received<E: FuzzedError>(unread: Seq<u8>) -> Result<u8, Blocking<E>> {
    if unread.len() == 0 {
        Err(Blocking::WouldBlock)
    } else {
        match injected::<E>(unread) {
            Some(e) => Err(Blocking::Other(e)),
            None => match first_of(after_policy::<E>(unread)) {
                Some(byte) => Ok(byte),
                None => Err(Blocking::WouldBlock),
            },
        }
    }
}

/// How many bytes receiving one byte asks of the cursor: none of exhausted
/// input; else those of the decision, and one more unless an error is
/// injected.
pub open spec fn receive_demand<E: FuzzedError>(unread: Seq<u8>) -> nat {
    if unread.len() == 0 {
        0
    } else if injected::<E>(unread).is_some() {
        E::width()
    } else {
        E::width() + 1
    }
}

/// What sending returns when `unread` is what the cursor has left: what is
/// sent is not looked at, only the policy decides.
pub open spec fn sent<E: FuzzedError>(unread: Seq<u8>) -> Result<(), Blocking<E>> {
    match injected::<E>(unread) {
        Some(e) => Err(Blocking::Other(e)),
        None => Ok(()),
    }
}

/// An interface whose input is exhausted has nothing to give yet, and fails
/// to send with the fallback error.
pub proof fn lemma_exhausted_input<E: FuzzedError>()
    ensures
        received::<E>(Seq::empty()) == Err::<u8, Blocking<E>>(Blocking::WouldBlock),
        sent::<E>(Seq::empty()) == Err::<(), Blocking<E>>(Blocking::Other(E::fallback())),
        checked::<E>(Seq::empty()) == Err::<(), E>(E::fallback()),
{
    E::lemma_policy();
}

/// A mock serial interface that injects errors of type `E`.
pub struct SerialFuzz<'a, E> {
    data: FuzzData<'a>,
    e_: PhantomData<E>,
}

impl<'a, E: FuzzedError> SerialFuzz<'a, E> {
    /// The input that the interface decodes its results from.
    pub closed spec fn input(self) -> FuzzData<'a> {
        self.data
    }

    /// An interface that reads through `data`.
    pub fn new(data: FuzzData<'a>) -> (serial: Self)
        ensures
            serial.input() == data,
    {
        SerialFuzz { data, e_: PhantomData }
    }

    /// Asks the policy, from where the shared input stands, whether the next
    /// operation fails. A refused claim reads as exhausted input.
    pub fn maybe_err(&mut self) -> (outcome: Result<(), E>)
        ensures
            final(self).input() == old(self).input(),
            old(self).input().buffer().len() == 0 ==> outcome == Err::<(), E>(E::fallback()),
            exists|position: nat|
                position <= old(self).input().buffer().len() && outcome == checked::<E>(
                    #[trigger] old(self).input().unread_from(position),
                ),
    {
        match self.data.try_claim() {
            Some(claim) => {
                let mut claim = claim;
                let ghost position = claim.cursor().position();
                let outcome = E::maybe_err(claim.cursor_mut());
                claim.release();
                proof {
                    E::lemma_policy();
                }
                assert(outcome == checked::<E>(old(self).input().unread_from(position)));
                outcome
            },
            None => {
                let outcome = Err(fallback_error::<E>());
                proof {
                    E::lemma_policy();
                    let end = old(self).input().buffer().len();
                    assert(outcome == checked::<E>(old(self).input().unread_from(end)));
                }
                outcome
            },
        }
    }

    /// Sends `bytes` and waits until they are out. They are not looked at:
    /// only the policy decides whether the write fails.
    pub fn write(&mut self, _bytes: &[u8]) -> (outcome: Result<(), E>)
        ensures
            final(self).input() == old(self).input(),
            old(self).input().buffer().len() == 0 ==> outcome == Err::<(), E>(E::fallback()),
            exists|position: nat|
                position <= old(self).input().buffer().len() && outcome == checked::<E>(
                    #[trigger] old(self).input().unread_from(position),
                ),
    {
        self.maybe_err()
    }

    /// Waits until everything sent is out, which it always is: only the
    /// policy decides whether the flush fails.
    pub fn flush(&mut self) -> (outcome: Result<(), E>)
        ensures
            final(self).input() == old(self).input(),
            old(self).input().buffer().len() == 0 ==> outcome == Err::<(), E>(E::fallback()),
            exists|position: nat|
                position <= old(self).input().buffer().len() && outcome == checked::<E>(
                    #[trigger] old(self).input().unread_from(position),
                ),
    {
        self.maybe_err()
    }

    /// Receives one byte from `data`: asks the policy first, unless the input
    /// is exhausted, then takes the next byte as it is.
    pub fn receive(data: &mut Cursor<'_>) -> (outcome: Result<u8, Blocking<E>>)
        ensures
            outcome == received::<E>(old(data)@),
            old(data).moved_to(*final(data), receive_demand::<E>(old(data)@)),
    {
        if data.remaining() == 0 {
            proof {
                lemma_stays(*data, 0);
            }
            return Err(Blocking::WouldBlock);
        }
        if let Some(e) = E::new_err(data) {
            return Err(Blocking::Other(e));
        }
        let ghost decided = *data;
        let byte = data.next_byte();
        proof {
            lemma_moves_compose(*old(data), decided, *data, E::width(), 1);
        }
        match byte {
            Some(byte) => Ok(byte),
            None => Err(Blocking::WouldBlock),
        }
    }

    /// Receives one byte without waiting, from where the shared input
    /// stands. A refused claim reads as exhausted input: nothing to give yet.
    pub fn read(&mut self) -> (outcome: Result<u8, Blocking<E>>)
        ensures
            final(self).input() == old(self).input(),
            old(self).input().buffer().len() == 0 ==> outcome == Err::<u8, Blocking<E>>(
                Blocking::WouldBlock,
            ),
            exists|position: nat|
                position <= old(self).input().buffer().len() && outcome == received::<E>(
                    #[trigger] old(self).input().unread_from(position),
                ),
    {
        match self.data.try_claim() {
            Some(claim) => {
                let mut claim = claim;
                let ghost position = claim.cursor().position();
                let outcome = Self::receive(claim.cursor_mut());
                claim.release();
                assert(outcome == received::<E>(old(self).input().unread_from(position)));
                outcome
            },
            None => {
                let outcome = Err(Blocking::WouldBlock);
                proof {
                    let end = old(self).input().buffer().len();
                    assert(outcome == received::<E>(old(self).input().unread_from(end)));
                }
                outcome
            },
        }
    }

    /// Sends one byte without waiting. The byte is not looked at: only the
    /// policy decides whether the write fails.
    pub fn write_nb(&mut self, _word: u8) -> (outcome: Result<(), Blocking<E>>)
        ensures
            final(self).input() == old(self).input(),
            old(self).input().buffer().len() == 0 ==> outcome == Err::<(), Blocking<E>>(
                Blocking::Other(E::fallback()),
            ),
            exists|position: nat|
                position <= old(self).input().buffer().len() && outcome == sent::<E>(
                    #[trigger] old(self).input().unread_from(position),
                ),
    {
        let decision = self.maybe_err();
        proof {
            let position = choose|position: nat|
                position <= old(self).input().buffer().len() && decision == checked::<E>(
                    #[trigger] old(self).input().unread_from(position),
                );
            assert(match decision {
                Ok(()) => Ok(()),
                Err(e) => Err(Blocking::Other(e)),
            } == sent::<E>(old(self).input().unread_from(position)));
        }
        match decision {
            Ok(()) => Ok(()),
            Err(e) => Err(Blocking::Other(e)),
        }
    }

    /// Checks without waiting that everything sent is out. A flush fails
    /// when a write would.
    pub fn flush_nb(&mut self) -> (outcome: Result<(), Blocking<E>>)
        ensures
            final(self).input() == old(self).input(),
            old(self).input().buffer().len() == 0 ==> outcome == Err::<(), Blocking<E>>(
                Blocking::Other(E::fallback()),
            ),
            exists|position: nat|
                position <= old(self).input().buffer().len() && outcome == sent::<E>(
                    #[trigger] old(self).input().unread_from(position),
                ),
    {
        self.write_nb(0)
    }
}

} // verus!
