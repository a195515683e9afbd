//! Mock digital pins.

use crate::cursor::{first_of, lemma_moves_compose, Cursor};
use crate::error::{
    after_policy, errors_below, fallback_error, injected, injects, injects_error,
    lemma_parity_policy_errs_on_half, FuzzedError,
};
use crate::fuzzed_type::{checked, FuzzedError as MaybeError};
use crate::shared_data::FuzzData;
use vstd::prelude::*;

verus! {

/// The failure of a pin. A pin has one way to fail.
#[derive(Debug, Clone, Copy, PartialEq, Eq)]
pub struct Error;

impl Default for Error {
    fn default() -> (e: Self)
        ensures
            e == Error,
    {
        Error
    }
}

/// The policy of a pin reads one byte, and injects the error when its lowest
/// bit is clear.
impl FuzzedError for Error {
    open spec fn width() -> nat {
        1
    }

    open spec fn fallback() -> Self {
        Error
    }

    open spec fn decide(bytes: Seq<u8>) -> Option<Self> {
        if injects(bytes[0]) {
            Some(Error)
        } else {
            None
        }
    }

    proof fn lemma_policy() {
    }

    fn new_err(data: &mut Cursor<'_>) -> (outcome: Option<Self>) {
        match data.next_byte() {
            Some(byte) => {
                assert(old(data)@.take(1)[0] == old(data)@[0]);
                if injects_error(byte) {
                    Some(Error)
                } else {
                    None
                }
            },
            None => Some(Error),
        }
    }
}

/// Of the 256 byte values, the policy injects an error for exactly 128.
pub proof fn lemma_policy_errs_on_half()
    ensures
        errors_below::<Error>(256) == 128,
{
    assert forall|byte: u8| (#[trigger] <Error as FuzzedError>::decide(seq![byte])).is_some()
        == injects(byte) by {
        assert(seq![byte][0] == byte);
    }
    lemma_parity_policy_errs_on_half::<Error>(128);
}

/// The level of a pin.
#[derive(Debug, Clone, Copy, PartialEq, Eq)]
pub enum PinState {
    /// The low level.
    Low,
    /// The high level.
    High,
}

/// Whether a level byte reads as high: a byte above 128 is low, any other is
/// high.
pub open spec fn reads_high(byte: u8) -> bool {
    byte <= 128
}

/// What sensing the level gives when `unread` is what the cursor has left:
/// the injected error if the policy injects one, else the level that the byte
/// after the decision spells, else the fallback error, when no byte follows.
pub open spec fn level_read(unread: Seq<u8>) -> Result<bool, Error> {
    match injected::<Error>(unread) {
        Some(e) => Err(e),
        None => match first_of(after_policy::<Error>(unread)) {
            Some(byte) => Ok(reads_high(byte)),
            None => Err(Error::fallback()),
        },
    }
}

/// How many bytes sensing the level asks of the cursor: those of the
/// decision, and one more unless an error is injected.
pub open spec fn level_demand(unread: Seq<u8>) -> nat {
    if injected::<Error>(unread).is_some() {
        Error::width()
    } else {
        Error::width() + 1
    }
}

/// The opposite reading of a level that was sensed.
pub open spec fn inverted(outcome: Result<bool, Error>) -> Result<bool, Error> {
    match outcome {
        Ok(high) => Ok(!high),
        Err(e) => Err(e),
    }
}

/// A pin whose input is exhausted reports its error.
pub proof fn lemma_exhausted_input()
    ensures
        level_read(Seq::empty()) == Err::<bool, Error>(Error),
        inverted(level_read(Seq::empty())) == Err::<bool, Error>(Error),
        checked::<Error>(Seq::empty()) == Err::<(), Error>(Error),
{
}

/// A mock input pin.
#[derive(Debug)]
pub struct ArbitraryInputPin<'a> {
    data: FuzzData<'a>,
}

impl<'a> ArbitraryInputPin<'a> {
    /// The input that the pin decodes its levels from.
    pub closed spec fn input(self) -> FuzzData<'a> {
        self.data
    }

    /// A pin that reads through `data`.
    pub fn new(data: FuzzData<'a>) -> (pin: Self)
        ensures
            pin.input() == data,
    {
        ArbitraryInputPin { data }
    }

    /// Senses the level from `data`: asks the policy first, then reads one
    /// byte as the level.
    pub fn level(data: &mut Cursor<'_>) -> (outcome: Result<bool, Error>)
        ensures
            outcome == level_read(old(data)@),
            old(data).moved_to(*final(data), level_demand(old(data)@)),
    {
        if let Some(e) = Error::new_err(data) {
            return Err(e);
        }
        let ghost decided = *data;
        let byte = data.next_byte();
        proof {
            lemma_moves_compose(*old(data), decided, *data, Error::width(), 1);
        }
        match byte {
            Some(byte) => Ok(!(byte > 128)),
            None => Err(fallback_error::<Error>()),
        }
    }

    /// Whether the pin is high, sensed from where the shared input stands. A
    /// refused claim reads as exhausted input.
    pub fn is_high(&self) -> (outcome: Result<bool, Error>)
        ensures
            self.input().buffer().len() == 0 ==> outcome == Err::<bool, Error>(Error),
            exists|position: nat|
                position <= self.input().buffer().len() && outcome == level_read(
                    #[trigger] self.input().unread_from(position),
                ),
    {
        match self.data.try_claim() {
            Some(claim) => {
                let mut claim = claim;
                let ghost position = claim.cursor().position();
                let outcome = Self::level(claim.cursor_mut());
                claim.release();
                assert(outcome == level_read(self.input().unread_from(position)));
                outcome
            },
            None => {
                let outcome = Err(fallback_error::<Error>());
                proof {
                    let end = self.input().buffer().len();
                    assert(outcome == level_read(self.input().unread_from(end)));
                }
                outcome
            },
        }
    }

    /// Whether the pin is low: the opposite of what `is_high` would sense.
    pub fn is_low(&self) -> (outcome: Result<bool, Error>)
        ensures
            self.input().buffer().len() == 0 ==> outcome == Err::<bool, Error>(Error),
            exists|position: nat|
                position <= self.input().buffer().len() && outcome == inverted(
                    level_read(#[trigger] self.input().unread_from(position)),
                ),
    {
        let sensed = self.is_high();
        proof {
            let position = choose|position: nat|
                position <= self.input().buffer().len() && sensed == level_read(
                    #[trigger] self.input().unread_from(position),
                );
            assert(inverted(sensed) == inverted(level_read(self.input().unread_from(position))));
        }
        match sensed {
            Ok(high) => Ok(!high),
            Err(e) => Err(e),
        }
    }
}

/// A mock output pin. It remembers the level that it was last set to.
#[derive(Debug)]
pub struct ArbitraryOutputPin<'a> {
    data: FuzzData<'a>,
    state: PinState,
}

impl<'a> ArbitraryOutputPin<'a> {
    /// The input that the pin decodes its failures from.
    pub closed spec fn input(self) -> FuzzData<'a> {
        self.data
    }

    /// The level that the pin was last set to.
    pub closed spec fn level(self) -> PinState {
        self.state
    }

    /// A pin that reads through `data` and starts at the level `state`.
    pub fn new(data: FuzzData<'a>, state: PinState) -> (pin: Self)
        ensures
            pin.input() == data,
            pin.level() == state,
    {
        ArbitraryOutputPin { data, state }
    }

    /// Asks the policy, from where the shared input stands, whether the next
    /// operation fails. A refused claim reads as exhausted input.
    fn maybe_err(&self) -> (outcome: Result<(), Error>)
        ensures
            self.input().buffer().len() == 0 ==> outcome == Err::<(), Error>(Error),
            exists|position: nat|
                position <= self.input().buffer().len() && outcome == checked::<Error>(
                    #[trigger] self.input().unread_from(position),
                ),
    {
        match self.data.try_claim() {
            Some(claim) => {
                let mut claim = claim;
                let ghost position = claim.cursor().position();
                let outcome = Error::maybe_err(claim.cursor_mut());
                claim.release();
                assert(outcome == checked::<Error>(self.input().unread_from(position)));
                outcome
            },
            None => {
                let outcome = Err(fallback_error::<Error>());
                proof {
                    let end = self.input().buffer().len();
                    assert(outcome == checked::<Error>(self.input().unread_from(end)));
                }
                outcome
            },
        }
    }

    /// Drives the pin to `state` unless the policy injects an error, in which
    /// case the pin stays as it is.
    fn set_state(&mut self, state: PinState) -> (outcome: Result<(), Error>)
        ensures
            final(self).input() == old(self).input(),
            final(self).level() == if outcome.is_ok() {
                state
            } else {
                old(self).level()
            },
            old(self).input().buffer().len() == 0 ==> outcome == Err::<(), Error>(Error),
            exists|position: nat|
                position <= old(self).input().buffer().len() && outcome == checked::<Error>(
                    #[trigger] old(self).input().unread_from(position),
                ),
    {
        let outcome = self.maybe_err();
        if outcome.is_ok() {
            self.state = state;
        }
        outcome
    }

    /// Drives the pin low. On failure the pin stays as it is.
    pub fn set_low(&mut self) -> (outcome: Result<(), Error>)
        ensures
            final(self).input() == old(self).input(),
            final(self).level() == if outcome.is_ok() {
                PinState::Low
            } else {
                old(self).level()
            },
            old(self).input().buffer().len() == 0 ==> outcome == Err::<(), Error>(Error),
            exists|position: nat|
                position <= old(self).input().buffer().len() && outcome == checked::<Error>(
                    #[trigger] old(self).input().unread_from(position),
                ),
    {
        self.set_state(PinState::Low)
    }

    /// Drives the pin high. On failure the pin stays as it is.
    pub fn set_high(&mut self) -> (outcome: Result<(), Error>)
        ensures
            final(self).input() == old(self).input(),
            final(self).level() == if outcome.is_ok() {
                PinState::High
            } else {
                old(self).level()
            },
            old(self).input().buffer().len() == 0 ==> outcome == Err::<(), Error>(Error),
            exists|position: nat|
                position <= old(self).input().buffer().len() && outcome == checked::<Error>(
                    #[trigger] old(self).input().unread_from(position),
                ),
    {
        self.set_state(PinState::High)
    }

    /// Whether the pin was last set high, unless the policy injects an error.
    pub fn is_set_high(&self) -> (outcome: Result<bool, Error>)
        ensures
            self.input().buffer().len() == 0 ==> outcome == Err::<bool, Error>(Error),
            exists|position: nat|
                position <= self.input().buffer().len() && outcome == reported(
                    self.level() == PinState::High,
                    checked::<Error>(#[trigger] self.input().unread_from(position)),
                ),
    {
        let decision = self.maybe_err();
        let high = match self.state {
            PinState::High => true,
            PinState::Low => false,
        };
        proof {
            let position = choose|position: nat|
                position <= self.input().buffer().len() && decision == checked::<Error>(
                    #[trigger] self.input().unread_from(position),
                );
            assert(reported(high, decision) == reported(
                self.level() == PinState::High,
                checked::<Error>(self.input().unread_from(position)),
            ));
        }
        match decision {
            Ok(()) => Ok(high),
            Err(e) => Err(e),
        }
    }

    /// Whether the pin was last set low, unless the policy injects an error.
    pub fn is_set_low(&self) -> (outcome: Result<bool, Error>)
        ensures
            self.input().buffer().len() == 0 ==> outcome == Err::<bool, Error>(Error),
            exists|position: nat|
                position <= self.input().buffer().len() && outcome == reported(
                    self.level() == PinState::Low,
                    checked::<Error>(#[trigger] self.input().unread_from(position)),
                ),
    {
        let decision = self.maybe_err();
        let low = match self.state {
            PinState::High => false,
            PinState::Low => true,
        };
        proof {
            let position = choose|position: nat|
                position <= self.input().buffer().len() && decision == checked::<Error>(
                    #[trigger] self.input().unread_from(position),
                );
            assert(reported(low, decision) == reported(
                self.level() == PinState::Low,
                checked::<Error>(self.input().unread_from(position)),
            ));
        }
        match decision {
            Ok(()) => Ok(low),
            Err(e) => Err(e),
        }
    }
}

/// The answer to a question about the pin's own level: the answer itself
/// unless the policy injected an error.
pub open spec fn reported(answer: bool, decision: Result<(), Error>) -> Result<bool, Error> {
    match decision {
        Ok(()) => Ok(answer),
        Err(e) => Err(e),
    }
}

} // verus!
