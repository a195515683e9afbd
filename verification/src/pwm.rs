//! A mock PWM output.

use crate::cursor::{lemma_stays, Cursor};
use crate::error::{
    errors_below, fallback_error, injects, injects_error, lemma_parity_policy_errs_on_half,
    FuzzedError,
};
use crate::fuzzed_type::{checked, FuzzedError as MaybeError};
use crate::shared_data::FuzzData;
use arbitrary::Unstructured;
use vstd::prelude::*;

verus! {

/// The kinds of failure that an output reports.
#[derive(Debug, Clone, Copy, PartialEq, Eq)]
pub enum ErrorKind {
    /// Any failure.
    Other,
}

/// A failure of the output.
#[derive(Debug, Clone, Copy, PartialEq, Eq)]
pub struct Error {
    /// What went wrong.
    pub kind: ErrorKind,
}

impl Error {
    /// What went wrong.
    pub fn kind(&self) -> (kind: ErrorKind)
        ensures
            kind == self.kind,
    {
        self.kind
    }

    /// An error of the only kind there is. Nothing is taken from `u`.
    pub fn arbitrary(_u: &mut Unstructured<'_>) -> (e: Error)
        ensures
            e == (Error { kind: ErrorKind::Other }),
            *final(_u) == *old(_u),
    {
        Error { kind: ErrorKind::Other }
    }
}

impl Default for Error {
    fn default() -> (e: Self)
        ensures
            e == (Error { kind: ErrorKind::Other }),
    {
        Error { kind: ErrorKind::Other }
    }
}

/// The policy of the output reads one byte, and injects an error when its
/// lowest bit is clear.
impl FuzzedError for Error {
    open spec fn width() -> nat {
        1
    }

    open spec fn fallback() -> Self {
        Error { kind: ErrorKind::Other }
    }

    open spec fn decide(bytes: Seq<u8>) -> Option<Self> {
        if injects(bytes[0]) {
            Some(Error { kind: ErrorKind::Other })
        } else {
            None
        }
    }

    proof fn lemma_policy() {
    }

    fn new_err(data: &mut Cursor<'_>) -> (outcome: Option<Self>) {
        match data.next_byte() {
            Some(byte) => {
                assert(old(data)@.take(1)[0] == old(data)@[0]);
                if injects_error(byte) {
                    Some(Error { kind: ErrorKind::Other })
                } else {
                    None
                }
            },
            None => Some(Error { kind: ErrorKind::Other }),
        }
    }
}

/// Of the 256 byte values, the policy injects an error for exactly 128.
pub proof fn lemma_policy_errs_on_half()
    ensures
        errors_below::<Error>(256) == 128,
{
    assert forall|byte: u8| (#[trigger] <Error as FuzzedError>::decide(seq![byte])).is_some()
        == injects(byte) by {
        assert(seq![byte][0] == byte);
    }
    lemma_parity_policy_errs_on_half::<Error>(128);
}

/// What setting the duty cycle returns when `unread` is what the cursor has
/// left. A duty above the maximum is refused whatever the input holds: the
/// driver broke the contract of the output, no fault was simulated. Any other
/// duty is accepted unless the policy injects an error.
pub open spec fn duty_set(max: u16, duty: u16, unread: Seq<u8>) -> Result<(), Error> {
    if duty > max {
        Err(Error { kind: ErrorKind::Other })
    } else {
        checked::<Error>(unread)
    }
}

/// How many bytes setting the duty cycle asks of the cursor: none for a duty
/// above the maximum, else those of the decision.
pub open spec fn duty_demand(max: u16, duty: u16) -> nat {
    if duty > max {
        0
    } else {
        Error::width()
    }
}

/// An output whose input is exhausted reports the fallback error, whatever
/// the duty.
pub proof fn lemma_exhausted_input(max: u16, duty: u16)
    ensures
        duty_set(max, duty, Seq::empty()) == Err::<(), Error>(Error::fallback()),
{
}

/// A duty above the maximum is refused whatever the input holds.
pub proof fn lemma_excess_duty_is_refused(max: u16, duty: u16, unread: Seq<u8>)
    requires
        duty > max,
    ensures
        duty_set(max, duty, unread) == Err::<(), Error>(Error { kind: ErrorKind::Other }),
{
}

/// A mock output with a fixed maximum duty cycle.
#[derive(Debug)]
pub struct ArbitraryPwm<'a> {
    data: FuzzData<'a>,
    max_duty_cycle: u16,
}

impl<'a> ArbitraryPwm<'a> {
    /// The input that the output decodes its results from.
    pub closed spec fn input(self) -> FuzzData<'a> {
        self.data
    }

    /// The largest duty cycle that the output accepts.
    pub closed spec fn max(self) -> u16 {
        self.max_duty_cycle
    }

    /// An output that reads through `data` and accepts duty cycles up to
    /// `max_duty_cycle`.
    pub fn new(data: FuzzData<'a>, max_duty_cycle: u16) -> (pwm: Self)
        ensures
            pwm.input() == data,
            pwm.max() == max_duty_cycle,
    {
        ArbitraryPwm { data, max_duty_cycle }
    }

    /// The largest duty cycle that the output accepts.
    pub fn get_max_duty_cycle(&self) -> (max: u16)
        ensures
            max == self.max(),
    {
        self.max_duty_cycle
    }

    /// Sets the duty cycle of an output with maximum `max`, deciding on
    /// `data`. A duty above the maximum takes nothing from the input.
    pub fn apply(data: &mut Cursor<'_>, max: u16, duty: u16) -> (outcome: Result<(), Error>)
        ensures
            outcome == duty_set(max, duty, old(data)@),
            old(data).moved_to(*final(data), duty_demand(max, duty)),
    {
        if duty > max {
            proof {
                lemma_stays(*data, 0);
            }
            return Err(Error { kind: ErrorKind::Other });
        }
        Error::maybe_err(data)
    }

    /// Sets the duty cycle. A duty above the maximum is refused; any other
    /// is decided on from where the shared input stands, and a refused claim
    /// reads as exhausted input.
    pub fn set_duty_cycle(&mut self, duty: u16) -> (outcome: Result<(), Error>)
        ensures
            *final(self) == *old(self),
            duty > old(self).max() ==> outcome == Err::<(), Error>(
                Error { kind: ErrorKind::Other },
            ),
            old(self).input().buffer().len() == 0 ==> outcome == Err::<(), Error>(
                Error::fallback(),
            ),
            exists|position: nat|
                position <= old(self).input().buffer().len() && outcome == duty_set(
                    old(self).max(),
                    duty,
                    #[trigger] old(self).input().unread_from(position),
                ),
    {
        if duty > self.max_duty_cycle {
            let outcome = Err(Error { kind: ErrorKind::Other });
            assert(outcome == duty_set(old(self).max(), duty, old(self).input().unread_from(0)));
            return outcome;
        }
        match self.data.try_claim() {
            Some(claim) => {
                let mut claim = claim;
                let ghost position = claim.cursor().position();
                let outcome = Self::apply(claim.cursor_mut(), self.max_duty_cycle, duty);
                claim.release();
                assert(outcome == duty_set(
                    old(self).max(),
                    duty,
                    old(self).input().unread_from(position),
                ));
                outcome
            },
            None => {
                let outcome = Err(fallback_error::<Error>());
                proof {
                    let end = old(self).input().buffer().len();
                    assert(outcome == duty_set(
                        old(self).max(),
                        duty,
                        old(self).input().unread_from(end),
                    ));
                }
                outcome
            },
        }
    }
}

} // verus!
