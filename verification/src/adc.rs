//! A mock analog-to-digital converter.

use crate::cursor::{lemma_moves_compose, Cursor};
use crate::error::{after_policy, fallback_error, injected, Blocking, FuzzedError};
use crate::fuzzed_type::{fuzzed, Fuzzed};
use crate::shared_data::FuzzData;
use core::marker::PhantomData;
use vstd::prelude::*;

verus! {

/// What reading one sample gives when `unread` is what the cursor has left:
/// the injected error if the policy injects one, else the word that the
/// next bytes spell, else the fallback error, when the word is incomplete.
pub open spec fn sampled<E: FuzzedError, Word: Fuzzed>(unread: Seq<u8>) -> Result<
    Word,
    Blocking<E>,
> {
    match injected::<E>(unread) {
        Some(e) => Err(Blocking::Other(e)),
        None => match fuzzed::<Word>(after_policy::<E>(unread)) {
            Ok(word) => Ok(word),
            Err(_) => Err(Blocking::Other(E::fallback())),
        },
    }
}

/// How many bytes reading one sample asks of the cursor: those of the
/// decision, and those of the word unless an error is injected.
pub open spec fn sample_demand<E: FuzzedError, Word: Fuzzed>(unread: Seq<u8>) -> nat {
    if injected::<E>(unread).is_some() {
        E::width()
    } else {
        E::width() + Word::size()
    }
}

/// A converter whose input is exhausted reports the fallback error.
pub proof fn lemma_exhausted_input<E: FuzzedError, Word: Fuzzed>()
    ensures
        sampled::<E, Word>(Seq::empty()) == Err::<Word, Blocking<E>>(
            Blocking::Other(E::fallback()),
        ),
{
    E::lemma_policy();
}

/// A mock converter that injects errors of type `E`.
pub struct AdcFuzz<'a, E> {
    data: FuzzData<'a>,
    _e: PhantomData<E>,
}

impl<'a, E: FuzzedError> AdcFuzz<'a, E> {
    /// The input bytes that the converter decodes its samples from.
    pub closed spec fn input(self) -> FuzzData<'a> {
        self.data
    }

    /// A converter that reads through `data`.
    pub fn new(data: FuzzData<'a>) -> (adc: Self)
        ensures
            adc.input() == data,
    {
        AdcFuzz { data, _e: PhantomData }
    }

    /// Reads one sample from `data`: asks the policy first, then decodes a
    /// word, least significant byte first.
    pub fn sample<Word: Fuzzed>(data: &mut Cursor<'_>) -> (outcome: Result<Word, Blocking<E>>)
        ensures
            outcome == sampled::<E, Word>(old(data)@),
            old(data).moved_to(*final(data), sample_demand::<E, Word>(old(data)@)),
    {
        if let Some(e) = E::new_err(data) {
            return Err(Blocking::Other(e));
        }
        let ghost decided = *data;
        let word = Word::new_fuzzed(data);
        proof {
            E::lemma_policy();
            lemma_moves_compose(*old(data), decided, *data, E::width(), Word::size());
        }
        match word {
            Ok(word) => Ok(word),
            Err(_) => Err(Blocking::Other(fallback_error::<E>())),
        }
    }

    /// Reads one sample of the channel behind `pin`, which is not looked at.
    /// The sample is decoded from where the shared input stands; a refused
    /// claim reads as exhausted input.
    pub fn read<Word: Fuzzed, Pin>(&mut self, _pin: &mut Pin) -> (outcome: Result<
        Word,
        Blocking<E>,
    >)
        ensures
            final(self).input() == old(self).input(),
            old(self).input().buffer().len() == 0 ==> outcome == Err::<Word, Blocking<E>>(
                Blocking::Other(E::fallback()),
            ),
            exists|position: nat|
                position <= old(self).input().buffer().len() && outcome == sampled::<E, Word>(
                    #[trigger] old(self).input().unread_from(position),
                ),
    {
        match self.data.try_claim() {
            Some(claim) => {
                let mut claim = claim;
                let ghost position = claim.cursor().position();
                let outcome = Self::sample(claim.cursor_mut());
                claim.release();
                proof {
                    E::lemma_policy();
                }
                assert(outcome == sampled::<E, Word>(old(self).input().unread_from(position)));
                outcome
            },
            None => {
                let outcome = Err(Blocking::Other(fallback_error::<E>()));
                proof {
                    E::lemma_policy();
                    let end = old(self).input().buffer().len();
                    assert(outcome == sampled::<E, Word>(old(self).input().unread_from(end)));
                }
                outcome
            },
        }
    }
}

/// A pin for converters that do not look at the pin.
#[derive(Clone, Copy, Default)]
pub struct DummyPin {}

} // verus!
