//! A mock SPI bus.

use crate::cursor::{lemma_moves_compose, lemma_stays, Cursor};
use crate::error::{
    after_policy, errors_below, fallback_error, injected, injects, injects_error,
    lemma_parity_policy_errs_on_half, FuzzedError,
};
use crate::fuzzed_type::{checked, Fuzzed, FuzzedError as MaybeError};
use crate::shared_data::FuzzData;
use crate::unstructured::{choose_index, chosen, read_on, unread};
use arbitrary::Unstructured;
use core::marker::PhantomData;
use vstd::prelude::*;

verus! {

/// The kinds of failure that a bus reports.
#[derive(Debug, Clone, Copy, PartialEq, Eq)]
pub enum ErrorKind {
    /// Data was lost before it was read.
    Overrun,
    /// Several controllers drive the bus.
    ModeFault,
    /// A word of the wrong length was received.
    FrameFormat,
    /// The chip-select line could not be driven.
    ChipSelectFault,
    /// Any other failure.
    Other,
}

/// How many kinds of failure there are.
pub const KINDS: u8 = 5;

/// The kind that a selector picks: the kinds are numbered in the order of
/// their declaration, and the selector counts round them.
pub open spec fn kind_of(selector: nat) -> ErrorKind {
    let index = selector % (KINDS as nat);
    if index == 0 {
        ErrorKind::Overrun
    } else if index == 1 {
        ErrorKind::ModeFault
    } else if index == 2 {
        ErrorKind::FrameFormat
    } else if index == 3 {
        ErrorKind::ChipSelectFault
    } else {
        ErrorKind::Other
    }
}

impl ErrorKind {
    /// Picks a kind by number, counting round the kinds.
    pub fn select(selector: usize) -> (kind: ErrorKind)
        ensures
            kind == kind_of(selector as nat),
    {
        match selector % (KINDS as usize) {
            0 => ErrorKind::Overrun,
            1 => ErrorKind::ModeFault,
            2 => ErrorKind::FrameFormat,
            3 => ErrorKind::ChipSelectFault,
            _ => ErrorKind::Other,
        }
    }
}

/// The error whose kind unstructured input chooses when `unread` is what
/// it has left.
pub open spec fn chosen_error(unread: Seq<u8>) -> Error {
    match chosen(unread, KINDS as usize) {
        Some(index) => Error { kind: kind_of(index as nat) },
        None => Error { kind: kind_of(0) },
    }
}

/// A failure of the bus.
#[derive(Debug, Clone, Copy, PartialEq, Eq)]
pub struct Error {
    /// What went wrong.
    pub kind: ErrorKind,
}

impl Error {
    /// What went wrong.
    pub fn kind(&self) -> (kind: ErrorKind)
        ensures
            kind == self.kind,
    {
        self.kind
    }

    /// An error of the kind that `u` chooses. What the choice reads is taken
    /// from the front of `u`.
    pub fn arbitrary(u: &mut Unstructured<'_>) -> (e: Error)
        ensures
            e == chosen_error(unread(*old(u))),
            read_on(*old(u), *final(u)),
    {
        match choose_index(u, KINDS as usize) {
            Some(index) => Error { kind: ErrorKind::select(index) },
            // Not reached: there are kinds to choose from.
            None => Error { kind: ErrorKind::select(0) },
        }
    }
}

impl Default for Error {
    fn default() -> (e: Self)
        ensures
            e == (Error { kind: ErrorKind::Other }),
    {
        Error { kind: ErrorKind::Other }
    }
}

/// The policy of the bus reads one byte. A byte with a clear lowest bit
/// injects an error, and its other seven bits select the kind.
impl FuzzedError for Error {
    open spec fn width() -> nat {
        1
    }

    open spec fn fallback() -> Self {
        Error { kind: ErrorKind::Other }
    }

    open spec fn decide(bytes: Seq<u8>) -> Option<Self> {
        if injects(bytes[0]) {
            Some(Error { kind: kind_of((bytes[0] / 2) as nat) })
        } else {
            None
        }
    }

    proof fn lemma_policy() {
    }

    fn new_err(data: &mut Cursor<'_>) -> (outcome: Option<Self>) {
        match data.next_byte() {
            Some(byte) => {
                assert(old(data)@.take(1)[0] == old(data)@[0]);
                if injects_error(byte) {
                    Some(Error { kind: ErrorKind::select((byte / 2) as usize) })
                } else {
                    None
                }
            },
            None => Some(Error { kind: ErrorKind::Other }),
        }
    }
}

/// Of the 256 byte values, the policy injects an error for exactly 128.
pub proof fn lemma_policy_errs_on_half()
    ensures
        errors_below::<Error>(256) == 128,
{
    assert forall|byte: u8| (#[trigger] <Error as FuzzedError>::decide(seq![byte])).is_some()
        == injects(byte) by {
        assert(seq![byte][0] == byte);
    }
    lemma_parity_policy_errs_on_half::<Error>(128);
}

/// Every kind of failure is injected by some decision byte.
pub proof fn lemma_every_kind_is_injected(kind: ErrorKind)
    ensures
        exists|byte: u8| #[trigger] injected::<Error>(seq![byte]) == Some(Error { kind }),
{
    let index: nat = match kind {
        ErrorKind::Overrun => 0,
        ErrorKind::ModeFault => 1,
        ErrorKind::FrameFormat => 2,
        ErrorKind::ChipSelectFault => 3,
        ErrorKind::Other => 4,
    };
    let byte = (2 * index) as u8;
    assert(seq![byte].take(1)[0] == byte);
    assert(injected::<Error>(seq![byte]) == Some(Error { kind }));
}

/// The word that the `index`-th group of bytes of `payload` spells.
pub open spec fn word_at<Word: Fuzzed>(payload: Seq<u8>, index: int) -> Word {
    Word::decoded(payload.subrange(index * Word::size(), (index + 1) * Word::size()))
}

/// The words after a read that had `payload` to decode from: each word whose
/// bytes are all there is decoded from its group of bytes; the others are as
/// they were.
pub open spec fn served_words<Word: Fuzzed>(words: Seq<Word>, payload: Seq<u8>) -> Seq<Word> {
    Seq::new(
        words.len(),
        |i: int|
            if (i + 1) * Word::size() <= payload.len() {
                word_at::<Word>(payload, i)
            } else {
                words[i]
            },
    )
}

/// What reading `wanted` words returns when `unread` is what the cursor has
/// left: the injected error if the policy injects one; success if the bytes
/// that follow the decision cover all words; else the fallback error.
pub open spec fn words_read<Word: Fuzzed>(wanted: nat, unread: Seq<u8>) -> Result<(), Error> {
    match injected::<Error>(unread) {
        Some(e) => Err(e),
        None => if wanted * Word::size() <= after_policy::<Error>(unread).len() {
            Ok(())
        } else {
            Err(Error::fallback())
        },
    }
}

/// The words after a read: untouched if an error is injected, else served
/// from the bytes that follow the decision.
pub open spec fn words_after<Word: Fuzzed>(words: Seq<Word>, unread: Seq<u8>) -> Seq<Word> {
    if injected::<Error>(unread).is_some() {
        words
    } else {
        served_words(words, after_policy::<Error>(unread))
    }
}

/// How many bytes reading `wanted` words asks of the cursor: those of the
/// decision, and those of the words unless an error is injected.
pub open spec fn words_demand<Word: Fuzzed>(wanted: nat, unread: Seq<u8>) -> nat {
    if injected::<Error>(unread).is_some() {
        Error::width()
    } else {
        Error::width() + wanted * Word::size()
    }
}

/// A bus whose input is exhausted reports the fallback error and leaves
/// every word as it is.
pub proof fn lemma_exhausted_input<Word: Fuzzed>(words: Seq<Word>)
    ensures
        words_read::<Word>(words.len(), Seq::empty()) == Err::<(), Error>(Error::fallback()),
        words_after(words, Seq::empty()) == words,
        checked::<Error>(Seq::empty()) == Err::<(), Error>(Error::fallback()),
{
}

/// A mock bus that carries words of type `Word`.
#[derive(Debug)]
pub struct ArbitrarySpiBus<'a, Word> {
    data: FuzzData<'a>,
    _w: PhantomData<Word>,
}

impl<'a, Word: Fuzzed + Copy> ArbitrarySpiBus<'a, Word> {
    /// The input that the bus decodes its results from.
    pub closed spec fn input(self) -> FuzzData<'a> {
        self.data
    }

    /// A bus that reads through `data`.
    pub fn new(data: FuzzData<'a>) -> (bus: Self)
        ensures
            bus.input() == data,
    {
        ArbitrarySpiBus { data, _w: PhantomData }
    }

    /// Reads words from `data`: asks the policy first, then decodes one word
    /// after the other, each least significant byte first. The first word
    /// that the input cannot complete ends the read with the fallback error.
    #[verifier::loop_isolation(false)]
    pub fn receive(data: &mut Cursor<'_>, words: &mut [Word]) -> (outcome: Result<(), Error>)
        ensures
            outcome == words_read::<Word>(old(words)@.len(), old(data)@),
            final(words)@ == words_after(old(words)@, old(data)@),
            old(data).moved_to(*final(data), words_demand::<Word>(old(words)@.len(), old(data)@)),
    {
        if let Some(e) = Error::new_err(data) {
            return Err(e);
        }
        let ghost decided = *data;
        let ghost payload = data@;
        let ghost size = Word::size();
        let n = words.len();
        let mut i: usize = 0;
        proof {
            Word::lemma_size();
            lemma_stays(decided, 0);
        }
        while i < n
            invariant
                i <= n,
                n == words@.len(),
                i * size <= payload.len(),
                decided.moved_to(*data, (i * size) as nat),
                forall|j: int| 0 <= j < i ==> #[trigger] words@[j] == word_at::<Word>(payload, j),
                forall|j: int| i <= j < n ==> #[trigger] words@[j] == old(words)@[j],
            decreases n - i,
        {
            let ghost here = *data;
            let word = Word::new_fuzzed(data);
            proof {
                assert((i + 1) * size == i * size + size) by (nonlinear_arith);
                lemma_moves_compose(decided, here, *data, (i * size) as nat, size);
                if here@.len() >= size {
                    assert(here@.take(size as int) =~= payload.subrange(
                        i * size,
                        (i + 1) * size,
                    ));
                }
            }
            match word {
                Ok(word) => {
                    words[i] = word;
                },
                Err(_) => {
                    proof {
                        assert forall|j: int| 0 <= j < n implies #[trigger] words@[j]
                            == served_words(old(words)@, payload)[j] by {
                            if j >= i {
                                assert((j + 1) * size >= (i + 1) * size) by (nonlinear_arith)
                                    requires
                                        j >= i,
                                        size >= 1,
                                ;
                            } else {
                                assert((j + 1) * size <= i * size) by (nonlinear_arith)
                                    requires
                                        j < i,
                                        size >= 1,
                                ;
                            }
                        }
                        assert(n * size >= (i + 1) * size) by (nonlinear_arith)
                            requires
                                n > i,
                                size >= 1,
                        ;
                        assert(words@ =~= served_words(old(words)@, payload));
                        lemma_moves_compose(
                            *old(data),
                            decided,
                            *data,
                            Error::width(),
                            (n * size) as nat,
                        );
                    }
                    return Err(fallback_error::<Error>());
                },
            }
            i = i + 1;
        }
        proof {
            assert forall|j: int| 0 <= j < n implies #[trigger] words@[j] == served_words(
                old(words)@,
                payload,
            )[j] by {
                assert((j + 1) * size <= n * size) by (nonlinear_arith)
                    requires
                        j < n,
                        size >= 1,
                ;
            }
            assert(words@ =~= served_words(old(words)@, payload));
            lemma_moves_compose(
                *old(data),
                decided,
                *data,
                Error::width(),
                (n * size) as nat,
            );
        }
        Ok(())
    }

    /// Reads words from the bus into `words`, from where the shared input
    /// stands; a refused claim reads as exhausted input.
    pub fn read(&mut self, words: &mut [Word]) -> (outcome: Result<(), Error>)
        ensures
            final(self).input() == old(self).input(),
            old(self).input().buffer().len() == 0 ==> outcome == Err::<(), Error>(
                Error::fallback(),
            ) && final(words)@ == old(words)@,
            exists|position: nat|
                {
                    let unread = #[trigger] old(self).input().unread_from(position);
                    &&& position <= old(self).input().buffer().len()
                    &&& outcome == words_read::<Word>(old(words)@.len(), unread)
                    &&& final(words)@ == words_after(old(words)@, unread)
                },
    {
        match self.data.try_claim() {
            Some(claim) => {
                let mut claim = claim;
                let ghost position = claim.cursor().position();
                let outcome = Self::receive(claim.cursor_mut(), words);
                claim.release();
                assert(outcome == words_read::<Word>(
                    old(words)@.len(),
                    old(self).input().unread_from(position),
                ));
                outcome
            },
            None => {
                let outcome = Err(fallback_error::<Error>());
                proof {
                    let end = old(self).input().buffer().len();
                    assert(outcome == words_read::<Word>(
                        old(words)@.len(),
                        old(self).input().unread_from(end),
                    ));
                }
                outcome
            },
        }
    }

    /// Writes `words` to the bus. They are not looked at: only the policy
    /// decides whether the write fails.
    pub fn write(&mut self, _words: &[Word]) -> (outcome: Result<(), Error>)
        ensures
            final(self).input() == old(self).input(),
            old(self).input().buffer().len() == 0 ==> outcome == Err::<(), Error>(
                Error::fallback(),
            ),
            exists|position: nat|
                position <= old(self).input().buffer().len() && outcome == checked::<Error>(
                    #[trigger] old(self).input().unread_from(position),
                ),
    {
        self.flush()
    }

    /// Writes `write` to the bus while reading into `read`. What is written
    /// takes nothing from the input, so this is `read`.
    pub fn transfer(&mut self, read: &mut [Word], _write: &[Word]) -> (outcome: Result<(), Error>)
        ensures
            final(self).input() == old(self).input(),
            old(self).input().buffer().len() == 0 ==> outcome == Err::<(), Error>(
                Error::fallback(),
            ) && final(read)@ == old(read)@,
            exists|position: nat|
                {
                    let unread = #[trigger] old(self).input().unread_from(position);
                    &&& position <= old(self).input().buffer().len()
                    &&& outcome == words_read::<Word>(old(read)@.len(), unread)
                    &&& final(read)@ == words_after(old(read)@, unread)
                },
    {
        self.read(read)
    }

    /// Writes `words` to the bus and replaces them by what is read. What is
    /// written takes nothing from the input, so this is `read`.
    pub fn transfer_in_place(&mut self, words: &mut [Word]) -> (outcome: Result<(), Error>)
        ensures
            final(self).input() == old(self).input(),
            old(self).input().buffer().len() == 0 ==> outcome == Err::<(), Error>(
                Error::fallback(),
            ) && final(words)@ == old(words)@,
            exists|position: nat|
                {
                    let unread = #[trigger] old(self).input().unread_from(position);
                    &&& position <= old(self).input().buffer().len()
                    &&& outcome == words_read::<Word>(old(words)@.len(), unread)
                    &&& final(words)@ == words_after(old(words)@, unread)
                },
    {
        self.read(words)
    }

    /// Waits until the bus is idle, which it always is: only the policy
    /// decides whether the flush fails.
    pub fn flush(&mut self) -> (outcome: Result<(), Error>)
        ensures
            final(self).input() == old(self).input(),
            old(self).input().buffer().len() == 0 ==> outcome == Err::<(), Error>(
                Error::fallback(),
            ),
            exists|position: nat|
                position <= old(self).input().buffer().len() && outcome == checked::<Error>(
                    #[trigger] old(self).input().unread_from(position),
                ),
    {
        match self.data.try_claim() {
            Some(claim) => {
                let mut claim = claim;
                let ghost position = claim.cursor().position();
                let outcome = Error::maybe_err(claim.cursor_mut());
                claim.release();
                assert(outcome == checked::<Error>(old(self).input().unread_from(position)));
                outcome
            },
            None => {
                let outcome = Err(fallback_error::<Error>());
                proof {
                    let end = old(self).input().buffer().len();
                    assert(outcome == checked::<Error>(old(self).input().unread_from(end)));
                }
                outcome
            },
        }
    }
}

} // verus!
