//! A mock I2C bus.

use crate::cursor::{copy_into, lemma_moves_compose, lemma_stays, Cursor};
use crate::error::{
    after_policy, errors_below, fallback_error, injected, injects, injects_error,
    lemma_parity_policy_errs_on_half, FuzzedError,
};
use crate::fuzzed_type::{checked, FuzzedError as MaybeError};
use crate::shared_data::FuzzData;
use crate::unstructured::{choose_index, chosen, read_on, unread};
use arbitrary::Unstructured;
use core::marker::PhantomData;
use vstd::prelude::*;

verus! {

/// Where a missing acknowledge was noticed.
#[derive(Debug, Clone, Copy, PartialEq, Eq)]
pub enum NoAcknowledgeSource {
    /// While the address was sent.
    Address,
    /// While data was sent.
    Data,
    /// The bus cannot tell.
    Unknown,
}

/// The kinds of failure that a bus reports.
#[derive(Debug, Clone, Copy, PartialEq, Eq)]
pub enum ErrorKind {
    /// A start or stop condition at the wrong time.
    Bus,
    /// Another controller won the bus.
    ArbitrationLoss,
    /// The device did not acknowledge.
    NoAcknowledge(NoAcknowledgeSource),
    /// Data was lost before it was read.
    Overrun,
    /// Any other failure.
    Other,
}

/// How many kinds of failure there are.
pub const KINDS: u8 = 7;

/// The kind that a selector picks: the kinds are numbered in the order of
/// their declaration, and the selector counts round them.
pub open spec fn kind_of(selector: nat) -> ErrorKind {
    let index = selector % (KINDS as nat);
    if index == 0 {
        ErrorKind::Bus
    } else if index == 1 {
        ErrorKind::ArbitrationLoss
    } else if index == 2 {
        ErrorKind::NoAcknowledge(NoAcknowledgeSource::Address)
    } else if index == 3 {
        ErrorKind::NoAcknowledge(NoAcknowledgeSource::Data)
    } else if index == 4 {
        ErrorKind::NoAcknowledge(NoAcknowledgeSource::Unknown)
    } else if index == 5 {
        ErrorKind::Overrun
    } else {
        ErrorKind::Other
    }
}

impl ErrorKind {
    /// Picks a kind by number, counting round the kinds.
    pub fn select(selector: usize) -> (kind: ErrorKind)
        ensures
            kind == kind_of(selector as nat),
    {
        match selector % (KINDS as usize) {
            0 => ErrorKind::Bus,
            1 => ErrorKind::ArbitrationLoss,
            2 => ErrorKind::NoAcknowledge(NoAcknowledgeSource::Address),
            3 => ErrorKind::NoAcknowledge(NoAcknowledgeSource::Data),
            4 => ErrorKind::NoAcknowledge(NoAcknowledgeSource::Unknown),
            5 => ErrorKind::Overrun,
            _ => ErrorKind::Other,
        }
    }
}

/// The error whose kind unstructured input chooses when `unread` is what
/// it has left.
pub open spec fn chosen_error(unread: Seq<u8>) -> Error {
    match chosen(unread, KINDS as usize) {
        Some(index) => Error { kind: kind_of(index as nat) },
        None => Error { kind: kind_of(0) },
    }
}

/// A failure of the bus.
#[derive(Debug, Clone, Copy, PartialEq, Eq)]
pub struct Error {
    /// What went wrong.
    pub kind: ErrorKind,
}

impl Error {
    /// What went wrong.
    pub fn kind(&self) -> (kind: ErrorKind)
        ensures
            kind == self.kind,
    {
        self.kind
    }

    /// An error of the kind that `u` chooses. What the choice reads is taken
    /// from the front of `u`.
    pub fn arbitrary(u: &mut Unstructured<'_>) -> (e: Error)
        ensures
            e == chosen_error(unread(*old(u))),
            read_on(*old(u), *final(u)),
    {
        match choose_index(u, KINDS as usize) {
            Some(index) => Error { kind: ErrorKind::select(index) },
            // Not reached: there are kinds to choose from.
            None => Error { kind: ErrorKind::select(0) },
        }
    }
}

impl Default for Error {
    fn default() -> (e: Self)
        ensures
            e == (Error { kind: ErrorKind::Other }),
    {
        Error { kind: ErrorKind::Other }
    }
}

/// The policy of the bus reads one byte. A byte with a clear lowest bit
/// injects an error, and its other seven bits select the kind.
impl FuzzedError for Error {
    open spec fn width() -> nat {
        1
    }

    open spec fn fallback() -> Self {
        Error { kind: ErrorKind::Other }
    }

    open spec fn decide(bytes: Seq<u8>) -> Option<Self> {
        if injects(bytes[0]) {
            Some(Error { kind: kind_of((bytes[0] / 2) as nat) })
        } else {
            None
        }
    }

    proof fn lemma_policy() {
    }

    fn new_err(data: &mut Cursor<'_>) -> (outcome: Option<Self>) {
        match data.next_byte() {
            Some(byte) => {
                assert(old(data)@.take(1)[0] == old(data)@[0]);
                if injects_error(byte) {
                    Some(Error { kind: ErrorKind::select((byte / 2) as usize) })
                } else {
                    None
                }
            },
            None => Some(Error { kind: ErrorKind::Other }),
        }
    }
}

/// Of the 256 byte values, the policy injects an error for exactly 128.
pub proof fn lemma_policy_errs_on_half()
    ensures
        errors_below::<Error>(256) == 128,
{
    assert forall|byte: u8| (#[trigger] <Error as FuzzedError>::decide(seq![byte])).is_some()
        == injects(byte) by {
        assert(seq![byte][0] == byte);
    }
    lemma_parity_policy_errs_on_half::<Error>(128);
}

/// Every kind of failure is injected by some decision byte.
pub proof fn lemma_every_kind_is_injected(kind: ErrorKind)
    ensures
        exists|byte: u8| #[trigger] injected::<Error>(seq![byte]) == Some(Error { kind }),
{
    let index: nat = match kind {
        ErrorKind::Bus => 0,
        ErrorKind::ArbitrationLoss => 1,
        ErrorKind::NoAcknowledge(NoAcknowledgeSource::Address) => 2,
        ErrorKind::NoAcknowledge(NoAcknowledgeSource::Data) => 3,
        ErrorKind::NoAcknowledge(NoAcknowledgeSource::Unknown) => 4,
        ErrorKind::Overrun => 5,
        ErrorKind::Other => 6,
    };
    let byte = (2 * index) as u8;
    assert(seq![byte].take(1)[0] == byte);
    assert(injected::<Error>(seq![byte]) == Some(Error { kind }));
}

/// One step of a transaction, with a buffer of its own.
#[derive(Debug, PartialEq, Eq)]
pub enum Operation {
    /// Read as many bytes from the device as the buffer holds.
    Read(Vec<u8>),
    /// Write the bytes to the device.
    Write(Vec<u8>),
}

/// An operation with its buffer as a sequence of bytes.
pub enum OperationView {
    /// A read into a buffer with these contents.
    Read(Seq<u8>),
    /// A write of these bytes.
    Write(Seq<u8>),
}

impl View for Operation {
    type V = OperationView;

    open spec fn view(&self) -> OperationView {
        match *self {
            Operation::Read(buffer) => OperationView::Read(buffer@),
            Operation::Write(bytes) => OperationView::Write(bytes@),
        }
    }
}

impl DeepView for Operation {
    type V = OperationView;

    open spec fn deep_view(&self) -> OperationView {
        self@
    }
}

/// The transaction that consists of one read into `buffer`.
pub open spec fn one_read(buffer: Seq<u8>) -> Seq<OperationView> {
    seq![OperationView::Read(buffer)]
}

/// How many bytes the reads among the first `upto` operations ask for.
pub open spec fn read_demand(operations: Seq<OperationView>, upto: int) -> nat
    decreases upto,
{
    if upto <= 0 {
        0
    } else {
        read_demand(operations, upto - 1) + match operations[upto - 1] {
            OperationView::Read(buffer) => buffer.len(),
            OperationView::Write(_) => 0,
        }
    }
}

/// The operations after a transaction that had `payload` to read from: each
/// read whose bytes are all there holds the bytes that follow those of the
/// reads before it; every other operation is as it was.
pub open spec fn served_operations(operations: Seq<OperationView>, payload: Seq<u8>) -> Seq<
    OperationView,
> {
    Seq::new(
        operations.len(),
        |k: int|
            match operations[k] {
                OperationView::Read(buffer) => if read_demand(operations, k + 1) <= payload.len() {
                    OperationView::Read(
                        payload.subrange(
                            read_demand(operations, k) as int,
                            read_demand(operations, k + 1) as int,
                        ),
                    )
                } else {
                    OperationView::Read(buffer)
                },
                OperationView::Write(bytes) => OperationView::Write(bytes),
            },
    )
}

/// What a transaction returns when `unread` is what the cursor has left: the
/// injected error if the policy injects one; success if the bytes that follow
/// the decision cover all reads; else the fallback error.
pub open spec fn transacted(operations: Seq<OperationView>, unread: Seq<u8>) -> Result<(), Error> {
    match injected::<Error>(unread) {
        Some(e) => Err(e),
        None => if read_demand(operations, operations.len() as int) <= after_policy::<Error>(
            unread,
        ).len() {
            Ok(())
        } else {
            Err(Error::fallback())
        },
    }
}

/// The operations after a transaction: untouched if an error is injected,
/// else served from the bytes that follow the decision.
pub open spec fn operations_after(operations: Seq<OperationView>, unread: Seq<u8>) -> Seq<
    OperationView,
> {
    if injected::<Error>(unread).is_some() {
        operations
    } else {
        served_operations(operations, after_policy::<Error>(unread))
    }
}

/// How many bytes a transaction asks of the cursor: those of the decision,
/// and those of all reads unless an error is injected.
pub open spec fn transaction_demand(operations: Seq<OperationView>, unread: Seq<u8>) -> nat {
    if injected::<Error>(unread).is_some() {
        Error::width()
    } else {
        Error::width() + read_demand(operations, operations.len() as int)
    }
}

/// Later operations never ask for less than earlier ones.
pub proof fn lemma_read_demand_grows(operations: Seq<OperationView>, from: int, upto: int)
    requires
        from <= upto,
    ensures
        read_demand(operations, from) <= read_demand(operations, upto),
    decreases upto - from,
{
    if from < upto {
        lemma_read_demand_grows(operations, from, upto - 1);
    }
}

/// A bus whose input is exhausted reports the fallback error and leaves
/// every buffer as it is.
pub proof fn lemma_exhausted_input(operations: Seq<OperationView>)
    ensures
        transacted(operations, Seq::empty()) == Err::<(), Error>(Error::fallback()),
        operations_after(operations, Seq::empty()) == operations,
        checked::<Error>(Seq::empty()) == Err::<(), Error>(Error::fallback()),
{
}

/// A mock bus whose devices have addresses of type `T`.
#[derive(Debug)]
pub struct ArbitraryI2c<'a, T> {
    data: FuzzData<'a>,
    _p: PhantomData<T>,
}

impl<'a, T> ArbitraryI2c<'a, T> {
    /// The input that the bus decodes its results from.
    pub closed spec fn input(self) -> FuzzData<'a> {
        self.data
    }

    /// A bus that reads through `data`.
    pub fn new(data: FuzzData<'a>) -> (bus: Self)
        ensures
            bus.input() == data,
    {
        ArbitraryI2c { data, _p: PhantomData }
    }

    /// Runs a transaction on `data`: asks the policy first, then fills the
    /// buffer of each read, in order, with the next bytes. Writes take
    /// nothing from the input. The first read that the input cannot fill
    /// ends the transaction with the fallback error.
    #[verifier::loop_isolation(false)]
    pub fn exchange(data: &mut Cursor<'_>, operations: &mut [Operation]) -> (outcome: Result<
        (),
        Error,
    >)
        ensures
            outcome == transacted(old(operations).deep_view(), old(data)@),
            final(operations).deep_view() == operations_after(
                old(operations).deep_view(),
                old(data)@,
            ),
            old(data).moved_to(
                *final(data),
                transaction_demand(old(operations).deep_view(), old(data)@),
            ),
    {
        let ghost before = operations.deep_view();
        if let Some(e) = Error::new_err(data) {
            return Err(e);
        }
        let ghost decided = *data;
        let ghost payload = data@;
        let n = operations.len();
        let mut k: usize = 0;
        proof {
            lemma_stays(decided, 0);
        }
        while k < n
            invariant
                k <= n,
                n == operations@.len(),
                before.len() == n,
                payload == decided@,
                read_demand(before, k as int) <= payload.len(),
                decided.moved_to(*data, read_demand(before, k as int)),
                forall|j: int|
                    0 <= j < k ==> (#[trigger] operations@[j])@ == served_operations(
                        before,
                        payload,
                    )[j],
                forall|j: int| k <= j < n ==> (#[trigger] operations@[j])@ == before[j],
            decreases n - k,
        {
            let ghost here = *data;
            let ghost so_far = read_demand(before, k as int);
            let wanted = match &operations[k] {
                Operation::Read(buffer) => Some(buffer.len()),
                Operation::Write(_) => None,
            };
            if let Some(len) = wanted {
                let chunk = data.next_chunk(len);
                proof {
                    lemma_moves_compose(decided, here, *data, so_far, len as nat);
                    assert(read_demand(before, k + 1) == so_far + len);
                }
                if chunk.len() < len {
                    proof {
                        assert forall|j: int| 0 <= j < n implies (#[trigger] operations@[j])@
                            == served_operations(before, payload)[j] by {
                            if j >= k {
                                lemma_read_demand_grows(before, k + 1, j + 1);
                            }
                        }
                        lemma_read_demand_grows(before, k + 1, n as int);
                        assert(operations.deep_view() =~= served_operations(before, payload));
                        lemma_moves_compose(
                            *old(data),
                            decided,
                            *data,
                            Error::width(),
                            read_demand(before, n as int),
                        );
                    }
                    return Err(fallback_error::<Error>());
                }
                proof {
                    assert(chunk@ =~= payload.subrange(so_far as int, so_far + len));
                }
                operations[k] = Operation::Read(vstd::slice::slice_to_vec(chunk));
            }
            k = k + 1;
        }
        proof {
            assert(operations.deep_view() =~= served_operations(before, payload));
            lemma_moves_compose(
                *old(data),
                decided,
                *data,
                Error::width(),
                read_demand(before, n as int),
            );
        }
        Ok(())
    }

    /// Reads from `data` into `buffer`: the transaction that consists of this
    /// one read.
    pub fn receive(data: &mut Cursor<'_>, buffer: &mut [u8]) -> (outcome: Result<(), Error>)
        ensures
            outcome == transacted(one_read(old(buffer)@), old(data)@),
            one_read(final(buffer)@) == operations_after(
                one_read(old(buffer)@),
                old(data)@,
            ),
            old(data).moved_to(
                *final(data),
                transaction_demand(one_read(old(buffer)@), old(data)@),
            ),
    {
        let ghost alone = one_read(buffer@);
        proof {
            reveal_with_fuel(read_demand, 2);
            assert(read_demand(alone, 1) == buffer@.len());
        }
        if let Some(e) = Error::new_err(data) {
            return Err(e);
        }
        let ghost decided = *data;
        let chunk = data.next_chunk(buffer.len());
        proof {
            lemma_moves_compose(*old(data), decided, *data, Error::width(), buffer@.len());
        }
        if chunk.len() < buffer.len() {
            proof {
                assert(one_read(buffer@) =~= served_operations(alone, decided@));
            }
            return Err(fallback_error::<Error>());
        }
        copy_into(buffer, chunk);
        proof {
            assert(chunk@ =~= decided@.subrange(0, chunk@.len() as int));
            assert(one_read(buffer@) =~= served_operations(alone, decided@));
        }
        Ok(())
    }

    /// Runs a transaction with the device at `address`, which is not looked
    /// at. The transaction is served from where the shared input stands; a
    /// refused claim reads as exhausted input.
    pub fn transaction(&mut self, _address: T, operations: &mut [Operation]) -> (outcome: Result<
        (),
        Error,
    >)
        ensures
            final(self).input() == old(self).input(),
            old(self).input().buffer().len() == 0 ==> outcome == Err::<(), Error>(
                Error::fallback(),
            ) && final(operations).deep_view() == old(operations).deep_view(),
            exists|position: nat|
                {
                    let unread = #[trigger] old(self).input().unread_from(position);
                    &&& position <= old(self).input().buffer().len()
                    &&& outcome == transacted(old(operations).deep_view(), unread)
                    &&& final(operations).deep_view() == operations_after(
                        old(operations).deep_view(),
                        unread,
                    )
                },
    {
        match self.data.try_claim() {
            Some(claim) => {
                let mut claim = claim;
                let ghost position = claim.cursor().position();
                let outcome = Self::exchange(claim.cursor_mut(), operations);
                claim.release();
                assert(outcome == transacted(
                    old(operations).deep_view(),
                    old(self).input().unread_from(position),
                ));
                outcome
            },
            None => {
                let outcome = Err(fallback_error::<Error>());
                proof {
                    let end = old(self).input().buffer().len();
                    assert(outcome == transacted(
                        old(operations).deep_view(),
                        old(self).input().unread_from(end),
                    ));
                }
                outcome
            },
        }
    }

    /// Reads from the device at `address` into `buffer`: the transaction that
    /// consists of this one read.
    pub fn read(&mut self, _address: T, buffer: &mut [u8]) -> (outcome: Result<(), Error>)
        ensures
            final(self).input() == old(self).input(),
            old(self).input().buffer().len() == 0 ==> outcome == Err::<(), Error>(
                Error::fallback(),
            ) && final(buffer)@ == old(buffer)@,
            exists|position: nat|
                {
                    let unread = #[trigger] old(self).input().unread_from(position);
                    &&& position <= old(self).input().buffer().len()
                    &&& outcome == transacted(one_read(old(buffer)@), unread)
                    &&& one_read(final(buffer)@) == operations_after(one_read(old(buffer)@), unread)
                },
    {
        match self.data.try_claim() {
            Some(claim) => {
                let mut claim = claim;
                let ghost position = claim.cursor().position();
                let outcome = Self::receive(claim.cursor_mut(), buffer);
                claim.release();
                assert(outcome == transacted(
                    one_read(old(buffer)@),
                    old(self).input().unread_from(position),
                ));
                outcome
            },
            None => {
                let outcome = Err(fallback_error::<Error>());
                proof {
                    let end = old(self).input().buffer().len();
                    assert(outcome == transacted(
                        one_read(old(buffer)@),
                        old(self).input().unread_from(end),
                    ));
                }
                outcome
            },
        }
    }

    /// Writes `bytes` to the device at `address`. Neither is looked at: only
    /// the policy decides whether the write fails.
    pub fn write(&mut self, _address: T, _bytes: &[u8]) -> (outcome: Result<(), Error>)
        ensures
            final(self).input() == old(self).input(),
            old(self).input().buffer().len() == 0 ==> outcome == Err::<(), Error>(
                Error::fallback(),
            ),
            exists|position: nat|
                position <= old(self).input().buffer().len() && outcome == checked::<Error>(
                    #[trigger] old(self).input().unread_from(position),
                ),
    {
        match self.data.try_claim() {
            Some(claim) => {
                let mut claim = claim;
                let ghost position = claim.cursor().position();
                let outcome = Error::maybe_err(claim.cursor_mut());
                claim.release();
                assert(outcome == checked::<Error>(old(self).input().unread_from(position)));
                outcome
            },
            None => {
                let outcome = Err(fallback_error::<Error>());
                proof {
                    let end = old(self).input().buffer().len();
                    assert(outcome == checked::<Error>(old(self).input().unread_from(end)));
                }
                outcome
            },
        }
    }

    /// Writes `bytes` to the device at `address`, then reads into `buffer`.
    /// The write takes nothing from the input, so this is `read`.
    pub fn write_read(&mut self, address: T, _bytes: &[u8], buffer: &mut [u8]) -> (outcome: Result<
        (),
        Error,
    >)
        ensures
            final(self).input() == old(self).input(),
            old(self).input().buffer().len() == 0 ==> outcome == Err::<(), Error>(
                Error::fallback(),
            ) && final(buffer)@ == old(buffer)@,
            exists|position: nat|
                {
                    let unread = #[trigger] old(self).input().unread_from(position);
                    &&& position <= old(self).input().buffer().len()
                    &&& outcome == transacted(one_read(old(buffer)@), unread)
                    &&& one_read(final(buffer)@) == operations_after(one_read(old(buffer)@), unread)
                },
    {
        self.read(address, buffer)
    }
}

} // verus!
