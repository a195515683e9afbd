//! The error-injection policy: the rule that decides, before an operation
//! decodes anything, whether the operation fails and with which error.

use crate::cursor::{rest_after, Cursor};
use vstd::prelude::*;

verus! {

/// Whether a decision byte injects an error: it does when its lowest bit is
/// clear, which is the case for 128 of the 256 byte values.
pub open spec fn injects(byte: u8) -> bool {
    byte % 2 == 0
}

/// Tests a decision byte.
pub fn injects_error(byte: u8) -> (hit: bool)
    ensures
        hit == injects(byte),
{
    assert((byte & 0x01 == 0) == (byte % 2 == 0)) by (bit_vector);
    byte & 0x01 == 0
}

/// An error type that can be injected into the operations of a peripheral.
///
/// An implementation fixes how many bytes a decision reads and what it
/// decides on them. A policy should inject an error for about half of its
/// inputs: one that always fails, or never does, leaves a driver tested on
/// one path only.
pub trait FuzzedError: Sized + Default {
    /// How many bytes one decision reads. Never zero, so that every decision
    /// moves the cursor on while bytes are left.
    spec fn width() -> nat;

    /// The error reported when the data runs out: the value of `default()`.
    spec fn fallback() -> Self;

    /// The decision on `width()` bytes: an error to inject, or none.
    spec fn decide(bytes: Seq<u8>) -> Option<Self>;

    /// What every policy owes: it reads at least one byte, and `default()`
    /// returns the fallback error and nothing else.
    proof fn lemma_policy()
        ensures
            Self::width() >= 1,
            forall|e: Self| #[trigger] Self::default.ensures((), e) ==> e == Self::fallback(),
    ;

    /// Decides on the next `width()` bytes of `data` whether to inject an
    /// error. Where fewer bytes are left it takes them and reports the
    /// fallback error.
    fn new_err(data: &mut Cursor<'_>) -> (outcome: Option<Self>)
        ensures
            outcome == if old(data)@.len() < Self::width() {
                Some(Self::fallback())
            } else {
                Self::decide(old(data)@.take(Self::width() as int))
            },
            old(data).moved_to(*final(data), Self::width()),
    ;
}

/// The decision of the policy `E` when `unread` is what the cursor has left.
pub open spec fn injected<E: FuzzedError>(unread: Seq<u8>) -> Option<E> {
    if unread.len() < E::width() {
        Some(E::fallback())
    } else {
        E::decide(unread.take(E::width() as int))
    }
}

/// The bytes left once the policy `E` has decided.
pub open spec fn after_policy<E: FuzzedError>(unread: Seq<u8>) -> Seq<u8> {
    rest_after(unread, E::width())
}

/// The fallback error of `E`.
pub fn fallback_error<E: FuzzedError>() -> (e: E)
    ensures
        e == E::fallback(),
{
    let e = E::default();
    proof {
        E::lemma_policy();
    }
    e
}

/// The policy for callers that only tell success from failure: one byte,
/// and an error when its lowest bit is clear.
impl FuzzedError for () {
    open spec fn width() -> nat {
        1
    }

    open spec fn fallback() -> Self {
        ()
    }

    open spec fn decide(bytes: Seq<u8>) -> Option<Self> {
        if injects(bytes[0]) {
            Some(())
        } else {
            None
        }
    }

    proof fn lemma_policy() {
    }

    fn new_err(data: &mut Cursor<'_>) -> (outcome: Option<Self>) {
        match data.next_byte() {
            Some(byte) => {
                assert(old(data)@.take(1)[0] == old(data)@[0]);
                if injects_error(byte) {
                    Some(())
                } else {
                    None
                }
            },
            None => Some(()),
        }
    }
}

/// How many of the byte values below `bound` make the policy `E` inject an
/// error when they are all that the decision reads.
pub open spec fn errors_below<E: FuzzedError>(bound: nat) -> nat
    decreases bound,
{
    if bound == 0 {
        0
    } else {
        let byte = (bound - 1) as u8;
        errors_below::<E>((bound - 1) as nat) + if injected::<E>(seq![byte]).is_some() {
            1nat
        } else {
            0nat
        }
    }
}

/// A policy that reads one byte and injects an error exactly on the bytes
/// with a clear lowest bit fails on half of every even-sized range of byte
/// values that starts at zero.
pub proof fn lemma_parity_policy_errs_on_half<E: FuzzedError>(pairs: nat)
    requires
        E::width() == 1,
        forall|byte: u8| (#[trigger] E::decide(seq![byte])).is_some() == injects(byte),
        2 * pairs <= 256,
    ensures
        errors_below::<E>(2 * pairs) == pairs,
    decreases pairs,
{
    if pairs > 0 {
        lemma_parity_policy_errs_on_half::<E>((pairs - 1) as nat);
        let odd = (2 * pairs - 1) as u8;
        let even = (2 * pairs - 2) as u8;
        assert(seq![odd].take(1) =~= seq![odd]);
        assert(seq![even].take(1) =~= seq![even]);
        assert(injected::<E>(seq![odd]) == E::decide(seq![odd]));
        assert(injected::<E>(seq![even]) == E::decide(seq![even]));
        assert(errors_below::<E>(2 * pairs) == errors_below::<E>((2 * pairs - 1) as nat));
        assert(errors_below::<E>((2 * pairs - 1) as nat) == errors_below::<E>(
            (2 * pairs - 2) as nat,
        ) + 1);
    }
}

/// Of the 256 byte values, the unit policy injects an error for exactly 128.
pub proof fn lemma_unit_policy_errs_on_half()
    ensures
        errors_below::<()>(256) == 128,
{
    assert forall|byte: u8| (#[trigger] <() as FuzzedError>::decide(seq![byte])).is_some()
        == injects(byte) by {
        assert(seq![byte][0] == byte);
    }
    lemma_parity_policy_errs_on_half::<()>(128);
}

/// The failure of an operation that may also report that it has nothing to
/// give yet.
#[derive(Debug, PartialEq, Eq)]
pub enum Blocking<E> {
    /// The operation failed with an error of the peripheral.
    Other(E),
    /// The operation has no data yet; the caller may try again.
    WouldBlock,
}

} // verus!
