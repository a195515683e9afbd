//! Values decoded from the next bytes of the input: the little-endian words
//! that register-oriented peripherals return.

use crate::cursor::Cursor;
use crate::error::injected;
use vstd::prelude::*;

verus! {

/// The number that `bytes` spell, least significant byte first.
pub open spec fn le_value(bytes: Seq<u8>) -> nat
    decreases bytes.len(),
{
    if bytes.len() == 0 {
        0
    } else {
        bytes[0] as nat + 256 * le_value(bytes.skip(1))
    }
}

/// The `width` bytes that spell `value`, least significant byte first.
pub open spec fn le_bytes(value: nat, width: nat) -> Seq<u8>
    decreases width,
{
    if width == 0 {
        Seq::empty()
    } else {
        seq![(value % 256) as u8] + le_bytes(value / 256, (width - 1) as nat)
    }
}

/// How many numbers `width` bytes can spell: 256 to the power `width`.
pub open spec fn span(width: nat) -> nat
    decreases width,
{
    if width == 0 {
        1
    } else {
        256 * span((width - 1) as nat)
    }
}

/// The spans of the word widths that this crate decodes.
pub proof fn lemma_span_of_words()
    ensures
        span(1) == 0x100,
        span(2) == 0x1_0000,
        span(4) == 0x1_0000_0000,
        span(8) == 0x1_0000_0000_0000_0000,
        span(16) == 0x1_0000_0000_0000_0000_0000_0000_0000_0000,
{
    reveal_with_fuel(span, 17);
}

/// More bytes spell more numbers.
pub proof fn lemma_span_grows(narrow: nat, wide: nat)
    requires
        narrow <= wide,
    ensures
        1 <= span(narrow) <= span(wide),
    decreases wide,
{
    if wide == 0 {
    } else if narrow == wide {
        lemma_span_grows((narrow - 1) as nat, (wide - 1) as nat);
    } else {
        lemma_span_grows(narrow, (wide - 1) as nat);
    }
}

/// The number that bytes spell is below the span of their count.
pub proof fn lemma_le_value_bound(bytes: Seq<u8>)
    ensures
        le_value(bytes) < span(bytes.len()),
    decreases bytes.len(),
{
    if bytes.len() > 0 {
        lemma_le_value_bound(bytes.skip(1));
    }
}

/// Encoding never makes more or fewer bytes than asked for.
pub proof fn lemma_le_bytes_len(value: nat, width: nat)
    ensures
        le_bytes(value, width).len() == width,
    decreases width,
{
    if width > 0 {
        lemma_le_bytes_len(value / 256, (width - 1) as nat);
    }
}

/// A number that fits in `width` bytes, written out least significant byte
/// first and decoded again, is the number that was written.
pub proof fn lemma_le_round_trip(value: nat, width: nat)
    requires
        value < span(width),
    ensures
        le_bytes(value, width).len() == width,
        le_value(le_bytes(value, width)) == value,
    decreases width,
{
    lemma_le_bytes_len(value, width);
    if width > 0 {
        let rest = le_bytes(value / 256, (width - 1) as nat);
        let bytes = le_bytes(value, width);
        lemma_le_round_trip(value / 256, (width - 1) as nat);
        assert(bytes.skip(1) =~= rest);
        assert(bytes[0] == (value % 256) as u8);
    }
}

/// Bytes, decoded and written out again with the same width, are the bytes
/// that were decoded: no two byte strings of one length spell one number.
pub proof fn lemma_le_bytes_of_value(bytes: Seq<u8>)
    ensures
        le_bytes(le_value(bytes), bytes.len()) == bytes,
    decreases bytes.len(),
{
    if bytes.len() > 0 {
        let value = le_value(bytes);
        let high = le_value(bytes.skip(1));
        lemma_le_bytes_of_value(bytes.skip(1));
        assert(value == bytes[0] as nat + 256 * high);
        assert(value % 256 == bytes[0] as nat && value / 256 == high);
        assert(le_bytes(value, bytes.len()) =~= bytes);
    } else {
        assert(le_bytes(le_value(bytes), bytes.len()) =~= bytes);
    }
}

/// Decodes up to sixteen bytes, least significant byte first.
pub fn le_decode(bytes: &[u8]) -> (value: u128)
    requires
        bytes@.len() <= 16,
    ensures
        value == le_value(bytes@),
        value < span(bytes@.len()),
{
    let n = bytes.len();
    let mut value: u128 = 0;
    let mut i: usize = n;
    proof {
        assert(bytes@.skip(n as int) =~= Seq::<u8>::empty());
    }
    while i > 0
        invariant
            n == bytes@.len(),
            n <= 16,
            i <= n,
            value == le_value(bytes@.skip(i as int)),
        decreases i,
    {
        let ghost tail = bytes@.skip(i as int);
        i = i - 1;
        proof {
            let suffix = bytes@.skip(i as int);
            assert(suffix.skip(1) =~= tail);
            assert(suffix[0] == bytes@[i as int]);
            lemma_le_value_bound(tail);
            lemma_le_value_bound(suffix);
            lemma_span_grows(suffix.len(), 16);
            lemma_span_of_words();
        }
        value = value * 256 + bytes[i] as u128;
    }
    proof {
        assert(bytes@.skip(0) =~= bytes@);
        lemma_le_value_bound(bytes@);
    }
    value
}

/// The decision of the policy `E` as a result: the injected error, or leave
/// to go on.
pub open spec fn checked<E: crate::error::FuzzedError>(unread: Seq<u8>) -> Result<(), E> {
    match injected::<E>(unread) {
        Some(e) => Err(e),
        None => Ok(()),
    }
}

/// An error-injection policy asked in the form of a result, so that an
/// operation can hand an injected error on as its own failure. Every policy
/// can be asked in this form.
pub trait FuzzedError: crate::error::FuzzedError {
    /// Decides on the next bytes of `data` whether the operation fails.
    fn maybe_err(data: &mut Cursor<'_>) -> (outcome: Result<(), Self>)
        ensures
            outcome == checked::<Self>(old(data)@),
            old(data).moved_to(*final(data), Self::width()),
    ;
}

impl<E: crate::error::FuzzedError> FuzzedError for E {
    fn maybe_err(data: &mut Cursor<'_>) -> (outcome: Result<(), Self>) {
        match E::new_err(data) {
            Some(e) => Err(e),
            None => Ok(()),
        }
    }
}

/// The failure to decode a value: the input ran out before the value was
/// complete.
#[derive(Debug, Clone, Copy, PartialEq, Eq)]
pub struct ConversionError;

/// A value that is decoded from a fixed number of input bytes.
pub trait Fuzzed: Sized {
    /// How many bytes one value takes. Never zero.
    spec fn size() -> nat;

    /// The value that `size()` bytes decode to.
    spec fn decoded(bytes: Seq<u8>) -> Self;

    /// Every value takes at least one byte.
    proof fn lemma_size()
        ensures
            Self::size() >= 1,
    ;

    /// Decodes the next `size()` bytes of `data`. Where fewer bytes are left
    /// it takes them and fails.
    fn new_fuzzed(data: &mut Cursor<'_>) -> (outcome: Result<Self, ConversionError>)
        ensures
            outcome == if old(data)@.len() >= Self::size() {
                Ok::<Self, ConversionError>(Self::decoded(old(data)@.take(Self::size() as int)))
            } else {
                Err(ConversionError)
            },
            old(data).moved_to(*final(data), Self::size()),
    ;
}

/// What decoding a `T` gives when `unread` is what the cursor has left.
pub open spec fn fuzzed<T: Fuzzed>(unread: Seq<u8>) -> Result<T, ConversionError> {
    if unread.len() >= T::size() {
        Ok(T::decoded(unread.take(T::size() as int)))
    } else {
        Err(ConversionError)
    }
}

/// Takes the next `N` bytes of `data` as an array. Where fewer bytes are
/// left it takes them and fails.
pub fn try_get_buffer<const N: usize>(data: &mut Cursor<'_>) -> (outcome: Result<
    [u8; N],
    ConversionError,
>)
    ensures
        old(data)@.len() >= N ==> outcome.is_ok() && outcome.unwrap()@ == old(data)@.take(
            N as int,
        ),
        old(data)@.len() < N ==> outcome == Err::<[u8; N], ConversionError>(ConversionError),
        old(data).moved_to(*final(data), N as nat),
{
    let chunk = data.next_chunk(N);
    if chunk.len() < N {
        return Err(ConversionError);
    }
    let mut buffer = [0u8; N];
    let mut i: usize = 0;
    while i < N
        invariant
            i <= N,
            chunk@.len() == N,
            buffer@.len() == N,
            forall|j: int| 0 <= j < i ==> buffer@[j] == chunk@[j],
        decreases N - i,
    {
        buffer[i] = chunk[i];
        i = i + 1;
    }
    assert(buffer@ =~= chunk@);
    Ok(buffer)
}

impl Fuzzed for u8 {
    open spec fn size() -> nat {
        1
    }

    open spec fn decoded(bytes: Seq<u8>) -> Self {
        bytes[0]
    }

    proof fn lemma_size() {
    }

    fn new_fuzzed(data: &mut Cursor<'_>) -> (outcome: Result<Self, ConversionError>) {
        match data.next_byte() {
            Some(byte) => {
                assert(old(data)@.take(1)[0] == old(data)@[0]);
                Ok(byte)
            },
            None => Err(ConversionError),
        }
    }
}

impl Fuzzed for u16 {
    open spec fn size() -> nat {
        2
    }

    open spec fn decoded(bytes: Seq<u8>) -> Self {
        le_value(bytes) as u16
    }

    proof fn lemma_size() {
    }

    fn new_fuzzed(data: &mut Cursor<'_>) -> (outcome: Result<Self, ConversionError>) {
        match try_get_buffer::<2>(data) {
            Ok(buffer) => {
                let value = le_decode(buffer.as_slice());
                proof {
                    lemma_span_of_words();
                }
                Ok(value as u16)
            },
            Err(e) => Err(e),
        }
    }
}

impl Fuzzed for u32 {
    open spec fn size() -> nat {
        4
    }

    open spec fn decoded(bytes: Seq<u8>) -> Self {
        le_value(bytes) as u32
    }

    proof fn lemma_size() {
    }

    fn new_fuzzed(data: &mut Cursor<'_>) -> (outcome: Result<Self, ConversionError>) {
        match try_get_buffer::<4>(data) {
            Ok(buffer) => {
                let value = le_decode(buffer.as_slice());
                proof {
                    lemma_span_of_words();
                }
                Ok(value as u32)
            },
            Err(e) => Err(e),
        }
    }
}

impl Fuzzed for u64 {
    open spec fn size() -> nat {
        8
    }

    open spec fn decoded(bytes: Seq<u8>) -> Self {
        le_value(bytes) as u64
    }

    proof fn lemma_size() {
    }

    fn new_fuzzed(data: &mut Cursor<'_>) -> (outcome: Result<Self, ConversionError>) {
        match try_get_buffer::<8>(data) {
            Ok(buffer) => {
                let value = le_decode(buffer.as_slice());
                proof {
                    lemma_span_of_words();
                }
                Ok(value as u64)
            },
            Err(e) => Err(e),
        }
    }
}

impl Fuzzed for u128 {
    open spec fn size() -> nat {
        16
    }

    open spec fn decoded(bytes: Seq<u8>) -> Self {
        le_value(bytes) as u128
    }

    proof fn lemma_size() {
    }

    fn new_fuzzed(data: &mut Cursor<'_>) -> (outcome: Result<Self, ConversionError>) {
        match try_get_buffer::<16>(data) {
            Ok(buffer) => Ok(le_decode(buffer.as_slice())),
            Err(e) => Err(e),
        }
    }
}

/// A word that fits its width, written out least significant byte first and
/// fed to the decoder, comes back as the word that was written, whatever
/// follows it in the input.
pub proof fn lemma_word_round_trip<T: Fuzzed>(value: nat, rest: Seq<u8>)
    requires
        value < span(T::size()),
    ensures
        fuzzed::<T>(le_bytes(value, T::size()) + rest) == Ok::<T, ConversionError>(
            T::decoded(le_bytes(value, T::size())),
        ),
        le_value(le_bytes(value, T::size())) == value,
{
    let bytes = le_bytes(value, T::size());
    lemma_le_round_trip(value, T::size());
    assert((bytes + rest).take(T::size() as int) =~= bytes);
}

/// A byte fed to the decoder comes back as it is.
pub proof fn lemma_u8_round_trip(word: u8, rest: Seq<u8>)
    ensures
        fuzzed::<u8>(le_bytes(word as nat, 1) + rest) == Ok::<u8, ConversionError>(word),
{
    lemma_span_of_words();
    lemma_word_round_trip::<u8>(word as nat, rest);
    reveal_with_fuel(le_bytes, 2);
}

/// A 16-bit word, written out least significant byte first and fed to the
/// decoder, comes back as it is.
pub proof fn lemma_u16_round_trip(word: u16, rest: Seq<u8>)
    ensures
        fuzzed::<u16>(le_bytes(word as nat, 2) + rest) == Ok::<u16, ConversionError>(word),
{
    lemma_span_of_words();
    lemma_word_round_trip::<u16>(word as nat, rest);
}

/// A 32-bit word, written out least significant byte first and fed to the
/// decoder, comes back as it is.
pub proof fn lemma_u32_round_trip(word: u32, rest: Seq<u8>)
    ensures
        fuzzed::<u32>(le_bytes(word as nat, 4) + rest) == Ok::<u32, ConversionError>(word),
{
    lemma_span_of_words();
    lemma_word_round_trip::<u32>(word as nat, rest);
}

/// A 64-bit word, written out least significant byte first and fed to the
/// decoder, comes back as it is.
pub proof fn lemma_u64_round_trip(word: u64, rest: Seq<u8>)
    ensures
        fuzzed::<u64>(le_bytes(word as nat, 8) + rest) == Ok::<u64, ConversionError>(word),
{
    lemma_span_of_words();
    lemma_word_round_trip::<u64>(word as nat, rest);
}

/// A 128-bit word, written out least significant byte first and fed to the
/// decoder, comes back as it is.
pub proof fn lemma_u128_round_trip(word: u128, rest: Seq<u8>)
    ensures
        fuzzed::<u128>(le_bytes(word as nat, 16) + rest) == Ok::<u128, ConversionError>(word),
{
    lemma_span_of_words();
    lemma_word_round_trip::<u128>(word as nat, rest);
}

} // verus!
