//! What the crate takes from `arbitrary`: a choice made by unstructured
//! input.

use arbitrary::Unstructured;
use vstd::prelude::*;

verus! {

/// `arbitrary::Unstructured`, as a type whose inside the proofs never see.
#[verifier::external_type_specification]
#[verifier::external_body]
pub struct ExUnstructured<'a>(Unstructured<'a>);

/// The bytes that unstructured input has left to give.
pub uninterp spec fn unread(u: Unstructured<'_>) -> Seq<u8>;

/// The index that `Unstructured::choose_index` chooses among `len` when
/// `unread` is what the input has left.
pub uninterp spec fn chosen(unread: Seq<u8>, len: usize) -> Option<usize>;

/// Whether `after` is `before` with some bytes taken from the front.
pub open spec fn read_on(before: Unstructured<'_>, after: Unstructured<'_>) -> bool {
    exists|taken: int|
        0 <= taken <= unread(before).len() && unread(after) == #[trigger] unread(before).skip(
            taken,
        )
}

/// `Unstructured::choose_index`: an index below `len` that the input chooses,
/// or `None` in place of its error. What is chosen goes by the bytes that the
/// input has left and by `len`, and by nothing else. The call fails only when
/// there is nothing to choose from: input that has run out chooses the first
/// index. The bytes that the choice reads are taken from the front of the
/// input.
#[verifier::external_body]
pub(crate) fn choose_index(u: &mut Unstructured<'_>, len: usize) -> (index: Option<usize>)
    ensures
        index == chosen(unread(*old(u)), len),
        len > 0 ==> index.is_some(),
        index matches Some(i) ==> i < len,
        read_on(*old(u), *final(u)),
{
    u.choose_index(len).ok()
}

} // verus!
