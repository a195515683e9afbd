//! The read position over one buffer of fuzz input.
//!
//! A [`Cursor`] hands the bytes of its buffer out once, front to back. Every
//! peripheral decodes its results from the bytes a cursor gives it, so the
//! contracts of the whole crate are stated over the cursor's view: the
//! sequence of bytes that have not been handed out yet.

use vstd::prelude::*;

verus! {

/// The bytes that a request for `n` bytes receives when `unread` is what is
/// left: the first `n`, or all of them where fewer are left.
pub open spec fn chunk_of(unread: Seq<u8>, n: nat) -> Seq<u8> {
    unread.take(vstd::math::min(n as int, unread.len() as int))
}

/// The bytes that are left after a request for `n` bytes was served.
pub open spec fn rest_after(unread: Seq<u8>, n: nat) -> Seq<u8> {
    unread.skip(vstd::math::min(n as int, unread.len() as int))
}

/// The byte that a request for one byte receives, if any is left.
pub open spec fn first_of(unread: Seq<u8>) -> Option<u8> {
    if unread.len() > 0 {
        Some(unread[0])
    } else {
        None
    }
}

/// The sum of a sequence of request sizes.
pub open spec fn total(requests: Seq<nat>) -> nat
    decreases requests.len(),
{
    if requests.len() == 0 {
        0
    } else {
        requests[0] + total(requests.skip(1))
    }
}

/// All bytes handed out, in order, when `requests` are served one after the
/// other starting from `unread`.
pub open spec fn served(unread: Seq<u8>, requests: Seq<nat>) -> Seq<u8>
    decreases requests.len(),
{
    if requests.len() == 0 {
        Seq::empty()
    } else {
        chunk_of(unread, requests[0]) + served(
            rest_after(unread, requests[0]),
            requests.skip(1),
        )
    }
}

/// The bytes left after `requests` were served one after the other.
pub open spec fn left_after(unread: Seq<u8>, requests: Seq<nat>) -> Seq<u8>
    decreases requests.len(),
{
    if requests.len() == 0 {
        unread
    } else {
        left_after(rest_after(unread, requests[0]), requests.skip(1))
    }
}

/// A read position over a borrowed buffer of input bytes.
///
/// The position only moves forward, and never past the end of the buffer.
#[derive(Debug)]
pub struct Cursor<'a> {
    data: &'a [u8],
    pos: usize,
}

impl<'a> View for Cursor<'a> {
    type V = Seq<u8>;

    /// The bytes that have not been handed out yet.
    open spec fn view(&self) -> Seq<u8> {
        self.buffer().skip(self.position() as int)
    }
}

impl<'a> Cursor<'a> {
    #[verifier::type_invariant]
    spec fn in_bounds(self) -> bool {
        self.pos <= self.data@.len()
    }

    /// The whole input buffer, read or not.
    pub closed spec fn buffer(self) -> Seq<u8> {
        self.data@
    }

    /// How many bytes of the buffer have been handed out.
    pub closed spec fn position(self) -> nat {
        self.pos as nat
    }

    /// Whether `next` is this cursor after a request for `n` bytes: the same
    /// buffer, the position moved past the bytes that the request received.
    pub open spec fn moved_to(self, next: Self, n: nat) -> bool {
        &&& next.buffer() == self.buffer()
        &&& next.position() == self.position() + vstd::math::min(n as int, self@.len() as int)
        &&& next@ == rest_after(self@, n)
    }

    /// A cursor at the start of `data`.
    pub fn new(data: &'a [u8]) -> (cursor: Self)
        ensures
            cursor.buffer() == data@,
            cursor.position() == 0,
            cursor@ == data@,
    {
        Cursor { data, pos: 0 }
    }

    /// A cursor over `data` that has already handed out the first `position`
    /// bytes. A position past the end counts as the end.
    pub fn resume(data: &'a [u8], position: usize) -> (cursor: Self)
        ensures
            cursor.buffer() == data@,
            cursor.position() == vstd::math::min(position as int, data@.len() as int),
    {
        if position <= data.len() {
            Cursor { data, pos: position }
        } else {
            Cursor { data, pos: data.len() }
        }
    }

    /// How many bytes have been handed out.
    pub fn consumed(&self) -> (n: usize)
        ensures
            n == self.position(),
            n <= self.buffer().len(),
    {
        proof {
            use_type_invariant(self);
        }
        self.pos
    }

    /// How many bytes are left.
    pub fn remaining(&self) -> (n: usize)
        ensures
            n == self@.len(),
            self.position() + n == self.buffer().len(),
    {
        proof {
            use_type_invariant(self);
        }
        self.data.len() - self.pos
    }

    /// Hands out the next `n` bytes and moves past them. Where fewer than `n`
    /// are left, hands out what is left; the caller sees from the length that
    /// the data ran out.
    pub fn next_chunk(&mut self, n: usize) -> (chunk: &'a [u8])
        ensures
            chunk@ == chunk_of(old(self)@, n as nat),
            chunk@.len() == vstd::math::min(n as int, old(self)@.len() as int),
            old(self).moved_to(*final(self), n as nat),
    {
        proof {
            use_type_invariant(&*self);
        }
        let left = self.data.len() - self.pos;
        let take = if n <= left {
            n
        } else {
            left
        };
        let start = self.pos;
        let chunk = vstd::slice::slice_subrange(self.data, start, start + take);
        self.pos = start + take;
        proof {
            let buffer = self.data@;
            assert(chunk@ =~= buffer.skip(start as int).take(take as int));
            assert(buffer.skip((start + take) as int) =~= buffer.skip(start as int).skip(
                take as int,
            ));
        }
        chunk
    }

    /// Hands out the next byte, if one is left.
    pub fn next_byte(&mut self) -> (byte: Option<u8>)
        ensures
            byte == first_of(old(self)@),
            old(self).moved_to(*final(self), 1),
    {
        let chunk = self.next_chunk(1);
        if chunk.len() == 1 {
            Some(chunk[0])
        } else {
            None
        }
    }
}

/// Copies `source` over `target`, which has the same length.
pub(crate) fn copy_into(target: &mut [u8], source: &[u8])
    requires
        old(target)@.len() == source@.len(),
    ensures
        final(target)@ == source@,
{
    let n = source.len();
    let mut i: usize = 0;
    while i < n
        invariant
            i <= n,
            n == source@.len(),
            target@.len() == n,
            forall|j: int| 0 <= j < i ==> target@[j] == source@[j],
        decreases n - i,
    {
        target[i] = source[i];
        i = i + 1;
    }
    assert(target@ =~= source@);
}

/// Two requests served one after the other receive adjoining bytes: together
/// they hand out, and leave, exactly what one request for the sum would. No
/// byte is handed out twice and none is skipped, whoever makes the requests.
pub proof fn lemma_requests_adjoin(unread: Seq<u8>, first: nat, second: nat)
    ensures
        chunk_of(unread, first) + chunk_of(rest_after(unread, first), second) == chunk_of(
            unread,
            first + second,
        ),
        rest_after(rest_after(unread, first), second) == rest_after(unread, first + second),
{
    let a = vstd::math::min(first as int, unread.len() as int);
    let rest = rest_after(unread, first);
    let b = vstd::math::min(second as int, rest.len() as int);
    let c = vstd::math::min((first + second) as int, unread.len() as int);
    assert(c == a + b);
    assert(chunk_of(unread, first) + chunk_of(rest, second) =~= chunk_of(unread, first + second));
    assert(rest_after(rest, second) =~= rest_after(unread, first + second));
}

/// A cursor that served one request and then another stands where a single
/// request for the sum would have left it.
pub proof fn lemma_moves_compose(
    start: Cursor<'_>,
    middle: Cursor<'_>,
    end: Cursor<'_>,
    first: nat,
    second: nat,
)
    requires
        start.moved_to(middle, first),
        middle.moved_to(end, second),
    ensures
        start.moved_to(end, first + second),
{
    lemma_requests_adjoin(start@, first, second);
}

/// A cursor never moves back: after a request it stands at or past where it
/// stood, and what it has left is the tail of what it had.
pub proof fn lemma_moves_forward(start: Cursor<'_>, end: Cursor<'_>, n: nat)
    requires
        start.moved_to(end, n),
    ensures
        end.position() >= start.position(),
        end@.len() <= start@.len(),
        end@ == start@.skip(start@.len() - end@.len()),
{
}

/// A request for nothing, or on a cursor that has nothing left, leaves the
/// cursor where it stands.
pub proof fn lemma_stays(cursor: Cursor<'_>, n: nat)
    requires
        n == 0 || cursor@.len() == 0,
    ensures
        cursor.moved_to(cursor, n),
{
    assert(cursor@.skip(0) =~= cursor@);
}

/// Any run of requests, served in the order in which they are made, hands out
/// the unread bytes front to back: the bytes served are those that a single
/// request for the total would receive, and so are the bytes left.
pub proof fn lemma_requests_in_order(unread: Seq<u8>, requests: Seq<nat>)
    ensures
        served(unread, requests) == chunk_of(unread, total(requests)),
        left_after(unread, requests) == rest_after(unread, total(requests)),
        served(unread, requests) + left_after(unread, requests) == unread,
    decreases requests.len(),
{
    if requests.len() == 0 {
        assert(served(unread, requests) =~= chunk_of(unread, 0));
        assert(left_after(unread, requests) =~= rest_after(unread, 0));
    } else {
        let first = requests[0];
        let rest = rest_after(unread, first);
        lemma_requests_in_order(rest, requests.skip(1));
        lemma_requests_adjoin(unread, first, total(requests.skip(1)));
    }
    assert(chunk_of(unread, total(requests)) + rest_after(unread, total(requests)) =~= unread);
}

/// Serving the requests of two callers in the order in which they were made
/// is serving their concatenation: the second caller goes on where the first
/// stopped.
pub proof fn lemma_requests_concatenate(unread: Seq<u8>, first: Seq<nat>, second: Seq<nat>)
    ensures
        served(unread, first + second) == served(unread, first) + served(
            left_after(unread, first),
            second,
        ),
        left_after(unread, first + second) == left_after(left_after(unread, first), second),
    decreases first.len(),
{
    if first.len() == 0 {
        assert(first + second =~= second);
        assert(served(unread, first) + served(unread, second) =~= served(unread, second));
    } else {
        let rest = rest_after(unread, first[0]);
        assert((first + second).skip(1) =~= first.skip(1) + second);
        lemma_requests_concatenate(rest, first.skip(1), second);
        assert(chunk_of(unread, first[0]) + (served(rest, first.skip(1)) + served(
            left_after(rest, first.skip(1)),
            second,
        )) =~= (chunk_of(unread, first[0]) + served(rest, first.skip(1))) + served(
            left_after(rest, first.skip(1)),
            second,
        ));
    }
}

} // verus!
