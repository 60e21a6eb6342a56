//! The framing of HTTP requests on a connection that is kept alive.

use crate::decimal::{decimal_value, lemma_decimal_prefix, no_byte_below_zero};
use vstd::prelude::*;

verus! {

/// The bytes that a connection can hold back.
pub const BUF_LEN: usize = 4096;

/// Whether a blank line ends just before `p`.
pub open spec fn ends_headers(buf: Seq<u8>, p: int) -> bool {
    &&& 4 <= p <= buf.len()
    &&& buf[p - 4] == '\r' as u8
    &&& buf[p - 3] == '\n' as u8
    &&& buf[p - 2] == '\r' as u8
    &&& buf[p - 1] == '\n' as u8
}

/// Whether `p` is the end of the first blank line.
pub open spec fn is_header_end(buf: Seq<u8>, p: int) -> bool {
    &&& ends_headers(buf, p)
    &&& forall|q: int| q < p ==> !ends_headers(buf, q)
}

/// Where the headers of a request end and its body starts, if the blank line that
/// parts them is there.
pub open spec fn header_end(buf: Seq<u8>) -> Option<int> {
    if exists|p: int| is_header_end(buf, p) {
        Some(choose|p: int| is_header_end(buf, p))
    } else {
        None
    }
}

/// There is only one first blank line.
pub proof fn lemma_header_end_unique(buf: Seq<u8>, p: int)
    requires
        is_header_end(buf, p),
    ensures
        header_end(buf) == Some(p),
{
    let q = choose|q: int| is_header_end(buf, q);
    assert(is_header_end(buf, q));
    assert(!(q < p) && !(p < q));
}

/// Finds the end of the headers: the place after the first blank line.
pub fn find_header_end(buf: &[u8]) -> (end: Option<usize>)
    ensures
        match end {
            Some(p) => header_end(buf@) == Some(p as int) && is_header_end(buf@, p as int),
            None => header_end(buf@) == None::<int> && forall|q: int| !ends_headers(buf@, q),
        },
{
    let len: usize = buf.len();
    if len < 4 {
        return None;
    }
    let mut i: usize = 0;
    while i < len - 3
        invariant
            len == buf@.len(),
            4 <= len,
            i <= len - 3,
            forall|q: int| q < i + 4 ==> !ends_headers(buf@, q),
        decreases len - i,
    {
        if buf[i] == '\r' as u8 && buf[i + 1] == '\n' as u8 && buf[i + 2] == '\r' as u8
            && buf[i + 3] == '\n' as u8 {
            assert(is_header_end(buf@, i + 4));
            proof {
                lemma_header_end_unique(buf@, i + 4);
            }
            return Some(i + 4);
        }
        i += 1;
    }
    None
}

/// Whether a `Content-Length: ` seems to start at `i`: a C, an L where the second
/// word starts, and the space before the value, in either case of letters.
pub open spec fn names_length(headers: Seq<u8>, i: int) -> bool {
    &&& 0 <= i
    &&& i + 16 < headers.len()
    &&& headers[i] == 'C' as u8 || headers[i] == 'c' as u8
    &&& headers[i + 8] == 'L' as u8 || headers[i + 8] == 'l' as u8
    &&& headers[i + 15] == ' ' as u8
}

/// Whether the first length is named at `i`.
pub open spec fn is_length_name(headers: Seq<u8>, i: int) -> bool {
    &&& names_length(headers, i)
    &&& forall|j: int| j < i ==> !names_length(headers, j)
}

pub open spec fn is_digit(b: u8) -> bool {
    '0' as u8 <= b && b <= '9' as u8
}

/// Where the run of digits that starts at `i` ends.
pub open spec fn digits_end(headers: Seq<u8>, i: int) -> int
    decreases headers.len() - i,
{
    if 0 <= i < headers.len() && is_digit(headers[i]) {
        digits_end(headers, i + 1)
    } else {
        i
    }
}

/// The digits that start at `i`.
pub open spec fn digits_at(headers: Seq<u8>, i: int) -> Seq<u8> {
    headers.subrange(i, digits_end(headers, i))
}

/// The length that headers state: the value of the digits after the first name of
/// a length, and 0 where there is none.
pub open spec fn content_length(headers: Seq<u8>) -> int {
    if exists|i: int| is_length_name(headers, i) {
        decimal_value(digits_at(headers, (choose|i: int| is_length_name(headers, i)) + 16))
    } else {
        0
    }
}

/// The length is that of the first name, wherever it is found.
pub proof fn lemma_content_length(headers: Seq<u8>, i: int)
    requires
        is_length_name(headers, i),
    ensures
        content_length(headers) == decimal_value(digits_at(headers, i + 16)),
{
    let j = choose|j: int| is_length_name(headers, j);
    assert(is_length_name(headers, j));
    assert(!(i < j) && !(j < i));
}

proof fn lemma_digits_end(headers: Seq<u8>, i: int, j: int)
    requires
        0 <= i <= j <= headers.len(),
        forall|k: int| i <= k < j ==> is_digit(#[trigger] headers[k]),
    ensures
        digits_end(headers, i) == digits_end(headers, j),
        j <= digits_end(headers, i) <= headers.len(),
        forall|k: int| i <= k < digits_end(headers, i) ==> is_digit(#[trigger] headers[k]),
    decreases headers.len() - i,
{
    if i < j {
        assert(is_digit(headers[i]));
        lemma_digits_end(headers, i + 1, j);
    } else if i < headers.len() && is_digit(headers[i]) {
        lemma_digits_end(headers, i + 1, i + 1);
    }
}

/// A stated length is not below 0.
proof fn lemma_content_length_is_nat(headers: Seq<u8>)
    ensures
        content_length(headers) >= 0,
{
    if exists|i: int| is_length_name(headers, i) {
        let i = choose|i: int| is_length_name(headers, i);
        assert(is_length_name(headers, i));
        lemma_digits_end(headers, i + 16, i + 16);
        let digits = digits_at(headers, i + 16);
        assert forall|k: int| 0 <= k < digits.len() implies #[trigger] digits[k] >= 48 by {
            assert(is_digit(headers[i + 16 + k]));
        }
        lemma_decimal_prefix(digits, 0);
        assert(digits.take(0) =~= Seq::empty());
    }
}

/// The length that headers state, or `None` if it does not fit in `usize`.
pub fn checked_content_length(headers: &[u8]) -> (n: Option<usize>)
    ensures
        match n {
            Some(n) => n == content_length(headers@),
            None => content_length(headers@) > usize::MAX,
        },
{
    let len: usize = headers.len();
    let mut i: usize = 0;
    while i < len && len - i > 16
        invariant
            len == headers@.len(),
            i <= len,
            forall|j: int| j < i ==> !names_length(headers@, j),
        decreases len - i,
    {
        if (headers[i] == 'C' as u8 || headers[i] == 'c' as u8) && (headers[i + 8] == 'L' as u8
            || headers[i + 8] == 'l' as u8) && headers[i + 15] == ' ' as u8 {
            proof {
                assert(is_length_name(headers@, i as int));
                lemma_content_length(headers@, i as int);
            }
            return digits_value(headers, i + 16);
        }
        i += 1;
    }
    Some(0)
}

/// The value of the digits that start at `i`, or `None` if it does not fit.
fn digits_value(headers: &[u8], i: usize) -> (n: Option<usize>)
    requires
        i <= headers@.len(),
    ensures
        match n {
            Some(n) => n == decimal_value(digits_at(headers@, i as int)),
            None => decimal_value(digits_at(headers@, i as int)) > usize::MAX,
        },
{
    let ghost digits = digits_at(headers@, i as int);
    let mut n: usize = 0;
    let mut j: usize = i;
    proof {
        lemma_digits_end(headers@, i as int, i as int);
        assert(headers@.subrange(i as int, i as int) =~= Seq::empty());
    }
    while j < headers.len() && headers[j] >= '0' as u8 && headers[j] <= '9' as u8
        invariant
            i <= j <= headers@.len(),
            digits == digits_at(headers@, i as int),
            forall|k: int| i <= k < j ==> is_digit(#[trigger] headers@[k]),
            n == decimal_value(headers@.subrange(i as int, j as int)),
        decreases headers@.len() - j,
    {
        let digit: usize = (headers[j] - '0' as u8) as usize;
        proof {
            lemma_digits_end(headers@, i as int, j + 1);
            let front = headers@.subrange(i as int, j + 1);
            assert(front.drop_last() =~= headers@.subrange(i as int, j as int));
            assert(no_byte_below_zero(digits));
            lemma_decimal_prefix(digits, j + 1 - i);
            assert(digits.take(j + 1 - i) =~= front);
        }
        n = match n.checked_mul(10) {
            Some(tens) => match tens.checked_add(digit) {
                Some(sum) => sum,
                None => {
                    return None;
                },
            },
            None => {
                return None;
            },
        };
        j += 1;
    }
    proof {
        lemma_digits_end(headers@, i as int, j as int);
    }
    Some(n)
}

/// The length that headers state: the digits after the first `Content-Length: `,
/// and 0 where there is none.
pub fn parse_content_length(headers: &[u8]) -> (n: usize)
    requires
        content_length(headers@) <= usize::MAX,
    ensures
        n == content_length(headers@),
{
    match checked_content_length(headers) {
        Some(n) => n,
        None => {
            // Ruled out by what is required.
            assert(false);
            0
        },
    }
}

/// What a connection is to do next.
pub enum Action {
    /// Read more bytes behind those that are there.
    Read,
    /// Hang up.
    Close,
    /// Answer that the service is ready.
    Ready,
    /// Answer that there is no such thing.
    NotFound,
    /// Score the transaction in the bytes from `start` up to `end`.
    Score { start: usize, end: usize },
    /// Give up on a request whose length does not fit.
    Overflow,
}

/// The bytes of a connection that were read and not yet answered.
///
/// They are the first `filled` bytes of the buffer; what lies behind them is left
/// over from before.
pub struct Connection {
    pub buf: [u8; BUF_LEN],
    pub filled: usize,
}

/// Where the body ends that a request states.
pub open spec fn body_end(buf: Seq<u8>, p: int) -> int {
    p + content_length(buf.take(p))
}

/// What to do about the first `filled` bytes of a buffer.
///
/// A request whose first byte is a G is answered as soon as its headers are
/// complete. One whose first byte is a P is answered when its body is complete too:
/// it is scored if the sixth byte of the buffer is an f. Any other request is turned
/// down without waiting for its body. A request that the buffer cannot hold ends the
/// connection.
pub open spec fn next_action(buf: Seq<u8>, filled: int) -> Action {
    match header_end(buf.take(filled)) {
        None => if filled < BUF_LEN {
            Action::Read
        } else {
            Action::Close
        },
        Some(p) => if buf[0] == 'G' as u8 {
            Action::Ready
        } else if buf[0] == 'P' as u8 {
            let end = body_end(buf, p);
            if end > usize::MAX {
                Action::Overflow
            } else if filled >= end {
                if buf[5] == 'f' as u8 {
                    Action::Score { start: p as usize, end: end as usize }
                } else {
                    Action::NotFound
                }
            } else if filled < BUF_LEN {
                Action::Read
            } else {
                Action::Close
            }
        } else {
            Action::NotFound
        },
    }
}

/// Where an answered request ends: one that starts with a G ends with its headers,
/// any other with the body that it states.
pub open spec fn request_end(buf: Seq<u8>, p: int) -> int {
    if buf[0] == 'G' as u8 {
        p
    } else {
        body_end(buf, p)
    }
}

/// How many of the filled bytes lie behind a request that ends at `end`.
pub open spec fn bytes_behind(filled: int, end: int) -> int {
    if end < filled {
        filled - end
    } else {
        0
    }
}

/// A buffer whose bytes behind a request were moved to the front; the bytes after
/// them stay as they are.
pub open spec fn moved_up(buf: Seq<u8>, filled: int, end: int) -> Seq<u8> {
    if end < filled {
        buf.subrange(end, filled) + buf.skip(filled - end)
    } else {
        buf
    }
}

impl Connection {
    /// No more bytes count as filled than the buffer has.
    pub open spec fn wf(&self) -> bool {
        self.filled <= BUF_LEN
    }

    /// The bytes that wait for an answer.
    pub open spec fn pending(&self) -> Seq<u8> {
        self.buf@.take(self.filled as int)
    }

    /// A connection that has read nothing.
    pub fn new() -> (conn: Connection)
        ensures
            conn.wf(),
            conn.filled == 0,
            forall|i: int| 0 <= i < BUF_LEN ==> conn.buf@[i] == 0,
    {
        Connection { buf: [0u8; BUF_LEN], filled: 0 }
    }

    /// Takes in `n` bytes that were read into the buffer behind the filled ones.
    pub fn advance(&mut self, n: usize)
        requires
            old(self).filled + n <= BUF_LEN,
        ensures
            final(self).wf(),
            final(self).buf == old(self).buf,
            final(self).filled == old(self).filled + n,
    {
        self.filled = self.filled + n;
    }

    /// Decides what to do about the bytes read so far.
    pub fn decide(&self) -> (action: Action)
        requires
            self.wf(),
        ensures
            action == next_action(self.buf@, self.filled as int),
            action matches Action::Score { start, end } ==> start <= end <= self.filled,
    {
        assert(self.buf@.subrange(0, self.filled as int) =~= self.pending());
        let p: usize = match find_header_end(&self.buf.as_slice()[0..self.filled]) {
            Some(p) => p,
            None => {
                return if self.filled < BUF_LEN {
                    Action::Read
                } else {
                    Action::Close
                };
            },
        };
        if self.buf[0] == 'G' as u8 {
            Action::Ready
        } else if self.buf[0] == 'P' as u8 {
            let end: usize = match self.stated_end(p) {
                Some(end) => end,
                None => {
                    return Action::Overflow;
                },
            };
            if self.filled >= end {
                if self.buf[5] == 'f' as u8 {
                    Action::Score { start: p, end }
                } else {
                    Action::NotFound
                }
            } else if self.filled < BUF_LEN {
                Action::Read
            } else {
                Action::Close
            }
        } else {
            Action::NotFound
        }
    }

    /// Where the body ends that the headers up to `p` state, or `None` if that does
    /// not fit in `usize`.
    fn stated_end(&self, p: usize) -> (end: Option<usize>)
        requires
            p <= BUF_LEN,
        ensures
            match end {
                Some(end) => end == body_end(self.buf@, p as int) && p <= end,
                None => body_end(self.buf@, p as int) > usize::MAX,
            },
    {
        let headers: &[u8] = &self.buf.as_slice()[0..p];
        assert(headers@ =~= self.buf@.take(p as int));
        match checked_content_length(headers) {
            Some(n) => p.checked_add(n),
            None => None,
        }
    }

    /// Drops the request that was answered and moves what follows it to the front
    /// of the buffer. Returns `false`, and changes nothing, if the end of the
    /// request does not fit in `usize`.
    pub fn consume(&mut self) -> (done: bool)
        requires
            old(self).wf(),
            header_end(old(self).pending()) is Some,
        ensures
            final(self).wf(),
            ({
                let end = request_end(old(self).buf@, header_end(old(self).pending())->0);
                &&& done == (end <= usize::MAX)
                &&& !done ==> *final(self) == *old(self)
                &&& done ==> final(self).filled == bytes_behind(old(self).filled as int, end)
                &&& done ==> final(self).buf@ == moved_up(
                    old(self).buf@,
                    old(self).filled as int,
                    end,
                )
                &&& done ==> final(self).filled + 4 <= old(self).filled
                &&& done && end <= old(self).filled ==> final(self).filled == old(self).filled
                    - end
                &&& done && end > old(self).filled ==> final(self).filled == 0
                &&& done ==> forall|i: int|
                    0 <= i < BUF_LEN ==> #[trigger] final(self).buf@[i] == if i
                        < final(self).filled {
                        old(self).buf@[end + i]
                    } else {
                        old(self).buf@[i]
                    }
                &&& done && end <= old(self).filled ==> final(self).pending() == old(
                    self,
                ).pending().skip(end)
            }),
    {
        assert(self.buf@.subrange(0, self.filled as int) =~= self.pending());
        let p: usize = match find_header_end(&self.buf.as_slice()[0..self.filled]) {
            Some(p) => p,
            None => {
                return false;
            },
        };
        let end: usize = if self.buf[0] == 'G' as u8 {
            p
        } else {
            match self.stated_end(p) {
                Some(end) => end,
                None => {
                    return false;
                },
            }
        };
        if end < self.filled {
            let left: usize = self.filled - end;
            let ghost before = self.buf@;
            let mut i: usize = 0;
            while i < left
                invariant
                    0 < end,
                    i <= left,
                    end + left == self.filled,
                    self.filled <= BUF_LEN,
                    before.len() == BUF_LEN,
                    self.buf@.len() == BUF_LEN,
                    forall|j: int| 0 <= j < i ==> self.buf@[j] == before[end + j],
                    forall|j: int| i <= j < BUF_LEN ==> self.buf@[j] == before[j],
                decreases left - i,
            {
                self.buf[i] = self.buf[end + i];
                i += 1;
            }
            assert(self.buf@ =~= moved_up(before, self.filled as int, end as int));
            self.filled = left;
            assert(self.pending() =~= old(self).pending().skip(end as int));
        } else {
            self.filled = 0;
            assert(end <= old(self).filled ==> self.pending() =~= old(self).pending().skip(
                end as int,
            ));
        }
        true
    }
}

/// The end of the headers is the end of a first blank line.
proof fn lemma_header_end_ends(buf: Seq<u8>)
    ensures
        header_end(buf) matches Some(p) ==> is_header_end(buf, p) && 4 <= p <= buf.len(),
{
    if header_end(buf) is Some {
        let p = choose|p: int| is_header_end(buf, p);
        assert(is_header_end(buf, p));
    }
}

/// The end of the headers stays where it is when more bytes arrive.
pub proof fn header_end_is_stable(before: Seq<u8>, after: Seq<u8>)
    requires
        before.len() <= after.len(),
        after.take(before.len() as int) == before,
        header_end(before) is Some,
    ensures
        header_end(after) == header_end(before),
        header_end(before)->0 <= before.len(),
{
    lemma_header_end_ends(before);
    let p = header_end(before)->0;
    assert forall|q: int| q <= before.len() implies ends_headers(before, q) == ends_headers(
        after,
        q,
    ) by {
        if 4 <= q {
            assert(before[q - 4] == after[q - 4]);
            assert(before[q - 3] == after[q - 3]);
            assert(before[q - 2] == after[q - 2]);
            assert(before[q - 1] == after[q - 1]);
        }
    }
    assert(is_header_end(after, p));
    lemma_header_end_unique(after, p);
}

/// Whether the bytes are a P and a blank line, and no more. It is the one request that
/// ends before the sixth byte, which tells whether it is scored.
pub open spec fn is_bare_p(bytes: Seq<u8>) -> bool {
    &&& bytes.len() == 5
    &&& bytes[0] == 'P' as u8
    &&& header_end(bytes) is Some
}

/// Bytes that agree as far as they were read are framed alike, and unless they are a
/// bare P they agree in the sixth byte where it counts.
proof fn lemma_framed_alike(one: Seq<u8>, filled: int, other: Seq<u8>, more: int)
    requires
        one.len() == BUF_LEN,
        other.len() == BUF_LEN,
        0 <= filled <= more <= BUF_LEN,
        one.take(filled) == other.take(filled),
        header_end(one.take(filled)) is Some,
        !is_bare_p(one.take(filled)),
    ensures
        header_end(other.take(more)) == header_end(one.take(filled)),
        ({
            let p = header_end(one.take(filled))->0;
            &&& 4 <= p <= filled
            &&& body_end(other, p) == body_end(one, p)
            &&& other[0] == one[0]
            &&& one[0] == 'P' as u8 ==> other[5] == one[5]
        }),
{
    let p = header_end(one.take(filled))->0;
    assert(other.take(more).take(filled) =~= other.take(filled));
    header_end_is_stable(one.take(filled), other.take(more));
    lemma_header_end_ends(one.take(filled));
    assert(one.take(p) =~= one.take(filled).take(p));
    assert(other.take(p) =~= other.take(filled).take(p));
    assert(one[0] == one.take(filled)[0] && other[0] == other.take(filled)[0]);
    if one[0] == 'P' as u8 {
        assert(p != 4);
        assert(filled >= 6);
        assert(one[5] == one.take(filled)[5] && other[5] == other.take(filled)[5]);
    }
}

/// Once a request can be answered, bytes that arrive behind it do not change the
/// answer. A bare P is left out: the sixth byte, which arrives behind it, tells whether
/// it is scored.
pub proof fn answer_is_stable(before: Seq<u8>, filled: int, after: Seq<u8>, more: int)
    requires
        before.len() == BUF_LEN,
        after.len() == BUF_LEN,
        0 <= filled <= more <= BUF_LEN,
        before.take(filled) == after.take(filled),
        !is_bare_p(before.take(filled)),
        next_action(before, filled) !is Read,
        next_action(before, filled) !is Close,
    ensures
        next_action(after, more) == next_action(before, filled),
{
    lemma_framed_alike(before, filled, after, more);
}

/// What a connection does depends on the bytes that were read alone, not on what an
/// earlier request left in the buffer. A bare P is left out, as its sixth byte is one of
/// those.
pub proof fn action_depends_on_what_was_read(one: Seq<u8>, other: Seq<u8>, filled: int)
    requires
        one.len() == BUF_LEN,
        other.len() == BUF_LEN,
        0 <= filled <= BUF_LEN,
        one.take(filled) == other.take(filled),
        !is_bare_p(one.take(filled)),
    ensures
        next_action(one, filled) == next_action(other, filled),
{
    if header_end(one.take(filled)) is Some {
        lemma_framed_alike(one, filled, other, filled);
    }
}

/// Whether the bytes start with a complete request: its headers have ended, and so has
/// its body if it starts with a P.
pub open spec fn is_complete(bytes: Seq<u8>) -> bool {
    &&& header_end(bytes) is Some
    &&& bytes[0] == 'P' as u8 ==> body_end(bytes, header_end(bytes)->0) <= bytes.len()
}

/// The answer to the complete request that the bytes start with.
pub open spec fn answer_to(bytes: Seq<u8>) -> Action {
    let p = header_end(bytes)->0;
    if bytes[0] == 'G' as u8 {
        Action::Ready
    } else if bytes[0] == 'P' as u8 && bytes[5] == 'f' as u8 {
        Action::Score { start: p as usize, end: body_end(bytes, p) as usize }
    } else {
        Action::NotFound
    }
}

/// A complete request is answered, and not kept waiting: the answer is what its bytes
/// ask for. A bare P is answered too, by the byte that lies behind it in the buffer.
pub proof fn complete_requests_are_answered(buf: Seq<u8>, filled: int)
    requires
        buf.len() == BUF_LEN,
        0 <= filled <= BUF_LEN,
        is_complete(buf.take(filled)),
    ensures
        next_action(buf, filled) is Ready || next_action(buf, filled) is Score || next_action(
            buf,
            filled,
        ) is NotFound,
        !is_bare_p(buf.take(filled)) ==> next_action(buf, filled) == answer_to(buf.take(filled)),
{
    let bytes = buf.take(filled);
    lemma_header_end_ends(bytes);
    let p = header_end(bytes)->0;
    assert(bytes.take(p) =~= buf.take(p));
    assert(bytes[0] == buf[0]);
    if !is_bare_p(bytes) {
        lemma_framed_alike(buf, filled, buf, filled);
        if buf[0] == 'P' as u8 {
            assert(p != 4);
            assert(filled >= 6);
            assert(bytes[5] == buf[5]);
        }
    }
}

/// The requests in the buffer are answered in turn: when one was answered and dropped,
/// and the bytes behind it start with a complete request, what comes next is the answer
/// to that one, with no more bytes read.
pub proof fn requests_are_answered_in_turn(buf: Seq<u8>, filled: int)
    requires
        buf.len() == BUF_LEN,
        0 <= filled <= BUF_LEN,
        header_end(buf.take(filled)) is Some,
        ({
            let end = request_end(buf, header_end(buf.take(filled))->0);
            end <= filled && is_complete(buf.subrange(end, filled))
        }),
    ensures
        ({
            let end = request_end(buf, header_end(buf.take(filled))->0);
            let rest = buf.subrange(end, filled);
            let next = next_action(moved_up(buf, filled, end), bytes_behind(filled, end));
            &&& next is Ready || next is Score || next is NotFound
            &&& !is_bare_p(rest) ==> next == answer_to(rest)
        }),
{
    let end = request_end(buf, header_end(buf.take(filled))->0);
    let rest = buf.subrange(end, filled);
    let moved = moved_up(buf, filled, end);
    lemma_header_end_ends(buf.take(filled));
    lemma_content_length_is_nat(buf.take(header_end(buf.take(filled))->0));
    lemma_header_end_ends(rest);
    assert(moved.take(filled - end) =~= rest);
    complete_requests_are_answered(moved, filled - end);
}

/// The end of the headers is the end of the first blank line: the bytes 13, 10, 13, 10.
pub proof fn headers_end_at_the_first_blank_line(buf: &[u8], end: Option<usize>)
    requires
        call_ensures(find_header_end, (buf,), end),
    ensures
        call_requires(find_header_end, (buf,)),
        match end {
            Some(p) => {
                &&& 4 <= p <= buf@.len()
                &&& buf@.subrange(p - 4, p as int) == seq![13u8, 10, 13, 10]
                &&& forall|i: int|
                    0 <= i < p - 4 ==> !(#[trigger] buf@[i] == 13 && buf@[i + 1] == 10
                        && buf@[i + 2] == 13 && buf@[i + 3] == 10)
            },
            None => forall|i: int|
                0 <= i < buf@.len() - 3 ==> !(#[trigger] buf@[i] == 13 && buf@[i + 1] == 10
                    && buf@[i + 2] == 13 && buf@[i + 3] == 10),
        },
{
    match end {
        Some(p) => {
            assert(buf@.subrange(p - 4, p as int) =~= seq![13u8, 10, 13, 10]);
            assert forall|i: int| 0 <= i < p - 4 implies !(#[trigger] buf@[i] == 13 && buf@[i + 1]
                == 10 && buf@[i + 2] == 13 && buf@[i + 3] == 10) by {
                assert(!ends_headers(buf@, i + 4));
            }
        },
        None => {
            assert forall|i: int| 0 <= i < buf@.len() - 3 implies !(#[trigger] buf@[i] == 13
                && buf@[i + 1] == 10 && buf@[i + 2] == 13 && buf@[i + 3] == 10) by {
                assert(!ends_headers(buf@, i + 4));
            }
        },
    }
}

/// The first blank line ends the headers.
pub proof fn the_first_blank_line_ends_the_headers(buf: Seq<u8>, p: int)
    requires
        4 <= p <= buf.len(),
        buf[p - 4] == 13 && buf[p - 3] == 10 && buf[p - 2] == 13 && buf[p - 1] == 10,
        forall|i: int|
            0 <= i < p - 4 ==> !(#[trigger] buf[i] == 13 && buf[i + 1] == 10 && buf[i + 2] == 13
                && buf[i + 3] == 10),
    ensures
        header_end(buf) == Some(p),
{
    assert forall|q: int| q < p implies !ends_headers(buf, q) by {
        if ends_headers(buf, q) {
            assert(buf[q - 4] == 13);
        }
    }
    assert(is_header_end(buf, p));
    lemma_header_end_unique(buf, p);
}

/// Without a blank line the headers have no end.
pub proof fn no_blank_line_ends_no_headers(buf: Seq<u8>)
    requires
        forall|i: int|
            0 <= i < buf.len() - 3 ==> !(#[trigger] buf[i] == 13 && buf[i + 1] == 10 && buf[i + 2]
                == 13 && buf[i + 3] == 10),
    ensures
        header_end(buf) is None,
{
    assert forall|q: int| !ends_headers(buf, q) by {
        if ends_headers(buf, q) {
            assert(buf[q - 4] == 13);
        }
    }
}

/// Wherever it stands in the headers, the first length that they state is read: after a
/// name of 16 bytes with a C, an L where its second word starts and a space at its end,
/// the digits up to the first byte that is none. The name may be `Content-Length: ` in
/// either case of its letters.
pub proof fn a_stated_length_is_read(
    headers: Seq<u8>,
    before: Seq<u8>,
    name: Seq<u8>,
    digits: Seq<u8>,
    after: Seq<u8>,
)
    requires
        headers == before + name + digits + after,
        name.len() == 16,
        name[0] == 67 || name[0] == 99,
        name[8] == 76 || name[8] == 108,
        name[15] == 32,
        forall|j: int|
            0 <= j < before.len() ==> !((#[trigger] headers[j] == 67 || headers[j] == 99) && (
            headers[j + 8] == 76 || headers[j + 8] == 108) && headers[j + 15] == 32),
        forall|k: int| 0 <= k < digits.len() ==> 48 <= #[trigger] digits[k] <= 57,
        digits.len() + after.len() >= 1,
        after.len() > 0 ==> !(48 <= after[0] <= 57),
    ensures
        content_length(headers) == decimal_value(digits),
{
    let i = before.len() as int;
    let d = i + 16;
    let e = d + digits.len();
    assert(headers[i] == name[0] && headers[i + 8] == name[8] && headers[i + 15] == name[15]);
    assert forall|j: int| j < i implies !names_length(headers, j) by {
        if 0 <= j {
            assert(headers[j] == 67 || headers[j] != 67);
        }
    }
    assert(is_length_name(headers, i));
    lemma_content_length(headers, i);
    assert forall|k: int| d <= k < e implies is_digit(#[trigger] headers[k]) by {
        assert(headers[k] == digits[k - d]);
    }
    lemma_digits_end(headers, d, e);
    if after.len() > 0 {
        assert(headers[e] == after[0]);
    }
    assert(digits_end(headers, e) == e);
    assert(digits_at(headers, d) =~= digits);
}

/// `Content-Length: ` itself is such a name.
pub proof fn content_length_names_a_length(
    headers: Seq<u8>,
    before: Seq<u8>,
    digits: Seq<u8>,
    after: Seq<u8>,
)
    requires
        headers == before + seq![
            67u8,
            111,
            110,
            116,
            101,
            110,
            116,
            45,
            76,
            101,
            110,
            103,
            116,
            104,
            58,
            32,
        ] + digits + after,
        forall|j: int|
            0 <= j < before.len() ==> !((#[trigger] headers[j] == 67 || headers[j] == 99) && (
            headers[j + 8] == 76 || headers[j + 8] == 108) && headers[j + 15] == 32),
        forall|k: int| 0 <= k < digits.len() ==> 48 <= #[trigger] digits[k] <= 57,
        digits.len() + after.len() >= 1,
        after.len() > 0 ==> !(48 <= after[0] <= 57),
    ensures
        content_length(headers) == decimal_value(digits),
{
    let name = seq![67u8, 111, 110, 116, 101, 110, 116, 45, 76, 101, 110, 103, 116, 104, 58, 32];
    a_stated_length_is_read(headers, before, name, digits, after);
}

/// Headers that state no length state 0.
pub proof fn no_stated_length_is_zero(headers: Seq<u8>)
    requires
        forall|j: int|
            0 <= j < headers.len() - 16 ==> !((#[trigger] headers[j] == 67 || headers[j] == 99) && (
            headers[j + 8] == 76 || headers[j + 8] == 108) && headers[j + 15] == 32),
    ensures
        content_length(headers) == 0,
{
    assert forall|j: int| !names_length(headers, j) by {
        if names_length(headers, j) {
            assert(headers[j] == 67 || headers[j] == 99);
        }
    }
}

/// Lines in front that name no length do not change the stated length.
pub proof fn lines_in_front_keep_the_length(lines: Seq<u8>, headers: Seq<u8>)
    requires
        forall|j: int|
            0 <= j < lines.len() && j + 16 < lines.len() + headers.len() ==> !((#[trigger] (lines
                + headers)[j] == 67 || (lines + headers)[j] == 99) && ((lines + headers)[j + 8]
                == 76 || (lines + headers)[j + 8] == 108) && (lines + headers)[j + 15] == 32),
    ensures
        content_length(lines + headers) == content_length(headers),
{
    let whole = lines + headers;
    let n = lines.len() as int;
    if exists|i: int| is_length_name(headers, i) {
        let i = choose|i: int| is_length_name(headers, i);
        assert(is_length_name(headers, i));
        lemma_names_behind(lines, headers, i + n);
        assert forall|j: int| j < i + n implies !names_length(whole, j) by {
            lemma_names_behind(lines, headers, j);
        }
        assert(is_length_name(whole, i + n));
        lemma_content_length(whole, i + n);
        lemma_content_length(headers, i);
        lemma_digits_end(headers, i + 16, i + 16);
        lemma_digits_end_behind(lines, headers, i + 16);
        assert(digits_at(whole, i + n + 16) =~= digits_at(headers, i + 16));
    } else if exists|i: int| is_length_name(whole, i) {
        let i = choose|i: int| is_length_name(whole, i);
        assert(is_length_name(whole, i));
        lemma_names_behind(lines, headers, i);
        assert forall|j: int| j < i - n implies !names_length(headers, j) by {
            lemma_names_behind(lines, headers, j + n);
        }
        assert(is_length_name(headers, i - n));
    }
}

/// A length is named behind lines that name none exactly where it is named without them.
proof fn lemma_names_behind(lines: Seq<u8>, headers: Seq<u8>, j: int)
    requires
        forall|j: int|
            0 <= j < lines.len() && j + 16 < lines.len() + headers.len() ==> !((#[trigger] (lines
                + headers)[j] == 67 || (lines + headers)[j] == 99) && ((lines + headers)[j + 8]
                == 76 || (lines + headers)[j + 8] == 108) && (lines + headers)[j + 15] == 32),
    ensures
        names_length(lines + headers, j) <==> names_length(headers, j - lines.len()),
{
    let whole = lines + headers;
    let n = lines.len() as int;
    if 0 <= j < n && j + 16 < whole.len() {
        assert(whole[j] == 67 || whole[j] != 67);
    } else if n <= j && j + 16 < whole.len() {
        assert(whole[j] == headers[j - n]);
        assert(whole[j + 8] == headers[j - n + 8]);
        assert(whole[j + 15] == headers[j - n + 15]);
    }
}

proof fn lemma_digits_end_behind(lines: Seq<u8>, headers: Seq<u8>, i: int)
    requires
        0 <= i <= headers.len(),
    ensures
        digits_end(lines + headers, lines.len() + i) == lines.len() + digits_end(headers, i),
    decreases headers.len() - i,
{
    if i < headers.len() {
        assert((lines + headers)[lines.len() + i] == headers[i]);
        if is_digit(headers[i]) {
            lemma_digits_end_behind(lines, headers, i + 1);
        }
    }
}

/// `parse_content_length` reads the first stated length wherever it stands, and gives 0
/// where none is stated.
pub proof fn parse_content_length_reads_it_anywhere(
    headers: &[u8],
    n: usize,
    before: Seq<u8>,
    name: Seq<u8>,
    digits: Seq<u8>,
    after: Seq<u8>,
)
    requires
        headers@ == before + name + digits + after,
        name.len() == 16,
        name[0] == 67 || name[0] == 99,
        name[8] == 76 || name[8] == 108,
        name[15] == 32,
        forall|j: int|
            0 <= j < before.len() ==> !((#[trigger] headers@[j] == 67 || headers@[j] == 99) && (
            headers@[j + 8] == 76 || headers@[j + 8] == 108) && headers@[j + 15] == 32),
        forall|k: int| 0 <= k < digits.len() ==> 48 <= #[trigger] digits[k] <= 57,
        digits.len() + after.len() >= 1,
        after.len() > 0 ==> !(48 <= after[0] <= 57),
        call_ensures(parse_content_length, (headers,), n),
    ensures
        n == decimal_value(digits),
        decimal_value(digits) <= usize::MAX ==> call_requires(parse_content_length, (headers,)),
{
    a_stated_length_is_read(headers@, before, name, digits, after);
}

/// `checked_content_length` reads the first stated length wherever it stands, and refuses
/// it exactly if it does not fit.
pub proof fn checked_content_length_reads_it_anywhere(
    headers: &[u8],
    n: Option<usize>,
    before: Seq<u8>,
    name: Seq<u8>,
    digits: Seq<u8>,
    after: Seq<u8>,
)
    requires
        headers@ == before + name + digits + after,
        name.len() == 16,
        name[0] == 67 || name[0] == 99,
        name[8] == 76 || name[8] == 108,
        name[15] == 32,
        forall|j: int|
            0 <= j < before.len() ==> !((#[trigger] headers@[j] == 67 || headers@[j] == 99) && (
            headers@[j + 8] == 76 || headers@[j + 8] == 108) && headers@[j + 15] == 32),
        forall|k: int| 0 <= k < digits.len() ==> 48 <= #[trigger] digits[k] <= 57,
        digits.len() + after.len() >= 1,
        after.len() > 0 ==> !(48 <= after[0] <= 57),
        call_ensures(checked_content_length, (headers,), n),
    ensures
        call_requires(checked_content_length, (headers,)),
        n is Some <==> decimal_value(digits) <= usize::MAX,
        n matches Some(n) ==> n == decimal_value(digits),
{
    a_stated_length_is_read(headers@, before, name, digits, after);
}

/// Without a stated length `parse_content_length` and `checked_content_length` give 0.
pub proof fn no_length_is_read_as_zero(headers: &[u8], n: usize, checked: Option<usize>)
    requires
        forall|j: int|
            0 <= j < headers@.len() - 16 ==> !((#[trigger] headers@[j] == 67 || headers@[j] == 99)
                && (headers@[j + 8] == 76 || headers@[j + 8] == 108) && headers@[j + 15] == 32),
        call_ensures(parse_content_length, (headers,), n),
        call_ensures(checked_content_length, (headers,), checked),
    ensures
        n == 0,
        checked == Some(0usize),
        call_requires(parse_content_length, (headers,)),
{
    no_stated_length_is_zero(headers@);
}

/// What a connection does while no blank line was read: it reads on until its 4096 bytes
/// are full, and then hangs up.
pub proof fn headers_are_waited_for(conn: &Connection, action: Action)
    requires
        conn.filled <= 4096,
        forall|i: int|
            0 <= i < conn.filled - 3 ==> !(#[trigger] conn.buf@[i] == 13 && conn.buf@[i + 1] == 10
                && conn.buf@[i + 2] == 13 && conn.buf@[i + 3] == 10),
        call_ensures(Connection::decide, (conn,), action),
    ensures
        call_requires(Connection::decide, (conn,)),
        conn.filled < 4096 ==> action is Read,
        conn.filled == 4096 ==> action is Close,
{
    let bytes = conn.buf@.take(conn.filled as int);
    assert forall|q: int| !ends_headers(bytes, q) by {
        if ends_headers(bytes, q) {
            assert(conn.buf@[q - 4] == 13);
        }
    }
}

/// What a connection does about a request whose headers end at `p`: a G is answered at
/// once, a P when the bytes of its stated length are there too, and anything else is
/// turned down at once. A P is scored by the bytes of its body, which are those between
/// its headers and its end, if its sixth byte is an f, and turned down otherwise. While
/// its body is not there the connection reads on until its 4096 bytes are full.
pub proof fn what_a_request_is_answered(conn: &Connection, action: Action, p: int)
    requires
        4 <= p <= conn.filled <= 4096,
        conn.buf@[p - 4] == 13 && conn.buf@[p - 3] == 10 && conn.buf@[p - 2] == 13 && conn.buf@[p
            - 1] == 10,
        forall|i: int|
            0 <= i < p - 4 ==> !(#[trigger] conn.buf@[i] == 13 && conn.buf@[i + 1] == 10
                && conn.buf@[i + 2] == 13 && conn.buf@[i + 3] == 10),
        call_ensures(Connection::decide, (conn,), action),
    ensures
        call_requires(Connection::decide, (conn,)),
        ({
            let end = p + content_length(conn.buf@.take(p));
            &&& conn.buf@[0] == 71 ==> action is Ready
            &&& conn.buf@[0] != 71 && conn.buf@[0] != 80 ==> action is NotFound
            &&& conn.buf@[0] == 80 && end > usize::MAX ==> action is Overflow
            &&& conn.buf@[0] == 80 && conn.filled < end <= usize::MAX && conn.filled < 4096
                ==> action is Read
            &&& conn.buf@[0] == 80 && conn.filled < end <= usize::MAX && conn.filled == 4096
                ==> action is Close
            &&& conn.buf@[0] == 80 && end <= conn.filled && conn.buf@[5] != 102
                ==> action is NotFound
            &&& conn.buf@[0] == 80 && end <= conn.filled && conn.buf@[5] == 102 ==> (
            action matches Action::Score { start, end: last } && start == p && last == end)
        }),
{
    let bytes = conn.buf@.take(conn.filled as int);
    assert forall|i: int| 0 <= i < p - 4 implies !(#[trigger] bytes[i] == 13 && bytes[i + 1] == 10
        && bytes[i + 2] == 13 && bytes[i + 3] == 10) by {
        assert(bytes[i] == conn.buf@[i]);
    }
    the_first_blank_line_ends_the_headers(bytes, p);
    lemma_content_length_is_nat(conn.buf@.take(p));
}

/// A request that states the length of its body is scored as a whole: its headers hold a
/// stated length anywhere, the body of that length follows, and what comes behind does
/// not count. Then the request ends with its body, and what comes behind it is what the
/// connection goes on with.
pub proof fn a_request_with_its_body_is_scored(
    conn: &Connection,
    action: Action,
    head: Seq<u8>,
    before: Seq<u8>,
    name: Seq<u8>,
    digits: Seq<u8>,
    after: Seq<u8>,
    body: Seq<u8>,
    rest: Seq<u8>,
)
    requires
        conn.filled <= 4096,
        conn.buf@.take(conn.filled as int) == head + body + rest,
        head == before + name + digits + after,
        head[0] == 80,
        after.len() >= 4,
        head[head.len() - 4] == 13 && head[head.len() - 3] == 10 && head[head.len() - 2] == 13
            && head[head.len() - 1] == 10,
        forall|i: int|
            0 <= i < head.len() - 4 ==> !(#[trigger] head[i] == 13 && head[i + 1] == 10 && head[i
                + 2] == 13 && head[i + 3] == 10),
        name.len() == 16,
        name[0] == 67 || name[0] == 99,
        name[8] == 76 || name[8] == 108,
        name[15] == 32,
        forall|j: int|
            0 <= j < before.len() ==> !((#[trigger] head[j] == 67 || head[j] == 99) && (head[j + 8]
                == 76 || head[j + 8] == 108) && head[j + 15] == 32),
        forall|k: int| 0 <= k < digits.len() ==> 48 <= #[trigger] digits[k] <= 57,
        !(48 <= after[0] <= 57),
        decimal_value(digits) == body.len(),
        call_ensures(Connection::decide, (conn,), action),
    ensures
        head[5] != 102 ==> action is NotFound,
        head[5] == 102 ==> (action matches Action::Score { start, end } && start <= end
            && conn.buf@.subrange(start as int, end as int) == body),
        ({
            let end = request_end(conn.buf@, head.len() as int);
            &&& header_end(conn.pending()) == Some(head.len() as int)
            &&& end == head.len() + body.len()
            &&& bytes_behind(conn.filled as int, end) == rest.len()
            &&& moved_up(conn.buf@, conn.filled as int, end).take(rest.len() as int) == rest
        }),
{
    let p = head.len() as int;
    let bytes = conn.buf@.take(conn.filled as int);
    assert(bytes.len() == conn.filled);
    assert forall|i: int| 0 <= i < p implies #[trigger] conn.buf@[i] == head[i] by {
        assert(bytes[i] == head[i]);
    }
    assert(conn.buf@.take(p) =~= head);
    a_stated_length_is_read(head, before, name, digits, after);
    what_a_request_is_answered(conn, action, p);
    assert forall|i: int| 0 <= i < p - 4 implies !(#[trigger] bytes[i] == 13 && bytes[i + 1] == 10
        && bytes[i + 2] == 13 && bytes[i + 3] == 10) by {
        assert(bytes[i] == head[i]);
        assert(!(head[i] == 13 && head[i + 1] == 10 && head[i + 2] == 13 && head[i + 3] == 10));
    }
    the_first_blank_line_ends_the_headers(bytes, p);
    let end = p + body.len();
    assert(conn.buf@.subrange(p, end) =~= body) by {
        assert forall|i: int| 0 <= i < body.len() implies conn.buf@[p + i]
            == #[trigger] body[i] by {
            assert(bytes[p + i] == body[i]);
        }
    }
    assert(moved_up(conn.buf@, conn.filled as int, end).take(rest.len() as int) =~= rest) by {
        assert forall|i: int| 0 <= i < rest.len() implies conn.buf@[end + i]
            == #[trigger] rest[i] by {
            assert(bytes[end + i] == rest[i]);
        }
    }
}

/// A request without a body ends with its headers if it starts with a G, and any other
/// with as many bytes more as it states.
pub proof fn where_requests_end(buf: Seq<u8>, p: int)
    ensures
        buf[0] == 71 ==> request_end(buf, p) == p,
        buf[0] != 71 ==> request_end(buf, p) == p + content_length(buf.take(p)),
{
}

/// Dropping a request moves the bytes behind it to the front, one by one, and leaves what
/// lies behind them as it is. Where no bytes lie behind it the buffer stays as it is.
pub proof fn bytes_behind_move_to_the_front(buf: Seq<u8>, filled: int, end: int, i: int)
    requires
        0 <= end,
        0 <= filled <= buf.len(),
        0 <= i < buf.len(),
    ensures
        moved_up(buf, filled, end).len() == buf.len(),
        i < filled - end ==> moved_up(buf, filled, end)[i] == buf[end + i],
        i >= filled - end ==> moved_up(buf, filled, end)[i] == buf[i],
        end <= filled ==> bytes_behind(filled, end) == filled - end,
        end > filled ==> bytes_behind(filled, end) == 0,
{
}

} // verus!
