//! An in-memory, bidirectional byte stream.
//!
//! It stands for one connection: the bytes the peer has delivered, whether the
//! transport broke after delivering them, the bytes written back so far and how
//! many more the outgoing side accepts.

use crate::web::text::{find_from, lemma_find_from};
use vstd::prelude::*;
use vstd::slice::{slice_subrange, slice_to_vec};
use vstd::utf8::{decode_utf8, valid_utf8};

verus! {

/// Why an operation on a stream failed.
#[derive(Debug, Clone, Copy, PartialEq, Eq, Structural)]
pub enum StreamError {
    /// The transport broke before the requested data arrived.
    Severed,
    /// A line was read whose bytes are not UTF-8 text.
    NotText,
    /// The outgoing side has no room for the bytes of a write.
    Full,
}

/// The line feed byte, which ends a line.
pub open spec fn lf() -> u8 {
    10u8
}

/// The carriage return byte, which may precede the line feed.
pub open spec fn cr() -> u8 {
    13u8
}

/// The line terminator of the wire format: carriage return, line feed.
pub open spec fn crlf() -> Seq<u8> {
    seq![cr(), lf()]
}

/// The position of the first line feed of `s` (the length of `s` when it has none).
pub open spec fn line_break(s: Seq<u8>) -> int {
    find_from(s, lf(), 0)
}

/// The first line of `s` without its terminator: the bytes before the first
/// line feed, less one carriage return directly before it; all of `s` when
/// no line feed occurs.
pub open spec fn first_line(s: Seq<u8>) -> Seq<u8> {
    let e = line_break(s);
    if 0 < e < s.len() && s[e - 1] == cr() {
        s.subrange(0, e - 1)
    } else {
        s.subrange(0, e)
    }
}

/// What follows the first line of `s` and its terminator.
pub open spec fn after_first_line(s: Seq<u8>) -> Seq<u8> {
    let e = line_break(s);
    if e < s.len() {
        s.subrange(e + 1, s.len() as int)
    } else {
        Seq::empty()
    }
}

/// Whether reading a line must wait for bytes that a broken transport never delivers.
pub open spec fn line_cut_off(pending: Seq<u8>, severed: bool) -> bool {
    severed && line_break(pending) >= pending.len()
}

/// What reading one line yields: `Ok(None)` at the end of the input, the text
/// of the first line otherwise, or the reason why no line could be had.
pub open spec fn line_outcome(pending: Seq<u8>, severed: bool) -> Result<
    Option<Seq<char>>,
    StreamError,
> {
    if line_cut_off(pending, severed) {
        Err(StreamError::Severed)
    } else if pending.len() == 0 {
        Ok(None)
    } else if !valid_utf8(first_line(pending)) {
        Err(StreamError::NotText)
    } else {
        Ok(Some(decode_utf8(first_line(pending))))
    }
}

/// The unread bytes that are left after reading one line.
pub open spec fn line_remainder(pending: Seq<u8>, severed: bool) -> Seq<u8> {
    if line_cut_off(pending, severed) {
        pending
    } else {
        after_first_line(pending)
    }
}

/// Reading a line from a non-empty input uses up at least one byte.
pub proof fn lemma_line_remainder_shorter(pending: Seq<u8>, severed: bool)
    requires
        pending.len() > 0,
        !line_cut_off(pending, severed),
    ensures
        line_remainder(pending, severed).len() < pending.len(),
{
    lemma_find_from(pending, lf(), 0);
}

/// The outgoing side of a stream after a series of writes.
pub struct Outgoing {
    /// Everything that was written.
    pub sent: Seq<u8>,
    /// The room that is left.
    pub room: nat,
    /// Whether every write so far went through.
    pub ok: bool,
}

/// The outgoing side of a stream that had written `sent` and had `room` left,
/// after writing `chunks` one by one, in order, up to the first that does not
/// fit. A chunk that does not fit writes nothing, and nothing is written after it.
pub open spec fn after_writes(sent: Seq<u8>, room: nat, chunks: Seq<Seq<u8>>) -> Outgoing
    decreases chunks.len(),
{
    if chunks.len() == 0 {
        Outgoing { sent, room, ok: true }
    } else {
        let before = after_writes(sent, room, chunks.drop_last());
        if before.ok && chunks.last().len() <= before.room {
            Outgoing {
                sent: before.sent + chunks.last(),
                room: (before.room - chunks.last().len()) as nat,
                ok: true,
            }
        } else {
            Outgoing { sent: before.sent, room: before.room, ok: false }
        }
    }
}

/// All chunks joined in order.
pub open spec fn concat_all(chunks: Seq<Seq<u8>>) -> Seq<u8>
    decreases chunks.len(),
{
    if chunks.len() == 0 {
        Seq::empty()
    } else {
        concat_all(chunks.drop_last()) + chunks.last()
    }
}

/// Joining two series of chunks joins what they hold.
pub proof fn lemma_concat_all_append(a: Seq<Seq<u8>>, b: Seq<Seq<u8>>)
    ensures
        concat_all(a + b) == concat_all(a) + concat_all(b),
    decreases b.len(),
{
    if b.len() == 0 {
        assert(a + b =~= a);
        assert(concat_all(a) + concat_all(b) =~= concat_all(a));
    } else {
        lemma_concat_all_append(a, b.drop_last());
        assert((a + b).drop_last() =~= a + b.drop_last());
        assert(concat_all(a + b) =~= concat_all(a) + concat_all(b));
    }
}

/// Once a write has failed, later chunks change nothing.
pub proof fn lemma_writes_stop(sent: Seq<u8>, room: nat, chunks: Seq<Seq<u8>>, k: int)
    requires
        0 <= k <= chunks.len(),
        !after_writes(sent, room, chunks.take(k)).ok,
    ensures
        after_writes(sent, room, chunks) == after_writes(sent, room, chunks.take(k)),
    decreases chunks.len(),
{
    if k == chunks.len() {
        assert(chunks.take(k) =~= chunks);
    } else {
        assert(chunks.drop_last().take(k) =~= chunks.take(k));
        lemma_writes_stop(sent, room, chunks.drop_last(), k);
    }
}

/// A series of writes goes through exactly when all chunks together fit into
/// the room, and then appends their concatenation.
pub proof fn lemma_writes_total(sent: Seq<u8>, room: nat, chunks: Seq<Seq<u8>>)
    ensures
        after_writes(sent, room, chunks).ok <==> concat_all(chunks).len() <= room,
        after_writes(sent, room, chunks).ok ==> after_writes(sent, room, chunks).sent == sent
            + concat_all(chunks) && after_writes(sent, room, chunks).room == room - concat_all(
            chunks,
        ).len(),
    decreases chunks.len(),
{
    if chunks.len() > 0 {
        lemma_writes_total(sent, room, chunks.drop_last());
        let before = after_writes(sent, room, chunks.drop_last());
        if before.ok && chunks.last().len() <= before.room {
            assert(before.sent + chunks.last() =~= sent + concat_all(chunks));
        }
    } else {
        assert(sent =~= sent + concat_all(chunks));
    }
}

/// `String::from_utf8`: returns the text exactly when the bytes are well-formed
/// UTF-8, and the text is then the one those bytes encode.
#[verifier::external_body]
fn text_from_utf8(bytes: Vec<u8>) -> (r: Option<String>)
    ensures
        r is Some <==> valid_utf8(bytes@),
        r is Some ==> r->0@ == decode_utf8(bytes@),
{
    String::from_utf8(bytes).ok()
}

/// Searching a tail of `s` finds what searching `s` from where the tail starts finds.
proof fn lemma_find_in_tail(s: Seq<u8>, b: u8, start: int, from: int)
    requires
        0 <= start <= from <= s.len(),
    ensures
        find_from(s.subrange(start, s.len() as int), b, from - start) == find_from(s, b, from)
            - start,
    decreases s.len() - from,
{
    let tail = s.subrange(start, s.len() as int);
    if from < s.len() {
        assert(tail[from - start] == s[from]);
        if s[from] != b {
            lemma_find_in_tail(s, b, start, from + 1);
        }
    }
}

/// Computes the position of the first `b` in `v` at or after `from`.
fn find_byte(v: &Vec<u8>, b: u8, from: usize) -> (r: usize)
    requires
        from <= v@.len(),
    ensures
        r == find_from(v@, b, from as int),
        from <= r <= v@.len(),
{
    let n: usize = v.len();
    let mut i: usize = from;
    while i < n && v[i] != b
        invariant
            from <= i <= n,
            n == v@.len(),
            find_from(v@, b, i as int) == find_from(v@, b, from as int),
        decreases n - i,
    {
        i += 1;
    }
    i
}

/// The delivered bytes of a connection, with the place up to which they were read.
#[derive(Debug)]
struct Incoming {
    bytes: Vec<u8>,
    position: usize,
}

impl Clone for Incoming {
    fn clone(&self) -> (r: Self) {
        proof {
            use_type_invariant(self);
        }
        Incoming { bytes: self.bytes.clone(), position: self.position }
    }
}

impl Incoming {
    #[verifier::type_invariant]
    spec fn position_in_bounds(&self) -> bool {
        self.position <= self.bytes@.len()
    }

    spec fn pending(&self) -> Seq<u8> {
        self.bytes@.subrange(self.position as int, self.bytes@.len() as int)
    }
}

/// An in-memory connection.
#[derive(Debug, Clone)]
pub struct MemoryStream {
    incoming: Incoming,
    severed: bool,
    sent: Vec<u8>,
    room: usize,
}

impl MemoryStream {
    /// The delivered bytes that have not been read yet.
    pub closed spec fn pending(&self) -> Seq<u8> {
        self.incoming.pending()
    }

    /// Whether the transport broke after delivering the pending bytes.
    pub closed spec fn severed(&self) -> bool {
        self.severed
    }

    /// Everything written to the stream so far, in order.
    pub closed spec fn sent(&self) -> Seq<u8> {
        self.sent@
    }

    /// How many more bytes the outgoing side accepts.
    pub closed spec fn room(&self) -> nat {
        self.room as nat
    }

    /// A healthy connection on which `incoming` was delivered and then the
    /// input ended; nothing has been written, and the outgoing side is as
    /// large as the machine allows.
    pub fn new(incoming: Vec<u8>) -> (s: MemoryStream)
        ensures
            s.pending() == incoming@,
            !s.severed(),
            s.sent() == Seq::<u8>::empty(),
            s.room() == usize::MAX,
    {
        assert(incoming@.subrange(0, incoming@.len() as int) =~= incoming@);
        MemoryStream {
            incoming: Incoming { bytes: incoming, position: 0 },
            severed: false,
            sent: Vec::new(),
            room: usize::MAX,
        }
    }

    /// A connection on which `incoming` was delivered, which then broke if
    /// `severed` is set, and whose outgoing side accepts `room` bytes.
    pub fn with_limits(incoming: Vec<u8>, severed: bool, room: usize) -> (s: MemoryStream)
        ensures
            s.pending() == incoming@,
            s.severed() == severed,
            s.sent() == Seq::<u8>::empty(),
            s.room() == room,
    {
        assert(incoming@.subrange(0, incoming@.len() as int) =~= incoming@);
        MemoryStream {
            incoming: Incoming { bytes: incoming, position: 0 },
            severed,
            sent: Vec::new(),
            room,
        }
    }

    /// The delivered bytes that have not been read yet.
    pub fn unread(&self) -> (r: &[u8])
        ensures
            r@ == self.pending(),
    {
        proof {
            use_type_invariant(&self.incoming);
        }
        slice_subrange(
            self.incoming.bytes.as_slice(),
            self.incoming.position,
            self.incoming.bytes.len(),
        )
    }

    /// Everything written to the stream so far.
    pub fn written(&self) -> (r: &Vec<u8>)
        ensures
            r@ == self.sent(),
    {
        &self.sent
    }

    /// Whether the transport broke after delivering its bytes.
    pub fn is_severed(&self) -> (r: bool)
        ensures
            r == self.severed(),
    {
        self.severed
    }

    /// Reads one line: the bytes up to the next line feed, without that line
    /// feed and without a carriage return directly before it, as text. The
    /// last line needs no terminator. `Ok(None)` reports the end of the input.
    pub fn read_line(&mut self) -> (r: Result<Option<String>, StreamError>)
        ensures
            match line_outcome(old(self).pending(), old(self).severed()) {
                Ok(Some(text)) => r matches Ok(Some(line)) && line@ == text,
                Ok(None) => r == Ok::<Option<String>, StreamError>(None),
                Err(e) => r == Err::<Option<String>, StreamError>(e),
            },
            final(self).pending() == line_remainder(old(self).pending(), old(self).severed()),
            final(self).severed() == old(self).severed(),
            final(self).sent() == old(self).sent(),
            final(self).room() == old(self).room(),
    {
        proof {
            use_type_invariant(&self.incoming);
        }
        let n: usize = self.incoming.bytes.len();
        let start: usize = self.incoming.position;
        let ghost before = self.pending();
        let e: usize = find_byte(&self.incoming.bytes, 10u8, start);
        proof {
            lemma_find_in_tail(self.incoming.bytes@, lf(), start as int, start as int);
        }
        if e >= n && self.severed {
            return Err(StreamError::Severed);
        }
        if start == n {
            assert(before =~= after_first_line(before));
            return Ok(None);
        }
        let end: usize = if e < n && e > start && self.incoming.bytes[e - 1] == 13u8 {
            e - 1
        } else {
            e
        };
        let raw = slice_to_vec(slice_subrange(self.incoming.bytes.as_slice(), start, end));
        self.incoming.position = if e < n {
            e + 1
        } else {
            n
        };
        assert(raw@ =~= first_line(before));
        assert(self.pending() =~= after_first_line(before));
        match text_from_utf8(raw) {
            Some(line) => Ok(Some(line)),
            None => Err(StreamError::NotText),
        }
    }

    /// Reads everything that is left, verbatim. Fails on a broken transport,
    /// which never reports the end of the input.
    pub fn read_to_end(&mut self) -> (r: Result<Vec<u8>, StreamError>)
        ensures
            old(self).severed() ==> r == Err::<Vec<u8>, StreamError>(StreamError::Severed)
                && final(self).pending() == old(self).pending(),
            !old(self).severed() ==> (r matches Ok(bytes) && bytes@ == old(self).pending())
                && final(self).pending() == Seq::<u8>::empty(),
            final(self).severed() == old(self).severed(),
            final(self).sent() == old(self).sent(),
            final(self).room() == old(self).room(),
    {
        proof {
            use_type_invariant(&self.incoming);
        }
        if self.severed {
            return Err(StreamError::Severed);
        }
        let n: usize = self.incoming.bytes.len();
        let rest = slice_to_vec(
            slice_subrange(self.incoming.bytes.as_slice(), self.incoming.position, n),
        );
        self.incoming.position = n;
        assert(self.pending() =~= Seq::<u8>::empty());
        Ok(rest)
    }

    /// Writes all of `bytes`, or nothing when they exceed the room that is left.
    pub fn write_all(&mut self, bytes: &[u8]) -> (r: Result<(), StreamError>)
        ensures
            bytes@.len() <= old(self).room() ==> r == Ok::<(), StreamError>(())
                && final(self).sent() == old(self).sent() + bytes@
                && final(self).room() == old(self).room() - bytes@.len(),
            bytes@.len() > old(self).room() ==> r == Err::<(), StreamError>(StreamError::Full)
                && final(self).sent() == old(self).sent()
                && final(self).room() == old(self).room(),
            final(self).pending() == old(self).pending(),
            final(self).severed() == old(self).severed(),
    {
        let n: usize = bytes.len();
        if n > self.room {
            return Err(StreamError::Full);
        }
        let mut i: usize = 0;
        while i < n
            invariant
                i <= n,
                n == bytes@.len(),
                self.sent@ == old(self).sent@ + bytes@.subrange(0, i as int),
                self.incoming == old(self).incoming,
                self.severed == old(self).severed,
                self.room == old(self).room,
            decreases n - i,
        {
            self.sent.push(bytes[i]);
            i += 1;
            assert(self.sent@ =~= old(self).sent@ + bytes@.subrange(0, i as int));
        }
        assert(bytes@.subrange(0, n as int) =~= bytes@);
        self.room = self.room - n;
        Ok(())
    }
}

} // verus!
