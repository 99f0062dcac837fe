//! Framing: a stream of messages, each behind its length as a varint and
//! followed by a separator byte.

use vstd::prelude::*;

use crate::text::{decimal, hex_byte, push_decimal, push_hex_byte};
use crate::varint::{
    decode_varint, encode_varint, law_varint_length, law_varint_prefix, law_varint_round_trip,
    read_varint,
};

verus! {

/// The byte that ends every frame.
pub const SEPARATOR: u8 = 0x0A;

/// A frame that does not end in the separator: the stream and its reader are
/// out of step.
#[derive(Debug, Clone, Copy, PartialEq, Eq, Structural)]
pub struct FrameDesync {
    /// Where the separator was expected.
    pub at: usize,
    /// The byte that stands there.
    pub found: u8,
}

impl FrameDesync {
    /// What went wrong, in words.
    pub fn message(&self) -> (text: String)
        ensures
            text@ == "frame desync at byte "@ + decimal(self.at as nat)
                + ": expected separator 0x0A, found 0x"@ + hex_byte(self.found),
    {
        let mut text = String::new();
        text.append("frame desync at byte ");
        push_decimal(&mut text, self.at as u64);
        text.append(": expected separator 0x0A, found 0x");
        push_hex_byte(&mut text, self.found);
        assert(text@ =~= "frame desync at byte "@ + decimal(self.at as nat)
            + ": expected separator 0x0A, found 0x"@ + hex_byte(self.found));
        text
    }
}

/// What stands at the front of a stretch of the stream.
pub enum NextFrame {
    /// Not all of the frame and its separator has arrived.
    Incomplete,
    /// The message lies in `start..end`; the separator is at `end`.
    Whole { start: nat, end: nat },
    /// The byte at `end`, where the separator belongs, is another one.
    Desync { end: nat },
}

/// The frame at the front of `s`.
pub open spec fn next_frame(s: Seq<u8>) -> NextFrame {
    match decode_varint(s) {
        Some((len, n)) => if n + len >= s.len() {
            NextFrame::Incomplete
        } else if s[n + len] != SEPARATOR {
            NextFrame::Desync { end: n + len as nat }
        } else {
            NextFrame::Whole { start: n, end: n + len as nat }
        },
        None => NextFrame::Incomplete,
    }
}

/// The messages found at the front of a stretch of the stream.
pub struct Extracted {
    /// Where each message lies, as `(start, end)`.
    pub ranges: Seq<(int, int)>,
    /// How many bytes the frames take, separators included.
    pub consumed: int,
    /// Where the stream is out of step, if it is.
    pub desync: Option<int>,
}

/// The frames of `buf` from `offset` on: whole ones up to the first that is
/// incomplete or out of step.
pub open spec fn frames_from(buf: Seq<u8>, offset: int) -> Extracted
    decreases buf.len() - offset,
{
    if offset < 0 || offset > buf.len() {
        Extracted { ranges: Seq::empty(), consumed: offset, desync: None }
    } else {
        match next_frame(buf.skip(offset)) {
            NextFrame::Incomplete => Extracted {
                ranges: Seq::empty(),
                consumed: offset,
                desync: None,
            },
            NextFrame::Desync { end } => Extracted {
                ranges: Seq::empty(),
                consumed: offset,
                desync: Some(offset + end),
            },
            NextFrame::Whole { start, end } => {
                let rest = frames_from(buf, offset + end + 1);
                Extracted {
                    ranges: seq![(offset + start, offset + end)] + rest.ranges,
                    ..rest
                }
            },
        }
    }
}

/// The frames of `buf`.
pub open spec fn frames(buf: Seq<u8>) -> Extracted {
    frames_from(buf, 0)
}

/// The messages that lie in the given ranges of `buf`.
pub open spec fn messages_in(buf: Seq<u8>, ranges: Seq<(int, int)>) -> Seq<Seq<u8>> {
    ranges.map_values(|r: (int, int)| buf.subrange(r.0, r.1))
}

/// The ranges as integers.
pub open spec fn ranges_view(ranges: Seq<(usize, usize)>) -> Seq<(int, int)> {
    ranges.map_values(|r: (usize, usize)| (r.0 as int, r.1 as int))
}

/// Finds the whole frames at the front of `buf`: the range of each message, and
/// how many bytes they take in all. A frame that announces more bytes than `buf`
/// holds, however many, is one that has not all arrived. The separator is
/// checked: a byte other than it means that the stream is out of step, and
/// everything from there on would be read wrong.
pub fn extract_ready_frames(buf: &[u8]) -> (res: Result<(Vec<(usize, usize)>, usize), FrameDesync>)
    ensures
        match frames(buf@).desync {
            None => res matches Ok((ranges, consumed)) && ranges_view(ranges@) == frames(
                buf@,
            ).ranges && consumed == frames(buf@).consumed,
            Some(at) => res matches Err(e) && e.at == at && 0 <= at < buf.len() && e.found
                == buf@[at],
        },
{
    let mut ranges: Vec<(usize, usize)> = Vec::new();
    let mut offset: usize = 0;
    assert(ranges_view(ranges@) + frames(buf@).ranges == frames(buf@).ranges);
    loop
        invariant
            offset <= buf.len(),
            frames(buf@).ranges == ranges_view(ranges@) + frames_from(buf@, offset as int).ranges,
            frames(buf@).consumed == frames_from(buf@, offset as int).consumed,
            frames(buf@).desync == frames_from(buf@, offset as int).desync,
        decreases buf.len() - offset,
    {
        let ghost s = buf@.skip(offset as int);
        proof {
            law_varint_length(s);
        }
        let (len, consumed) = match read_varint(buf, offset) {
            Some(pair) => pair,
            None => {
                assert(ranges_view(ranges@) + Seq::<(int, int)>::empty() == ranges_view(ranges@));
                return Ok((ranges, offset));
            },
        };
        let start: usize = offset + consumed;
        if len >= (buf.len() - start) as u64 {
            // More data is needed, if only to see the separator.
            assert(ranges_view(ranges@) + Seq::<(int, int)>::empty() == ranges_view(ranges@));
            return Ok((ranges, offset));
        }
        let end: usize = start + len as usize;
        assert(buf@[end as int] == s[consumed + len]);
        if buf[end] != SEPARATOR {
            return Err(FrameDesync { at: end, found: buf[end] });
        }
        let ghost before = ranges@;
        ranges.push((start, end));
        proof {
            let rest = frames_from(buf@, end + 1).ranges;
            assert(ranges_view(ranges@) =~= ranges_view(before).push((start as int, end as int)));
            assert(ranges_view(before) + (seq![(start as int, end as int)] + rest)
                =~= ranges_view(before).push((start as int, end as int)) + rest);
        }
        offset = end + 1;
    }
}

/// What a stretch of the stream holds, as messages rather than as ranges.
pub struct Parsed {
    /// The messages of the whole frames.
    pub messages: Seq<Seq<u8>>,
    /// How many bytes those frames take.
    pub consumed: int,
    /// Whether what follows them is out of step.
    pub desync: bool,
}

/// The messages of `buf`, how many bytes they take, and whether the stream is
/// out of step after them.
#[verifier::opaque]
pub open spec fn parsed(buf: Seq<u8>) -> Parsed {
    Parsed {
        messages: messages_in(buf, frames(buf).ranges),
        consumed: frames(buf).consumed,
        desync: frames(buf).desync is Some,
    }
}

/// Ranges moved by `d`.
pub open spec fn shifted(ranges: Seq<(int, int)>, d: int) -> Seq<(int, int)> {
    ranges.map_values(|r: (int, int)| (r.0 + d, r.1 + d))
}

/// Finding the frames from `offset` on depends on nothing before `offset`.
proof fn lemma_frames_from_shift(buf: Seq<u8>, offset: int)
    requires
        0 <= offset <= buf.len(),
    ensures
        frames_from(buf, offset).ranges == shifted(frames(buf.skip(offset)).ranges, offset),
        frames_from(buf, offset).consumed == offset + frames(buf.skip(offset)).consumed,
        frames_from(buf, offset).desync == match frames(buf.skip(offset)).desync {
            Some(at) => Some(offset + at),
            None => None,
        },
    decreases buf.len() - offset,
{
    let s = buf.skip(offset);
    assert(s.skip(0) == s);
    law_varint_length(s);
    match next_frame(s) {
        NextFrame::Whole { start, end } => {
            let k = (end + 1) as int;
            lemma_frames_from_shift(buf, offset + k);
            lemma_frames_from_shift(s, k);
            assert(buf.skip(offset + k) == s.skip(k));
            let rest = frames(s.skip(k)).ranges;
            let first = (start as int, end as int);
            assert(seq![(offset + start, offset + end)] + shifted(rest, offset + k) =~= shifted(
                seq![first] + shifted(rest, k),
                offset,
            ));
        },
        _ => {
            assert(shifted(Seq::empty(), offset) =~= Seq::empty());
        },
    }
}

proof fn lemma_frames_from_bounds(buf: Seq<u8>, offset: int)
    requires
        0 <= offset <= buf.len(),
    ensures
        offset <= frames_from(buf, offset).consumed <= buf.len(),
        forall|i: int|
            0 <= i < frames_from(buf, offset).ranges.len() ==> {
                let r = #[trigger] frames_from(buf, offset).ranges[i];
                offset <= r.0 <= r.1 < frames_from(buf, offset).consumed
            },
    decreases buf.len() - offset,
{
    let s = buf.skip(offset);
    law_varint_length(s);
    match next_frame(s) {
        NextFrame::Whole { start, end } => {
            let k = (end + 1) as int;
            lemma_frames_from_bounds(buf, offset + k);
            let here = frames_from(buf, offset);
            let rest = frames_from(buf, offset + k);
            assert forall|i: int| 0 <= i < here.ranges.len() implies {
                let r = #[trigger] here.ranges[i];
                offset <= r.0 <= r.1 < here.consumed
            } by {
                if i > 0 {
                    assert(here.ranges[i] == rest.ranges[i - 1]);
                }
            }
        },
        _ => {},
    }
}

/// Every message lies within the frames that were found, and those within the
/// buffer.
pub proof fn law_frames_in_bounds(buf: Seq<u8>)
    ensures
        0 <= frames(buf).consumed <= buf.len(),
        forall|i: int|
            0 <= i < frames(buf).ranges.len() ==> {
                let r = #[trigger] frames(buf).ranges[i];
                0 <= r.0 <= r.1 < frames(buf).consumed
            },
{
    lemma_frames_from_bounds(buf, 0);
}

/// One step of reading the stream: the first frame, then the rest.
proof fn lemma_parsed_step(s: Seq<u8>)
    ensures
        0 <= parsed(s).consumed <= s.len(),
        parsed(s) == match next_frame(s) {
            NextFrame::Incomplete => Parsed {
                messages: Seq::empty(),
                consumed: 0,
                desync: false,
            },
            NextFrame::Desync { end } => Parsed {
                messages: Seq::empty(),
                consumed: 0,
                desync: true,
            },
            NextFrame::Whole { start, end } => {
                let rest = parsed(s.skip((end + 1) as int));
                Parsed {
                    messages: seq![s.subrange(start as int, end as int)] + rest.messages,
                    consumed: end + 1 + rest.consumed,
                    desync: rest.desync,
                }
            },
        },
{
    reveal(parsed);
    assert(s.skip(0) == s);
    law_frames_in_bounds(s);
    law_varint_length(s);
    match next_frame(s) {
        NextFrame::Whole { start, end } => {
            let k = (end + 1) as int;
            let t = s.skip(k);
            lemma_frames_from_shift(s, k);
            lemma_step_messages(s, k, (start as int, end as int), frames(t).ranges);
        },
        _ => {
            assert(messages_in(s, frames(s).ranges) =~= Seq::empty());
        },
    }
}

proof fn lemma_step_messages(s: Seq<u8>, k: int, first: (int, int), rest: Seq<(int, int)>)
    requires
        0 <= k <= s.len(),
        rest == frames(s.skip(k)).ranges,
    ensures
        messages_in(s, seq![first] + shifted(rest, k)) == seq![s.subrange(first.0, first.1)]
            + messages_in(s.skip(k), rest),
{
    let t = s.skip(k);
    law_frames_in_bounds(t);
    let all = seq![first] + shifted(rest, k);
    let want = seq![s.subrange(first.0, first.1)] + messages_in(t, rest);
    assert forall|i: int| 0 <= i < all.len() implies messages_in(s, all)[i] == want[i] by {
        if i > 0 {
            let q = rest[i - 1];
            assert(all[i] == (q.0 + k, q.1 + k));
            assert(s.subrange(q.0 + k, q.1 + k) == t.subrange(q.0, q.1));
        }
    }
    assert(messages_in(s, all) =~= want);
}

proof fn lemma_next_frame_extend(s: Seq<u8>, t: Seq<u8>)
    requires
        !(next_frame(s) is Incomplete),
    ensures
        next_frame(s + t) == next_frame(s),
{
    law_varint_length(s);
    law_varint_prefix(s, t);
}

/// Reading a stream in two pieces gives the messages of the whole: after the
/// frames of the first piece are taken off, what is left of it together with the
/// second piece yields the remaining messages, and nothing else.
pub proof fn law_frames_resume(a: Seq<u8>, b: Seq<u8>)
    ensures
        parsed(a).desync ==> parsed(a + b).desync,
        !parsed(a).desync ==> ({
            let rest = parsed(a.skip(parsed(a).consumed) + b);
            parsed(a + b) == Parsed {
                messages: parsed(a).messages + rest.messages,
                consumed: parsed(a).consumed + rest.consumed,
                desync: rest.desync,
            }
        }),
    decreases a.len(),
{
    lemma_parsed_step(a);
    law_varint_length(a);
    match next_frame(a) {
        NextFrame::Incomplete => {
            assert(a.skip(0) == a);
            let rest = parsed(a + b);
            assert(Seq::<Seq<u8>>::empty() + rest.messages == rest.messages);
        },
        NextFrame::Desync { end } => {
            lemma_next_frame_extend(a, b);
            lemma_parsed_step(a + b);
        },
        NextFrame::Whole { start, end } => {
            let k = (end + 1) as int;
            lemma_next_frame_extend(a, b);
            lemma_parsed_step(a + b);
            assert((a + b).skip(k) == a.skip(k) + b);
            assert((a + b).subrange(start as int, end as int) == a.subrange(
                start as int,
                end as int,
            ));
            law_frames_resume(a.skip(k), b);
            if !parsed(a).desync {
                let c = parsed(a.skip(k)).consumed;
                lemma_parsed_step(a.skip(k));
                assert(a.skip(k).skip(c) == a.skip(k + c));
                let rest = parsed(a.skip(k + c) + b);
                let first = seq![a.subrange(start as int, end as int)];
                assert(first + (parsed(a.skip(k)).messages + rest.messages) == parsed(a).messages
                    + rest.messages);
            }
        },
    }
}

/// The pieces of a stream, end to end.
pub open spec fn joined(chunks: Seq<Seq<u8>>) -> Seq<u8>
    decreases chunks.len(),
{
    if chunks.len() == 0 {
        Seq::empty()
    } else {
        joined(chunks.drop_last()) + chunks.last()
    }
}

/// A reader that takes the pieces of a stream one by one: the bytes it has not
/// yet used, the messages it has handed on, and whether it met a frame out of
/// step, after which it reads no more.
pub struct Reader {
    pub pending: Seq<u8>,
    pub messages: Seq<Seq<u8>>,
    pub desync: bool,
}

/// The reader after the given pieces.
pub open spec fn read_chunks(chunks: Seq<Seq<u8>>) -> Reader
    decreases chunks.len(),
{
    if chunks.len() == 0 {
        Reader { pending: Seq::empty(), messages: Seq::empty(), desync: false }
    } else {
        let before = read_chunks(chunks.drop_last());
        let buf = before.pending + chunks.last();
        if before.desync {
            before
        } else if parsed(buf).desync {
            Reader { pending: buf, messages: before.messages, desync: true }
        } else {
            Reader {
                pending: buf.skip(parsed(buf).consumed),
                messages: before.messages + parsed(buf).messages,
                desync: false,
            }
        }
    }
}

/// How a stream is cut into pieces makes no difference: a reader that takes it
/// piece by piece hands on the messages of the whole stream, keeps the bytes
/// after them, and finds it out of step exactly if the whole is.
pub proof fn law_chunking_irrelevant(chunks: Seq<Seq<u8>>)
    ensures
        read_chunks(chunks).desync == parsed(joined(chunks)).desync,
        !parsed(joined(chunks)).desync ==> {
            &&& read_chunks(chunks).messages == parsed(joined(chunks)).messages
            &&& read_chunks(chunks).pending == joined(chunks).skip(parsed(joined(chunks)).consumed)
        },
    decreases chunks.len(),
{
    if chunks.len() == 0 {
        let none = Seq::<u8>::empty();
        assert(joined(chunks) == none);
        lemma_parsed_step(none);
        law_varint_length(none);
        assert(none.skip(0) == none);
    } else {
        let front = joined(chunks.drop_last());
        let last = chunks.last();
        law_chunking_irrelevant(chunks.drop_last());
        law_frames_resume(front, last);
        if !parsed(front).desync {
            let c = parsed(front).consumed;
            lemma_parsed_step(front);
            let buf = front.skip(c) + last;
            lemma_parsed_step(buf);
            assert((front + last).skip(c + parsed(buf).consumed) == buf.skip(
                parsed(buf).consumed,
            ));
        }
    }
}

/// A message as a writer frames it.
pub open spec fn encode_frame(message: Seq<u8>) -> Seq<u8> {
    encode_varint(message.len()) + message + seq![SEPARATOR]
}

/// Messages as a writer frames them, one after the other.
pub open spec fn encode_frames(messages: Seq<Seq<u8>>) -> Seq<u8>
    decreases messages.len(),
{
    if messages.len() == 0 {
        Seq::empty()
    } else {
        encode_frame(messages[0]) + encode_frames(messages.skip(1))
    }
}

/// Reading a stream gives back the messages that were framed into it, all of
/// them and no others, and uses up exactly their frames, also where the start of
/// a further frame follows.
pub proof fn law_frames_round_trip(messages: Seq<Seq<u8>>, tail: Seq<u8>)
    requires
        forall|i: int| 0 <= i < messages.len() ==> (#[trigger] messages[i]).len() <= u64::MAX,
        next_frame(tail) is Incomplete,
    ensures
        parsed(encode_frames(messages) + tail) == (Parsed {
            messages,
            consumed: encode_frames(messages).len() as int,
            desync: false,
        }),
    decreases messages.len(),
{
    let s = encode_frames(messages) + tail;
    lemma_parsed_step(s);
    if messages.len() == 0 {
        assert(s == tail);
        assert(messages == Seq::<Seq<u8>>::empty());
    } else {
        let m = messages[0];
        let rest = messages.skip(1);
        let head = encode_varint(m.len());
        let after = m + seq![SEPARATOR] + encode_frames(rest) + tail;
        assert(s == head + after);
        law_varint_round_trip(m.len() as u64, after);
        let n = head.len() as int;
        let end = n + m.len();
        assert(s[end] == SEPARATOR);
        assert(s.subrange(n, end) == m);
        assert(s.skip(end + 1) == encode_frames(rest) + tail);
        assert forall|i: int| 0 <= i < rest.len() implies (#[trigger] rest[i]).len()
            <= u64::MAX by {
            assert(rest[i] == messages[i + 1]);
        }
        law_frames_round_trip(rest, tail);
        assert(seq![m] + rest == messages);
    }
}

/// A frame at the front of a buffer: its message is found where it lies, and behind it
/// everything is as it would be without it, so much further on. `h` is any spelling of
/// the message's length.
pub proof fn law_frame_in_front(h: Seq<u8>, message: Seq<u8>, rest: Seq<u8>)
    requires
        message.len() <= u64::MAX,
        decode_varint(h) == Some((message.len() as u64, h.len())),
    ensures
        ({
            let all = frames(h + message + seq![0x0Au8] + rest);
            let after = frames(rest);
            let taken = h.len() + message.len() + 1;
            &&& all.ranges == seq![(h.len() as int, (h.len() + message.len()) as int)] + Seq::new(
                after.ranges.len(),
                |i: int| (after.ranges[i].0 + taken, after.ranges[i].1 + taken),
            )
            &&& all.consumed == taken + after.consumed
            &&& all.desync == match after.desync {
                Some(at) => Some(at + taken),
                None => None,
            }
        }),
{
    let buf = h + message + seq![0x0Au8] + rest;
    let taken = (h.len() + message.len() + 1) as int;
    law_varint_length(h);
    law_varint_prefix(h, message + seq![0x0Au8] + rest);
    assert(h + (message + seq![0x0Au8] + rest) == buf);
    assert(buf.skip(0) == buf);
    assert(buf[taken - 1] == 0x0A);
    assert(next_frame(buf) == NextFrame::Whole { start: h.len(), end: h.len() + message.len() });
    lemma_frames_from_shift(buf, taken);
    assert(buf.skip(taken) == rest);
    let after = frames(rest);
    assert(shifted(after.ranges, taken) =~= Seq::new(
        after.ranges.len(),
        |i: int| (after.ranges[i].0 + taken, after.ranges[i].1 + taken),
    ));
}

/// Where a frame's message is followed by any byte but the separator, the buffer is out
/// of step there, and nothing is found in it.
pub proof fn law_frame_out_of_step(h: Seq<u8>, message: Seq<u8>, b: u8, rest: Seq<u8>)
    requires
        message.len() <= u64::MAX,
        decode_varint(h) == Some((message.len() as u64, h.len())),
        b != 0x0A,
    ensures
        ({
            let all = frames(h + message + seq![b] + rest);
            &&& all.ranges.len() == 0
            &&& all.consumed == 0
            &&& all.desync == Some((h.len() + message.len()) as int)
        }),
{
    let buf = h + message + seq![b] + rest;
    law_varint_length(h);
    law_varint_prefix(h, message + seq![b] + rest);
    assert(h + (message + seq![b] + rest) == buf);
    assert(buf.skip(0) == buf);
    assert(buf[(h.len() + message.len()) as int] == b);
}

/// Where the length, the message or the separator has not all arrived, nothing is found,
/// and nothing is wrong.
pub proof fn law_frame_incomplete(buf: Seq<u8>)
    requires
        decode_varint(buf) is None || (decode_varint(buf) matches Some((len, n)) && buf.len() <= n
            + len),
    ensures
        frames(buf).ranges.len() == 0,
        frames(buf).consumed == 0,
        frames(buf).desync is None,
{
    assert(buf.skip(0) == buf);
}

/// What a stretch of the stream holds, in terms of where its frames lie: the messages
/// are the bytes in their ranges.
pub proof fn law_messages_lie_in_ranges(buf: Seq<u8>)
    ensures
        parsed(buf).consumed == frames(buf).consumed,
        parsed(buf).desync == (frames(buf).desync is Some),
        parsed(buf).messages.len() == frames(buf).ranges.len(),
        forall|i: int|
            0 <= i < parsed(buf).messages.len() ==> #[trigger] parsed(buf).messages[i]
                == buf.subrange(frames(buf).ranges[i].0, frames(buf).ranges[i].1),
{
    reveal(parsed);
}

proof fn lemma_frames_from_count(buf: Seq<u8>, offset: int)
    requires
        0 <= offset <= buf.len(),
    ensures
        2 * frames_from(buf, offset).ranges.len() + offset <= frames_from(buf, offset).consumed,
        frames_from(buf, offset).desync matches Some(at) ==> offset <= at < buf.len(),
    decreases buf.len() - offset,
{
    let s = buf.skip(offset);
    law_varint_length(s);
    match next_frame(s) {
        NextFrame::Whole { start, end } => {
            lemma_frames_from_count(buf, offset + end + 1);
        },
        _ => {},
    }
}

/// Each frame takes at least two bytes, for its length and its separator; and where the
/// stream is out of step, there is a byte.
pub proof fn law_frames_apart(buf: Seq<u8>)
    ensures
        2 * frames(buf).ranges.len() <= frames(buf).consumed,
        frames(buf).desync matches Some(at) ==> 0 <= at < buf.len(),
{
    lemma_frames_from_count(buf, 0);
}

/// The ranges that are handed out are those that were found, one for one.
pub proof fn law_ranges_view(ranges: Seq<(usize, usize)>, i: int)
    requires
        0 <= i < ranges.len(),
    ensures
        ranges_view(ranges).len() == ranges.len(),
        ranges_view(ranges)[i].0 == ranges[i].0,
        ranges_view(ranges)[i].1 == ranges[i].1,
{
}

} // verus!
