//! Cutting a byte stream into frames.
//!
//! A station may send several messages in one TCP segment, and a message may come in several
//! segments. The reader keeps what is left over, so that each message comes out on its own.

use vstd::prelude::*;
use vstd::utf8::*;

use crate::message::{framed, message_comes_back, message_in, Message};
use crate::text::{free_of, join, lossy, lossy_text};

verus! {

/// The most bytes that the reader holds.
pub const MAX_BUFFERED: usize = 65_536;

// ---------------------------------------------------------------------------
// Frames in a row of bytes
// ---------------------------------------------------------------------------

/// The bytes that end a frame: `~__DATA`.
pub open spec fn end_mark() -> Seq<u8> {
    seq![0x7eu8, 0x5fu8, 0x5fu8, 0x44u8, 0x41u8, 0x54u8, 0x41u8]
}

/// An end mark stands at place `p`.
pub open spec fn marked(b: Seq<u8>, p: int) -> bool {
    0 <= p && p + 7 <= b.len() && b.subrange(p, p + 7) == end_mark()
}

/// The place of the first end mark, or the length of `b` where there is none.
pub open spec fn first_mark(b: Seq<u8>) -> int
    decreases b.len(),
{
    if b.len() == 0 || marked(b, 0) {
        0
    } else {
        1 + first_mark(b.skip(1))
    }
}

/// The complete frames in `b`, and what is left over.
pub open spec fn frames_in(b: Seq<u8>) -> (Seq<Seq<u8>>, Seq<u8>)
    decreases b.len(),
    via frames_in_decreases
{
    let p = first_mark(b);
    if p < b.len() {
        let (frames, rest) = frames_in(b.skip(p + 7));
        (seq![b.take(p + 7)] + frames, rest)
    } else {
        (Seq::empty(), b)
    }
}

#[via_fn]
proof fn frames_in_decreases(b: Seq<u8>) {
    lemma_first_mark(b);
}

/// What `first_mark` says of the bytes in front of the place it gives.
pub proof fn lemma_first_mark(b: Seq<u8>)
    ensures
        0 <= first_mark(b) <= b.len(),
        first_mark(b) < b.len() ==> marked(b, first_mark(b)),
        forall|j: int| 0 <= j < first_mark(b) ==> !marked(b, j),
    decreases b.len(),
{
    if b.len() > 0 && !marked(b, 0) {
        let t = b.skip(1);
        lemma_first_mark(t);
        let p = first_mark(t);
        if p < t.len() {
            assert(t.subrange(p, p + 7) == b.subrange(p + 1, p + 8));
        }
        assert forall|j: int| 0 <= j < first_mark(b) implies !marked(b, j) by {
            if j > 0 {
                assert(!marked(t, j - 1));
                if j + 7 <= b.len() {
                    assert(t.subrange(j - 1, j + 6) == b.subrange(j, j + 7));
                }
            }
        }
    }
}

/// `first_mark` gives the only place with that property.
pub proof fn lemma_first_mark_at(b: Seq<u8>, p: int)
    requires
        0 <= p <= b.len(),
        p < b.len() ==> marked(b, p),
        forall|j: int| 0 <= j < p ==> !marked(b, j),
    ensures
        first_mark(b) == p,
{
    lemma_first_mark(b);
    let q = first_mark(b);
    if q < p {
        assert(!marked(b, q));
    }
    if p < q {
        assert(!marked(b, p));
    }
}

// ---------------------------------------------------------------------------
// The reader
// ---------------------------------------------------------------------------

/// What reading from the connection came to.
#[derive(Debug, PartialEq, Eq, Structural, Clone, Copy)]
pub enum Received {
    /// The other side closed the connection.
    Closed,
    /// The bytes were taken in.
    Buffered,
    /// There is more than the reader may hold without a frame taken out.
    Overflow,
}

/// Cuts what comes over a connection into frames.
pub struct FrameReader {
    buf: Vec<u8>,
}

impl View for FrameReader {
    type V = Seq<u8>;

    /// The bytes that were taken in and not given out.
    closed spec fn view(&self) -> Seq<u8> {
        self.buf@
    }
}

impl FrameReader {
    /// A reader that holds nothing.
    pub fn new() -> (r: Self)
        ensures
            r@ == Seq::<u8>::empty(),
    {
        FrameReader { buf: Vec::with_capacity(512) }
    }

    /// Takes out the first frame, if there is a complete one.
    pub fn next_frame(&mut self) -> (r: Option<String>)
        ensures
            ({
                let p = first_mark(old(self)@);
                if p < old(self)@.len() {
                    &&& r is Some
                    &&& r->0@ == lossy(old(self)@.take(p + 7))
                    &&& final(self)@ == old(self)@.skip(p + 7)
                } else {
                    &&& r is None
                    &&& final(self)@ == old(self)@
                }
            }),
    {
        match self.mark_place() {
            Some(p) => {
                assert(p + 7 <= self.buf.len());
                let rest: Vec<u8> = self.buf.split_off(p + 7);
                let text: String = lossy_text(self.buf.as_slice());
                self.buf = rest;
                assert(old(self)@.subrange(0, p + 7) == old(self)@.take(p + 7));
                assert(old(self)@.subrange(p + 7, old(self)@.len() as int) == old(self)@.skip(
                    p + 7,
                ));
                Some(text)
            },
            None => None,
        }
    }

    /// Takes in what was read from the connection; nothing read means that it was closed.
    pub fn receive(&mut self, chunk: &[u8]) -> (r: Received)
        ensures
            final(self)@ == old(self)@ + chunk@,
            r == (if chunk@.len() == 0 {
                Received::Closed
            } else if old(self)@.len() + chunk@.len() > MAX_BUFFERED {
                Received::Overflow
            } else {
                Received::Buffered
            }),
    {
        if chunk.len() == 0 {
            assert(old(self)@ + chunk@ == old(self)@);
            return Received::Closed;
        }
        self.buf.extend_from_slice(chunk);
        assert(self.buf@ =~= old(self)@ + chunk@);
        if self.buf.len() > MAX_BUFFERED {
            Received::Overflow
        } else {
            Received::Buffered
        }
    }

    /// The place of the first end mark.
    fn mark_place(&self) -> (r: Option<usize>)
        ensures
            match r {
                Some(p) => p == first_mark(self@) && p + 7 <= self@.len(),
                None => first_mark(self@) == self@.len(),
            },
    {
        let n: usize = self.buf.len();
        let ghost b = self.buf@;
        let mut p: usize = 0;
        while n >= 7 && p <= n - 7
            invariant
                n == b.len(),
                b == self.buf@,
                p <= n,
                forall|j: int| 0 <= j < p ==> !marked(b, j),
            decreases n - p,
        {
            if self.buf[p] == 0x7e && self.buf[p + 1] == 0x5f && self.buf[p + 2] == 0x5f
                && self.buf[p + 3] == 0x44 && self.buf[p + 4] == 0x41 && self.buf[p + 5] == 0x54
                && self.buf[p + 6] == 0x41 {
                proof {
                    assert(b.subrange(p as int, p + 7) =~= end_mark());
                    lemma_first_mark_at(b, p as int);
                }
                return Some(p);
            }
            proof {
                if marked(b, p as int) {
                    let s = b.subrange(p as int, p + 7);
                    assert(s[0] == b[p as int] && s[1] == b[p + 1] && s[2] == b[p + 2] && s[3] == b[p
                        + 3] && s[4] == b[p + 4] && s[5] == b[p + 5] && s[6] == b[p + 6]);
                }
            }
            p = p + 1;
        }
        proof {
            lemma_first_mark_at(b, n as int);
        }
        None
    }
}

// ---------------------------------------------------------------------------
// Laws
// ---------------------------------------------------------------------------

/// How the stream is cut into segments does not matter: the frames of two segments are those
/// of the first, and then those of what it left over with the second behind it.
pub proof fn segments_do_not_matter(a: Seq<u8>, b: Seq<u8>)
    ensures
        frames_in(a + b).0 == frames_in(a).0 + frames_in(frames_in(a).1 + b).0,
        frames_in(a + b).1 == frames_in(frames_in(a).1 + b).1,
    decreases a.len(),
{
    lemma_first_mark(a);
    let p = first_mark(a);
    if p < a.len() {
        let s = a + b;
        assert(s.subrange(p, p + 7) == a.subrange(p, p + 7));
        assert forall|j: int| 0 <= j < p implies !marked(s, j) by {
            assert(!marked(a, j));
            assert(s.subrange(j, j + 7) == a.subrange(j, j + 7));
        }
        lemma_first_mark_at(s, p);
        assert(s.skip(p + 7) == a.skip(p + 7) + b);
        assert(s.take(p + 7) == a.take(p + 7));
        segments_do_not_matter(a.skip(p + 7), b);
        let x = frames_in(a.skip(p + 7)).0;
        let y = frames_in(frames_in(a).1 + b).0;
        assert(seq![a.take(p + 7)] + (x + y) == (seq![a.take(p + 7)] + x) + y);
    } else {
        assert(Seq::<Seq<u8>>::empty() + frames_in(a + b).0 == frames_in(a + b).0);
    }
}

/// The bytes of `frames`, one after the other.
pub open spec fn concat(frames: Seq<Seq<u8>>) -> Seq<u8>
    decreases frames.len(),
{
    if frames.len() == 0 {
        Seq::empty()
    } else {
        frames[0] + concat(frames.skip(1))
    }
}

/// The frames that come out, and what is left over, where each segment is taken in and all
/// frames are taken out before the next one.
pub open spec fn read_in(segments: Seq<Seq<u8>>) -> (Seq<Seq<u8>>, Seq<u8>)
    decreases segments.len(),
{
    if segments.len() == 0 {
        (Seq::empty(), Seq::empty())
    } else {
        let (before, held) = read_in(segments.drop_last());
        let (frames, rest) = frames_in(held + segments.last());
        (before + frames, rest)
    }
}

/// Whatever segments the stream comes in, the same frames come out and the same is left over.
pub proof fn segments_are_read_as_one(segments: Seq<Seq<u8>>)
    ensures
        read_in(segments) == frames_in(concat(segments)),
    decreases segments.len(),
{
    if segments.len() > 0 {
        let front = segments.drop_last();
        segments_are_read_as_one(front);
        lemma_concat_last(segments);
        segments_do_not_matter(concat(front), segments.last());
    } else {
        lemma_first_mark(Seq::empty());
    }
}

/// The last piece stands at the end.
proof fn lemma_concat_last(pieces: Seq<Seq<u8>>)
    requires
        pieces.len() > 0,
    ensures
        concat(pieces) == concat(pieces.drop_last()) + pieces.last(),
    decreases pieces.len(),
{
    let rest = pieces.skip(1);
    if pieces.len() == 1 {
        assert(concat(rest) == Seq::<u8>::empty());
        assert(concat(pieces.drop_last()) == Seq::<u8>::empty());
        assert(concat(pieces) == pieces[0]);
    } else {
        lemma_concat_last(rest);
        assert(pieces.drop_last().skip(1) == rest.drop_last());
        assert(pieces.drop_last()[0] == pieces[0]);
        assert(rest.last() == pieces.last());
        assert(concat(pieces) == pieces[0] + (concat(rest.drop_last()) + pieces.last()));
    }
}

/// One frame: it ends in an end mark, and holds no other one.
pub open spec fn is_frame(b: Seq<u8>) -> bool {
    b.len() >= 7 && first_mark(b) == b.len() - 7
}

/// Nothing is lost and nothing is added: what comes out and what is left over are what came
/// in, each piece that comes out is one frame, and no frame is left over.
pub proof fn frames_are_the_stream(b: Seq<u8>)
    ensures
        concat(frames_in(b).0) + frames_in(b).1 == b,
        forall|i: int| 0 <= i < frames_in(b).0.len() ==> is_frame(#[trigger] frames_in(b).0[i]),
        first_mark(frames_in(b).1) == frames_in(b).1.len(),
    decreases b.len(),
{
    lemma_first_mark(b);
    let p = first_mark(b);
    if p < b.len() {
        let rest = b.skip(p + 7);
        frames_are_the_stream(rest);
        let f = b.take(p + 7);
        let all = frames_in(b).0;
        assert(all.skip(1) == frames_in(rest).0);
        assert(b == f + (concat(frames_in(rest).0) + frames_in(rest).1));
        assert(f + (concat(frames_in(rest).0) + frames_in(rest).1) == (f + concat(
            frames_in(rest).0,
        )) + frames_in(rest).1);
        assert(is_frame(f)) by {
            assert(f.subrange(p, p + 7) == b.subrange(p, p + 7));
            assert forall|j: int| 0 <= j < p implies !marked(f, j) by {
                assert(!marked(b, j));
                assert(f.subrange(j, j + 7) == b.subrange(j, j + 7));
            }
            lemma_first_mark_at(f, p);
        }
        assert forall|i: int| 0 <= i < all.len() implies is_frame(#[trigger] all[i]) by {
            if i > 0 {
                assert(all[i] == frames_in(rest).0[i - 1]);
            }
        }
    } else {
        assert(concat(Seq::empty()) + b == b);
    }
}

/// Frames that were sent one after the other come out one by one, and what came behind them
/// is left over.
pub proof fn frames_come_out_one_by_one(frames: Seq<Seq<u8>>, rest: Seq<u8>)
    requires
        forall|i: int| 0 <= i < frames.len() ==> is_frame(#[trigger] frames[i]),
        first_mark(rest) == rest.len(),
    ensures
        frames_in(concat(frames) + rest) == (frames, rest),
    decreases frames.len(),
{
    if frames.len() == 0 {
        assert(concat(frames) + rest == rest);
        assert(frames == Seq::<Seq<u8>>::empty());
    } else {
        let f = frames[0];
        let more = frames.skip(1);
        assert forall|i: int| 0 <= i < more.len() implies is_frame(#[trigger] more[i]) by {
            assert(more[i] == frames[i + 1]);
        }
        frames_come_out_one_by_one(more, rest);
        assert(is_frame(f));
        lemma_first_mark(f);
        let p = f.len() - 7;
        let s = concat(frames) + rest;
        assert(s.subrange(p, p + 7) == f.subrange(p, p + 7));
        assert forall|j: int| 0 <= j < p implies !marked(s, j) by {
            assert(!marked(f, j));
            assert(s.subrange(j, j + 7) == f.subrange(j, j + 7));
        }
        lemma_first_mark_at(s, p);
        assert(s.take(p + 7) == f);
        assert(s.skip(p + 7) == concat(more) + rest);
        assert(seq![f] + more == frames);
    }
}

/// While frames of at most `longest` bytes are coming in, less than that is held between two
/// segments: a segment is refused only where a frame is too long for the reader.
pub proof fn less_than_a_frame_is_held(
    frames: Seq<Seq<u8>>,
    segments: Seq<Seq<u8>>,
    coming: Seq<u8>,
    longest: nat,
)
    requires
        forall|i: int|
            0 <= i < frames.len() ==> is_frame(#[trigger] frames[i]) && frames[i].len() <= longest,
        concat(segments) + coming == concat(frames),
        longest > 0,
    ensures
        read_in(segments).1.len() < longest,
{
    segments_are_read_as_one(segments);
    lemma_part_of_frames(frames, concat(segments), coming, longest);
}

proof fn lemma_part_of_frames(frames: Seq<Seq<u8>>, a: Seq<u8>, coming: Seq<u8>, longest: nat)
    requires
        forall|i: int|
            0 <= i < frames.len() ==> is_frame(#[trigger] frames[i]) && frames[i].len() <= longest,
        a + coming == concat(frames),
        longest > 0,
    ensures
        frames_in(a).1.len() < longest,
    decreases frames.len(),
{
    lemma_first_mark(a);
    if frames.len() == 0 {
        assert((a + coming).len() == 0);
    } else {
        let f = frames[0];
        let more = frames.skip(1);
        let s = concat(frames);
        assert(is_frame(f));
        lemma_first_mark(f);
        let p = f.len() - 7;
        if a.len() >= f.len() {
            assert(a.subrange(p, p + 7) =~= f.subrange(p, p + 7)) by {
                assert forall|j: int| p <= j < p + 7 implies a[j] == f[j] by {
                    assert(a[j] == s[j]);
                }
            }
            assert forall|j: int| 0 <= j < p implies !marked(a, j) by {
                assert(!marked(f, j));
                assert(a.subrange(j, j + 7) =~= f.subrange(j, j + 7)) by {
                    assert forall|k: int| j <= k < j + 7 implies a[k] == f[k] by {
                        assert(a[k] == s[k]);
                    }
                }
            }
            lemma_first_mark_at(a, p);
            let rest = a.skip(p + 7);
            assert(rest + coming =~= s.skip(p + 7));
            assert(s.skip(p + 7) =~= concat(more));
            assert forall|i: int| 0 <= i < more.len() implies is_frame(#[trigger] more[i])
                && more[i].len() <= longest by {
                assert(more[i] == frames[i + 1]);
            }
            lemma_part_of_frames(more, rest, coming, longest);
        } else {
            assert forall|j: int| 0 <= j < a.len() implies !marked(a, j) by {
                if j + 7 <= a.len() {
                    assert(!marked(f, j));
                    assert(a.subrange(j, j + 7) =~= f.subrange(j, j + 7)) by {
                        assert forall|k: int| j <= k < j + 7 implies a[k] == f[k] by {
                            assert(a[k] == s[k]);
                        }
                    }
                }
            }
            lemma_first_mark_at(a, a.len() as int);
        }
    }
}

// ---------------------------------------------------------------------------
// Messages in a stream
// ---------------------------------------------------------------------------

/// The end mark stands at place `i` of a text.
pub open spec fn text_marked(s: Seq<char>, i: int) -> bool {
    0 <= i && i + 7 <= s.len() && s.subrange(i, i + 7) == "~__DATA"@
}

/// A text that ends in an end mark and holds no other one.
pub open spec fn is_frame_text(s: Seq<char>) -> bool {
    &&& text_marked(s, s.len() - 7)
    &&& forall|i: int| 0 <= i < s.len() - 7 ==> !text_marked(s, i)
}

/// The bytes of each text.
pub open spec fn encoded(texts: Seq<Seq<char>>) -> Seq<Seq<u8>> {
    texts.map_values(|s: Seq<char>| encode_utf8(s))
}

/// What the reader makes of each frame.
pub open spec fn decoded(frames: Seq<Seq<u8>>) -> Seq<Seq<char>> {
    frames.map_values(|b: Seq<u8>| lossy(b))
}

/// Texts of one frame each that were sent one after the other come out one by one.
pub proof fn texts_come_out_one_by_one(texts: Seq<Seq<char>>)
    requires
        forall|i: int| 0 <= i < texts.len() ==> is_frame_text(#[trigger] texts[i]),
    ensures
        decoded(frames_in(concat(encoded(texts))).0) == texts,
        frames_in(concat(encoded(texts))).1 == Seq::<u8>::empty(),
{
    let frames = encoded(texts);
    assert forall|i: int| 0 <= i < frames.len() implies is_frame(#[trigger] frames[i]) by {
        assert(is_frame_text(texts[i]));
        lemma_frame_text(texts[i]);
    }
    frames_come_out_one_by_one(frames, Seq::empty());
    assert(concat(frames) + Seq::<u8>::empty() == concat(frames));
    assert(decoded(frames) =~= texts) by {
        broadcast use encode_utf8_valid_utf8, encode_utf8_decode_utf8;

    }
}

/// No end mark stands in a text.
pub open spec fn unmarked(s: Seq<char>) -> bool {
    forall|i: int| !text_marked(s, i)
}

/// A message that can be sent: no part of it holds the separator or the end mark.
pub open spec fn can_be_sent(m: Message) -> bool {
    &&& !m.sender.contains('%')
    &&& !m.command.contains('%')
    &&& free_of(m.fields, '%')
    &&& unmarked(m.sender)
    &&& unmarked(m.command)
    &&& forall|i: int| 0 <= i < m.fields.len() ==> unmarked(#[trigger] m.fields[i])
}

/// The text that sends a message.
pub open spec fn text_of(m: Message) -> Seq<char> {
    framed(m.sender, m.command, m.fields)
}

/// What is read of a message that was sent.
pub open spec fn as_read(m: Message) -> Message {
    Message { sender: m.sender, command: m.command, fields: m.fields.push(Seq::empty()) }
}

/// Messages that were sent one after the other, in whatever segments they came, are read one
/// by one as they were sent, and nothing is left over.
pub proof fn messages_come_out_one_by_one(messages: Seq<Message>, segments: Seq<Seq<u8>>)
    requires
        forall|i: int| 0 <= i < messages.len() ==> can_be_sent(#[trigger] messages[i]),
        concat(segments) == concat(encoded(messages.map_values(|m: Message| text_of(m)))),
    ensures
        ({
            let (frames, rest) = read_in(segments);
            &&& decoded(frames).map_values(|s: Seq<char>| message_in(s)) == messages.map_values(
                |m: Message| Some(as_read(m)),
            )
            &&& rest == Seq::<u8>::empty()
        }),
{
    let texts = messages.map_values(|m: Message| text_of(m));
    assert forall|i: int| 0 <= i < texts.len() implies is_frame_text(#[trigger] texts[i]) by {
        assert(can_be_sent(messages[i]));
        lemma_framed_is_frame(messages[i]);
    }
    texts_come_out_one_by_one(texts);
    segments_are_read_as_one(segments);
    let read = texts.map_values(|s: Seq<char>| message_in(s));
    let want = messages.map_values(|m: Message| Some(as_read(m)));
    assert forall|i: int| 0 <= i < read.len() implies read[i] == want[i] by {
        let m = messages[i];
        assert(can_be_sent(m));
        message_comes_back(m.sender, m.command, m.fields);
    }
    assert(read =~= want);
}

/// A framed message is one frame.
proof fn lemma_framed_is_frame(m: Message)
    requires
        can_be_sent(m),
    ensures
        is_frame_text(text_of(m)),
{
    reveal_strlit("DATA__00");
    reveal_strlit("~__DATA");
    let parts = seq![Seq::empty(), m.sender, m.command] + m.fields.push(Seq::empty());
    let inner = join(parts, '%');
    let s = text_of(m);
    let n = inner.len() as int;
    assert(s.subrange(s.len() - 7, s.len() as int) == "~__DATA"@);
    crate::text::lemma_join_ends(parts, '%');
    assert forall|i: int| 0 <= i < s.len() - 7 implies !text_marked(s, i) by {
        if text_marked(s, i) {
            let x = s.subrange(i, i + 7);
            assert(x[0] == s[i]);
            assert(s[i] == '~');
            if i < 8 {
                assert(s[i] == "DATA__00"@[i]);
            } else if i + 7 > 8 + n {
                // the separator in front of the end mark would stand in the mark
                let k = 8 + n - 1 - i;
                assert(x[k] == s[8 + n - 1]);
                assert(s[8 + n - 1] == inner[n - 1]);
                assert("~__DATA"@[k] != '%');
            } else {
                assert(inner.subrange(i - 8, i - 1) == x);
                lemma_mark_in_join(parts, i - 8);
                let (k, j) = choose|k: int, j: int|
                    0 <= k < parts.len() && #[trigger] text_marked(parts[k], j);
                if 3 <= k < parts.len() - 1 {
                    assert(parts[k] == m.fields[k - 3]);
                    assert(unmarked(m.fields[k - 3]));
                }
            }
        }
    }
}

/// An end mark in joined parts stands in one of them.
proof fn lemma_mark_in_join(parts: Seq<Seq<char>>, i: int)
    requires
        text_marked(join(parts, '%'), i),
    ensures
        exists|k: int, j: int| 0 <= k < parts.len() && #[trigger] text_marked(parts[k], j),
    decreases parts.len(),
{
    reveal_strlit("~__DATA");
    let s = join(parts, '%');
    if parts.len() == 1 {
        assert(text_marked(parts[0], i));
    } else if parts.len() > 1 {
        let p = parts[0];
        let n = p.len() as int;
        let rest = parts.skip(1);
        let x = s.subrange(i, i + 7);
        if i + 7 <= n {
            assert(p.subrange(i, i + 7) == x);
            assert(text_marked(parts[0], i));
        } else if i <= n {
            assert(x[n - i] == s[n]);
            assert(s[n] == '%');
            assert("~__DATA"@[n - i] != '%');
        } else {
            assert(join(rest, '%').subrange(i - n - 1, i - n + 6) == x);
            lemma_mark_in_join(rest, i - n - 1);
            let (k, j) = choose|k: int, j: int|
                0 <= k < rest.len() && #[trigger] text_marked(rest[k], j);
            assert(parts[k + 1] == rest[k]);
            assert(text_marked(parts[k + 1], j));
        }
    }
}

/// The bytes of a text that is one frame are one frame.
proof fn lemma_frame_text(s: Seq<char>)
    requires
        is_frame_text(s),
    ensures
        is_frame(encode_utf8(s)),
{
    let n = s.len() - 7;
    let b = encode_utf8(s);
    let front = encode_utf8(s.take(n));
    assert(s == s.take(n) + "~__DATA"@);
    lemma_encode_concat(s.take(n), "~__DATA"@);
    lemma_mark_bytes();
    let p = front.len() as int;
    assert(b == front + end_mark());
    assert(b.subrange(p, p + 7) == end_mark());
    assert forall|j: int| 0 <= j < p implies !marked(b, j) by {
        if marked(b, j) {
            lemma_marked_text(s, j);
            let i = choose|i: int| text_marked(s, i) && encode_utf8(s.take(i)).len() == j;
            assert(i == n);
        }
    }
    lemma_first_mark_at(b, p);
}

/// UTF-8 goes character by character.
pub proof fn lemma_encode_concat(a: Seq<char>, b: Seq<char>)
    ensures
        encode_utf8(a + b) == encode_utf8(a) + encode_utf8(b),
    decreases a.len(),
{
    if a.len() == 0 {
        assert(a + b == b);
        assert(encode_utf8(a) + encode_utf8(b) == encode_utf8(b));
    } else {
        let t = a.drop_first();
        assert((a + b).drop_first() == t + b);
        assert((a + b)[0] == a[0]);
        lemma_encode_concat(t, b);
        let x = encode_scalar(a[0] as u32);
        assert(x + (encode_utf8(t) + encode_utf8(b)) == (x + encode_utf8(t)) + encode_utf8(b));
    }
}

/// The end mark in bytes.
proof fn lemma_mark_bytes()
    ensures
        encode_utf8("~__DATA"@) == end_mark(),
{
    reveal_strlit("~__DATA");
    let s = "~__DATA"@;
    assert(is_ascii_chars(s));
    is_ascii_chars_encode_utf8(s);
    assert(encode_utf8(s).len() == 7);
    assert(s[0] as u8 == encode_utf8(s)[0] && s[1] as u8 == encode_utf8(s)[1] && s[2] as u8
        == encode_utf8(s)[2] && s[3] as u8 == encode_utf8(s)[3] && s[4] as u8 == encode_utf8(
        s,
    )[4] && s[5] as u8 == encode_utf8(s)[5] && s[6] as u8 == encode_utf8(s)[6]);
    assert(encode_utf8(s) =~= end_mark());
}

/// A byte below 0x80 is a character of its own.
proof fn lemma_first_byte(s: Seq<char>, b: u8)
    requires
        s.len() > 0,
        b < 0x80,
        encode_utf8(s)[0] == b,
    ensures
        s[0] as u32 == b,
        encode_utf8(s) == seq![b] + encode_utf8(s.skip(1)),
{
    char_is_scalar(s[0]);
    let u = s[0] as u32;
    let e = encode_scalar(u);
    assert(s.drop_first() == s.skip(1));
    assert(e[0] == b);
    lemma_scalar_bytes(u);
    if has_width_1_encoding(u) {
        assert(e =~= seq![b]);
    }
}

/// The bytes of one character: below 0x80 there is one, and elsewhere none is below 0x80.
proof fn lemma_scalar_bytes(u: u32)
    requires
        is_scalar(u),
    ensures
        encode_scalar(u).len() > 0,
        has_width_1_encoding(u) ==> encode_scalar(u).len() == 1 && encode_scalar(u)[0] == u,
        !has_width_1_encoding(u) ==> forall|i: int|
            0 <= i < encode_scalar(u).len() ==> #[trigger] encode_scalar(u)[i] >= 0x80,
{
    if has_width_1_encoding(u) {
        assert(leading_byte_width_1(u) == u) by (bit_vector)
            requires
                has_width_1_encoding(u),
        ;
    } else if has_width_2_encoding(u) {
        assert(leading_byte_width_2(u) >= 0x80 && last_continuation_byte(u) >= 0x80)
            by (bit_vector)
            requires
                has_width_2_encoding(u),
        ;
    } else if has_width_3_encoding(u) {
        assert(leading_byte_width_3(u) >= 0x80 && last_continuation_byte(u) >= 0x80
            && second_last_continuation_byte(u) >= 0x80) by (bit_vector)
            requires
                has_width_3_encoding(u),
        ;
    } else {
        assert(leading_byte_width_4(u) >= 0x80 && last_continuation_byte(u) >= 0x80
            && second_last_continuation_byte(u) >= 0x80 && third_last_continuation_byte(u) >= 0x80)
            by (bit_vector)
            requires
                has_width_4_encoding(u),
        ;
    }
}

/// Characters with the same code point are the same.
proof fn lemma_same_char(c: char, d: char)
    requires
        c as u32 == d as u32,
    ensures
        c == d,
{
}

/// Bytes of a text that begin with ASCII are characters.
proof fn lemma_ascii_front(s: Seq<char>, m: Seq<u8>)
    requires
        m.len() <= encode_utf8(s).len(),
        encode_utf8(s).take(m.len() as int) == m,
        forall|i: int| 0 <= i < m.len() ==> #[trigger] m[i] < 0x80,
    ensures
        m.len() <= s.len(),
        forall|i: int| 0 <= i < m.len() ==> #[trigger] s[i] as u32 == m[i],
    decreases m.len(),
{
    if m.len() > 0 {
        let b = encode_utf8(s);
        assert(b.take(m.len() as int)[0] == b[0]);
        assert(s.len() > 0);
        lemma_first_byte(s, m[0]);
        let t = s.skip(1);
        assert(encode_utf8(t).take(m.len() - 1) =~= m.skip(1)) by {
            assert forall|i: int| 0 <= i < m.len() - 1 implies encode_utf8(t)[i] == #[trigger] m[i
                + 1] by {
                assert(b.take(m.len() as int)[i + 1] == b[i + 1]);
            }
        }
        lemma_ascii_front(t, m.skip(1));
        assert forall|i: int| 0 <= i < m.len() implies #[trigger] s[i] as u32 == m[i] by {
            if i > 0 {
                assert(t[i - 1] as u32 == m.skip(1)[i - 1]);
            }
        }
    }
}

/// An end mark in the bytes of a text is an end mark in the text.
proof fn lemma_marked_text(s: Seq<char>, j: int)
    requires
        marked(encode_utf8(s), j),
    ensures
        exists|i: int| text_marked(s, i) && encode_utf8(s.take(i)).len() == j,
    decreases s.len(),
{
    let b = encode_utf8(s);
    if j == 0 {
        assert(b.take(7) == b.subrange(0, 7));
        lemma_ascii_front(s, end_mark());
        reveal_strlit("~__DATA");
        let m = end_mark();
        assert(s[0] as u32 == m[0] && s[1] as u32 == m[1] && s[2] as u32 == m[2] && s[3] as u32
            == m[3] && s[4] as u32 == m[4] && s[5] as u32 == m[5] && s[6] as u32 == m[6]);
        lemma_same_char(s[0], '~');
        lemma_same_char(s[1], '_');
        lemma_same_char(s[2], '_');
        lemma_same_char(s[3], 'D');
        lemma_same_char(s[4], 'A');
        lemma_same_char(s[5], 'T');
        lemma_same_char(s[6], 'A');
        assert(s.subrange(0, 7) =~= "~__DATA"@);
        assert(s.take(0) == Seq::<char>::empty());
        assert(text_marked(s, 0) && encode_utf8(s.take(0)).len() == 0);
    } else {
        assert(s.len() > 0);
        char_is_scalar(s[0]);
        let u = s[0] as u32;
        let e = encode_scalar(u);
        lemma_scalar_bytes(u);
        let t = s.drop_first();
        let w = e.len() as int;
        assert(b.subrange(j, j + 7)[0] == b[j]);
        assert(b[j] == 0x7e);
        if j < w {
            assert(b[j] == e[j]);
        }
        assert(encode_utf8(t).subrange(j - w, j - w + 7) == b.subrange(j, j + 7));
        lemma_marked_text(t, j - w);
        let i = choose|i: int| text_marked(t, i) && encode_utf8(t.take(i)).len() == j - w;
        assert(s.subrange(i + 1, i + 8) == t.subrange(i, i + 7));
        assert(s.take(i + 1).drop_first() == t.take(i));
        assert(s.take(i + 1)[0] == s[0]);
        assert(text_marked(s, i + 1) && encode_utf8(s.take(i + 1)).len() == j);
    }
}

} // verus!
