//! The decoder: reads one length-prefixed frame at a time from an
//! in-memory byte stream, telling a clean end-of-stream apart from a
//! truncated or malformed frame, and the proof that decoding a file the
//! encoder produced recovers every event in order.

use vstd::prelude::*;

use crate::encode::{frame_bytes, spec_encode};
use crate::events::{count_falling, count_rising, lemma_counts_partition, ChangeEvent};
use crate::frame::{
    lemma_events_bytes_len, lemma_payload_roundtrip, parse_payload, payload_bytes,
    spec_parse_payload, FrameEvents, MAX_CHUNK_EVENTS,
};
use crate::wire::{le32_bytes, le32_value, lemma_le32_roundtrip, read_le32};

verus! {

/// What one decode attempt yields.
#[derive(Debug)]
pub enum DecodeOutcome {
    /// One frame was read and parsed; its contents, in stored order.
    Frame(FrameEvents),
    /// No frame was available: the stream ended cleanly before a length
    /// prefix, or a zero length stood where a frame would begin. Not an
    /// error; the caller stops reading.
    EndOfStream,
    /// A length prefix declared more bytes than the stream still holds.
    TruncatedFrame,
    /// A full payload was read but its bytes are not shaped like a batch.
    MalformedFrame,
}

/// Whether a decode attempt at `pos` finds no frame: fewer than four bytes
/// remain for a length prefix, or the prefix reads zero.
pub open spec fn at_end_of_stream(data: Seq<u8>, pos: int) -> bool {
    data.len() - pos < 4 || le32_value(data.subrange(pos, pos + 4)) == 0
}

/// The payload length declared by the prefix at `pos`.
pub open spec fn declared_len(data: Seq<u8>, pos: int) -> int
    recommends
        0 <= pos,
        pos + 4 <= data.len(),
{
    le32_value(data.subrange(pos, pos + 4)) as int
}

/// What decoding every remaining frame of `b` yields: the concatenation of
/// all frames' events, or nothing if a frame is truncated or malformed.
/// A clean end, or a zero length prefix, ends the sequence.
pub open spec fn spec_decode_file(b: Seq<u8>) -> Option<Seq<ChangeEvent>>
    decreases b.len(),
{
    if b.len() < 4 {
        Some(Seq::empty())
    } else {
        let len = le32_value(b.subrange(0, 4)) as int;
        if len == 0 {
            Some(Seq::empty())
        } else if b.len() - 4 < len {
            None
        } else {
            match spec_parse_payload(b.subrange(4, 4 + len)) {
                None => None,
                Some(t) => match spec_decode_file(b.subrange(4 + len, b.len() as int)) {
                    None => None,
                    Some(rest) => Some(t.2 + rest),
                },
            }
        }
    }
}

/// A reader standing at the very end of its data reports end-of-stream:
/// once every frame has been consumed, further decode attempts yield the
/// sentinel, never an error.
pub proof fn lemma_end_of_stream_stable(data: Seq<u8>, pos: int)
    requires
        pos == data.len(),
    ensures
        at_end_of_stream(data, pos),
{
}

/// Copies `len` bytes of `src` starting at `start` into a fresh buffer.
fn copy_range(src: &Vec<u8>, start: usize, len: usize) -> (r: Vec<u8>)
    requires
        start + len <= src@.len(),
    ensures
        r@ == src@.subrange(start as int, start as int + len as int),
{
    let mut out: Vec<u8> = Vec::new();
    let srclen = src.len();
    let mut j: usize = 0;
    while j < len
        invariant
            j <= len,
            start + len <= src@.len(),
            src@.len() == srclen,
            out@ == src@.subrange(start as int, start as int + j as int),
        decreases len - j,
    {
        out.push(src[start + j]);
        proof {
            assert(out@ =~= src@.subrange(start as int, start as int + (j + 1)));
        }
        j = j + 1;
    }
    out
}

/// A pull-style decoder over an in-memory frame stream. The caller does
/// not know the frame boundaries in advance: it calls `next_frame` until
/// the end-of-stream outcome appears.
pub struct ChunkReader {
    /// The whole byte stream.
    pub data: Vec<u8>,
    /// The position of the next unread byte: always a frame boundary
    /// after reading well-formed frames.
    pub pos: usize,
}

impl ChunkReader {
    /// The reader's invariant: the position stays within the data.
    pub open spec fn wf(&self) -> bool {
        self.pos <= self.data@.len()
    }

    /// A reader over `data`, standing at its first frame.
    pub fn new(data: Vec<u8>) -> (r: ChunkReader)
        ensures
            r.wf(),
            r.data@ == data@,
            r.pos == 0,
    {
        ChunkReader { data, pos: 0 }
    }

    /// Attempts to read one frame.
    ///
    /// With fewer than four bytes left there is no length prefix: a clean
    /// end-of-stream. A zero length likewise ends the stream, since the
    /// encoder never writes an empty frame. A length that exceeds what
    /// remains is a truncated frame, an error distinct from the clean end.
    /// Otherwise the declared bytes are consumed and parsed: a payload
    /// that is not shaped like a batch is a malformed frame; a parsed one
    /// is handed back whole, its counts as stored.
    pub fn next_frame(&mut self) -> (r: DecodeOutcome)
        requires
            old(self).wf(),
        ensures
            final(self).wf(),
            final(self).data@ == old(self).data@,
            ({
                let data = old(self).data@;
                let pos = old(self).pos as int;
                if data.len() - pos < 4 {
                    &&& r is EndOfStream
                    &&& final(self).pos == data.len()
                } else if declared_len(data, pos) == 0 {
                    &&& r is EndOfStream
                    &&& final(self).pos == pos + 4
                } else if data.len() - pos - 4 < declared_len(data, pos) {
                    &&& r is TruncatedFrame
                    &&& final(self).pos == data.len()
                } else {
                    let payload = data.subrange(pos + 4, pos + 4 + declared_len(data, pos));
                    match spec_parse_payload(payload) {
                        Some(t) => {
                            &&& r matches DecodeOutcome::Frame(fe) && fe.rising_count == t.0
                                && fe.falling_count == t.1 && fe.events@ == t.2
                            &&& final(self).pos == pos + 4 + declared_len(data, pos)
                        },
                        None => {
                            &&& r is MalformedFrame
                            &&& final(self).pos == pos + 4 + declared_len(data, pos)
                        },
                    }
                }
            }),
    {
        let remaining = self.data.len() - self.pos;
        if remaining < 4 {
            self.pos = self.data.len();
            return DecodeOutcome::EndOfStream;
        }
        let chunk_len = read_le32(&self.data, self.pos);
        if chunk_len == 0 {
            self.pos = self.pos + 4;
            return DecodeOutcome::EndOfStream;
        }
        let chunk_len_us = chunk_len as usize;
        if remaining - 4 < chunk_len_us {
            self.pos = self.data.len();
            return DecodeOutcome::TruncatedFrame;
        }
        let payload = copy_range(&self.data, self.pos + 4, chunk_len_us);
        let parsed = parse_payload(&payload);
        self.pos = self.pos + 4 + chunk_len_us;
        match parsed {
            Some(fe) => DecodeOutcome::Frame(fe),
            None => DecodeOutcome::MalformedFrame,
        }
    }
}

/// Decodes every frame of an in-memory file, concatenating the decoded
/// events of all frames in order. Yields nothing exactly when some frame
/// is truncated or malformed; a clean end-of-stream, including the empty
/// file, yields the events read so far.
pub fn decode_all(data: Vec<u8>) -> (r: Option<Vec<ChangeEvent>>)
    ensures
        (match spec_decode_file(data@) {
            Some(es) => r matches Some(v) && v@ == es,
            None => r is None,
        }),
{
    let ghost d = data@;
    let mut reader = ChunkReader::new(data);
    let mut events: Vec<ChangeEvent> = Vec::new();
    proof {
        assert(d.subrange(0, d.len() as int) =~= d);
        if spec_decode_file(d) is Some {
            let whole = spec_decode_file(d)->Some_0;
            assert(Seq::<ChangeEvent>::empty() + whole =~= whole);
        }
    }
    #[verifier::loop_isolation(false)]
    loop
        invariant
            reader.wf(),
            reader.data@ == d,
            ({
                let suffix = d.subrange(reader.pos as int, d.len() as int);
                match spec_decode_file(suffix) {
                    Some(rest) => spec_decode_file(d) == Some(events@ + rest),
                    None => spec_decode_file(d) is None,
                }
            }),
        decreases d.len() - reader.pos,
    {
        let ghost pos = reader.pos as int;
        let ghost suffix = d.subrange(pos, d.len() as int);
        let outcome = reader.next_frame();
        proof {
            if d.len() - pos >= 4 {
                assert(suffix.subrange(0, 4) =~= d.subrange(pos, pos + 4));
                let len = declared_len(d, pos);
                if 0 < len <= d.len() - pos - 4 {
                    assert(suffix.subrange(4, 4 + len) =~= d.subrange(pos + 4, pos + 4 + len));
                    assert(suffix.subrange(4 + len, suffix.len() as int) =~= d.subrange(
                        pos + 4 + len,
                        d.len() as int,
                    ));
                }
            }
        }
        match outcome {
            DecodeOutcome::Frame(fe) => {
                let mut frame_events = fe.events;
                proof {
                    let len = declared_len(d, pos);
                    let t = spec_parse_payload(d.subrange(pos + 4, pos + 4 + len))->Some_0;
                    let new_suffix = d.subrange(pos + 4 + len, d.len() as int);
                    match spec_decode_file(new_suffix) {
                        Some(rest) => {
                            assert(spec_decode_file(suffix) == Some(t.2 + rest));
                            assert((events@ + t.2) + rest =~= events@ + (t.2 + rest));
                        },
                        None => {
                            assert(spec_decode_file(suffix) is None);
                        },
                    }
                }
                events.append(&mut frame_events);
            },
            DecodeOutcome::EndOfStream => {
                proof {
                    assert(spec_decode_file(suffix) == Some(Seq::<ChangeEvent>::empty()));
                    assert(events@ + Seq::<ChangeEvent>::empty() =~= events@);
                    assert(spec_decode_file(d) == Some(events@));
                }
                return Some(events);
            },
            DecodeOutcome::TruncatedFrame => {
                proof {
                    assert(spec_decode_file(suffix) is None);
                }
                return None;
            },
            DecodeOutcome::MalformedFrame => {
                proof {
                    assert(spec_decode_file(suffix) is None);
                }
                return None;
            },
        }
    }
}

/// Decoding a buffer that starts with one encoded frame yields that
/// frame's events followed by whatever the remainder decodes to.
#[verifier::rlimit(50)]
proof fn lemma_decode_encoded_frame(
    rising: u32,
    falling: u32,
    chunk: Seq<ChangeEvent>,
    tail: Seq<u8>,
)
    requires
        0 < chunk.len() <= MAX_CHUNK_EVENTS,
    ensures
        ({
            let b = frame_bytes(rising, falling, chunk) + tail;
            spec_decode_file(b) == match spec_decode_file(tail) {
                None => None::<Seq<ChangeEvent>>,
                Some(rest) => Some(chunk + rest),
            }
        }),
{
    let b = frame_bytes(rising, falling, chunk) + tail;
    let payload = payload_bytes(rising, falling, chunk);
    lemma_events_bytes_len(chunk);
    let plen: int = 12 + 13 * (chunk.len() as int);
    assert(payload.len() == plen);
    lemma_le32_roundtrip(plen as u32);
    assert(b.subrange(0, 4) =~= le32_bytes(plen as u32));
    assert(le32_value(b.subrange(0, 4)) == plen);
    assert(b.len() - 4 == plen + tail.len());
    assert(b.subrange(4, 4 + plen) =~= payload);
    lemma_payload_roundtrip(rising, falling, chunk);
    assert(b.subrange(4 + plen, b.len() as int) =~= tail);
}

/// The round-trip law: decoding every frame of an encoded file and
/// concatenating the frames' event lists in order reproduces the encoded
/// events exactly, for any event sequence and any batch size the encoder
/// accepts.
#[verifier::rlimit(50)]
pub proof fn lemma_round_trip(events: Seq<ChangeEvent>, chunk_size: int)
    requires
        0 < chunk_size <= MAX_CHUNK_EVENTS,
    ensures
        spec_decode_file(spec_encode(events, chunk_size)) == Some(events),
    decreases events.len(),
{
    if events.len() == 0 {
        assert(events =~= Seq::<ChangeEvent>::empty());
    } else if events.len() <= chunk_size {
        let rising = count_rising(events) as u32;
        let falling = count_falling(events) as u32;
        lemma_counts_partition(events);
        lemma_decode_encoded_frame(rising, falling, events, Seq::<u8>::empty());
        assert(spec_encode(events, chunk_size) =~= frame_bytes(rising, falling, events)
            + Seq::<u8>::empty());
        assert(spec_decode_file(Seq::<u8>::empty()) == Some(Seq::<ChangeEvent>::empty()));
        assert(events + Seq::<ChangeEvent>::empty() =~= events);
    } else {
        let chunk = events.take(chunk_size);
        let rest_events = events.skip(chunk_size);
        let rising = count_rising(chunk) as u32;
        let falling = count_falling(chunk) as u32;
        lemma_counts_partition(chunk);
        lemma_round_trip(rest_events, chunk_size);
        lemma_decode_encoded_frame(rising, falling, chunk, spec_encode(rest_events, chunk_size));
        assert(chunk + rest_events =~= events);
    }
}

} // verus!
