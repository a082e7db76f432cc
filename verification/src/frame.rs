//! The self-describing batch payload: its byte layout, the executable
//! encoder and parser, and the proof that parsing inverts encoding.
//!
//! A payload is `rising_count`, `falling_count` and the event count, each a
//! 32-bit little-endian value, followed by one fixed 13-byte record per
//! event: the 64-bit time bits, the two 16-bit coordinates, all
//! little-endian, and the polarity byte.

use vstd::arithmetic::div_mod::lemma_fundamental_div_mod;
use vstd::prelude::*;

use crate::events::{count_falling, count_rising, lemma_counts_partition, ChangeEvent};
use crate::wire::{
    le16_bytes, le16_value, le32_bytes, le32_value, le64_bytes, le64_value,
    lemma_le16_roundtrip, lemma_le32_roundtrip, lemma_le64_roundtrip, push_le16, push_le32,
    push_le64, read_le16, read_le32, read_le64,
};

verus! {

/// Number of bytes of one serialized event record.
pub const EVENT_RECORD_BYTES: usize = 13;

/// Number of bytes of the payload header: the two edge counts and the
/// event count.
pub const PAYLOAD_HEADER_BYTES: usize = 12;

/// The most events one payload may hold, chosen so that the payload's byte
/// length still fits the 32-bit frame length prefix.
pub const MAX_CHUNK_EVENTS: usize = 330382098;

/// The 13-byte image of one event record.
pub open spec fn event_bytes(e: ChangeEvent) -> Seq<u8> {
    le64_bytes(e.time_bits) + le16_bytes(e.x) + le16_bytes(e.y) + seq![e.polarity as u8]
}

/// The concatenated images of a sequence of event records.
pub open spec fn events_bytes(es: Seq<ChangeEvent>) -> Seq<u8>
    decreases es.len(),
{
    if es.len() == 0 {
        Seq::empty()
    } else {
        event_bytes(es[0]) + events_bytes(es.drop_first())
    }
}

/// The full payload image: the three header values, then the records.
pub open spec fn payload_bytes(rising: u32, falling: u32, es: Seq<ChangeEvent>) -> Seq<u8>
    recommends
        es.len() <= MAX_CHUNK_EVENTS,
{
    le32_bytes(rising) + le32_bytes(falling) + le32_bytes(es.len() as u32) + events_bytes(es)
}

/// The event record stored at byte offset `off` of `b`.
pub open spec fn spec_event_at(b: Seq<u8>, off: int) -> ChangeEvent
    recommends
        0 <= off,
        off + EVENT_RECORD_BYTES <= b.len(),
{
    ChangeEvent {
        time_bits: le64_value(b.subrange(off, off + 8)),
        x: le16_value(b.subrange(off + 8, off + 10)),
        y: le16_value(b.subrange(off + 10, off + 12)),
        polarity: b[off + 12] as i8,
    }
}

/// What parsing a payload yields: the two counts and the event list, or
/// nothing when the bytes are not shaped like a payload (shorter than the
/// header, or not exactly the declared number of whole records).
pub open spec fn spec_parse_payload(b: Seq<u8>) -> Option<(u32, u32, Seq<ChangeEvent>)> {
    if b.len() < PAYLOAD_HEADER_BYTES {
        None
    } else {
        let rising = le32_value(b.subrange(0, 4));
        let falling = le32_value(b.subrange(4, 8));
        let n = le32_value(b.subrange(8, 12)) as int;
        if b.len() == PAYLOAD_HEADER_BYTES + EVENT_RECORD_BYTES * n {
            Some(
                (
                    rising,
                    falling,
                    Seq::new(n as nat, |k: int| spec_event_at(b, PAYLOAD_HEADER_BYTES + 13 * k)),
                ),
            )
        } else {
            None
        }
    }
}

/// The serialized records take 13 bytes each.
pub proof fn lemma_events_bytes_len(es: Seq<ChangeEvent>)
    ensures
        events_bytes(es).len() == 13 * es.len(),
    decreases es.len(),
{
    if es.len() > 0 {
        lemma_events_bytes_len(es.drop_first());
    }
}

/// Serializing one more record appends its image.
pub proof fn lemma_events_bytes_push(es: Seq<ChangeEvent>, e: ChangeEvent)
    ensures
        events_bytes(es.push(e)) == events_bytes(es) + event_bytes(e),
    decreases es.len(),
{
    if es.len() == 0 {
        assert(es.push(e)[0] == e);
        assert(es.push(e).drop_first() =~= Seq::<ChangeEvent>::empty());
        assert(events_bytes(Seq::<ChangeEvent>::empty()) == Seq::<u8>::empty());
        assert(events_bytes(es) == Seq::<u8>::empty());
        assert(events_bytes(es.push(e)) =~= events_bytes(es) + event_bytes(e));
    } else {
        lemma_events_bytes_push(es.drop_first(), e);
        assert(es.push(e).drop_first() =~= es.drop_first().push(e));
        assert(events_bytes(es.push(e)) =~= events_bytes(es) + event_bytes(e));
    }
}

/// The bytes of the `k`-th record stand at offset `13 * k` of the
/// serialized record list.
pub proof fn lemma_events_bytes_index(es: Seq<ChangeEvent>, k: int)
    requires
        0 <= k < es.len(),
    ensures
        events_bytes(es).subrange(13 * k, 13 * k + 13) == event_bytes(es[k]),
    decreases es.len(),
{
    lemma_events_bytes_len(es);
    lemma_events_bytes_len(es.drop_first());
    if k == 0 {
        assert(events_bytes(es).subrange(0, 13) =~= event_bytes(es[0]));
    } else {
        lemma_events_bytes_index(es.drop_first(), k - 1);
        assert(events_bytes(es).subrange(13 * k, 13 * k + 13) =~= events_bytes(
            es.drop_first(),
        ).subrange(13 * (k - 1), 13 * (k - 1) + 13));
    }
}

/// A window of `b` that holds exactly the image of `e` parses back to `e`.
pub proof fn lemma_event_at_of_bytes(b: Seq<u8>, off: int, e: ChangeEvent)
    requires
        0 <= off,
        off + 13 <= b.len(),
        b.subrange(off, off + 13) == event_bytes(e),
    ensures
        spec_event_at(b, off) == e,
{
    let w = b.subrange(off, off + 13);
    assert(b.subrange(off, off + 8) =~= w.subrange(0, 8));
    assert(b.subrange(off + 8, off + 10) =~= w.subrange(8, 10));
    assert(b.subrange(off + 10, off + 12) =~= w.subrange(10, 12));
    assert(w.subrange(0, 8) =~= le64_bytes(e.time_bits));
    assert(w.subrange(8, 10) =~= le16_bytes(e.x));
    assert(w.subrange(10, 12) =~= le16_bytes(e.y));
    assert(w[12] == e.polarity as u8);
    lemma_le64_roundtrip(e.time_bits);
    lemma_le16_roundtrip(e.x);
    lemma_le16_roundtrip(e.y);
    let p = e.polarity;
    assert(((p as u8) as i8) == p) by (bit_vector);
    assert(b[off + 12] == e.polarity as u8);
}

/// Parsing inverts encoding: a payload built from counts and records hands
/// the same counts and records back.
pub proof fn lemma_payload_roundtrip(rising: u32, falling: u32, es: Seq<ChangeEvent>)
    requires
        es.len() <= MAX_CHUNK_EVENTS,
    ensures
        spec_parse_payload(payload_bytes(rising, falling, es)) == Some((rising, falling, es)),
{
    let b = payload_bytes(rising, falling, es);
    lemma_events_bytes_len(es);
    assert(b.len() == 12 + 13 * es.len());
    assert(b.subrange(0, 4) =~= le32_bytes(rising));
    assert(b.subrange(4, 8) =~= le32_bytes(falling));
    assert(b.subrange(8, 12) =~= le32_bytes(es.len() as u32));
    lemma_le32_roundtrip(rising);
    lemma_le32_roundtrip(falling);
    lemma_le32_roundtrip(es.len() as u32);
    assert(le32_value(b.subrange(8, 12)) as int == es.len() as int);
    assert forall|k: int| 0 <= k < es.len() implies spec_event_at(b, 12 + 13 * k) == es[k] by {
        lemma_events_bytes_index(es, k);
        assert(b.subrange(12 + 13 * k, 12 + 13 * k + 13) =~= events_bytes(es).subrange(
            13 * k,
            13 * k + 13,
        ));
        lemma_event_at_of_bytes(b, 12 + 13 * k, es[k]);
    }
    let parsed = spec_parse_payload(b)->Some_0;
    assert(parsed.2 =~= es);
}

/// The count invariant on the wire: a payload built with a batch's true
/// rising and falling counts parses back with counts that sum to the
/// number of records it holds.
pub proof fn lemma_encoded_counts_match(es: Seq<ChangeEvent>)
    requires
        es.len() <= MAX_CHUNK_EVENTS,
    ensures
        ({
            let parsed = spec_parse_payload(
                payload_bytes(count_rising(es) as u32, count_falling(es) as u32, es),
            );
            &&& parsed is Some
            &&& parsed->Some_0.0 + parsed->Some_0.1 == parsed->Some_0.2.len()
        }),
{
    lemma_counts_partition(es);
    lemma_payload_roundtrip(count_rising(es) as u32, count_falling(es) as u32, es);
}

/// The decoded contents of one frame: the two counts as stored, and the
/// event records in their stored order. The counts are reported as found;
/// whether they agree with the record list is checked separately.
#[derive(Debug)]
pub struct FrameEvents {
    /// Count of rising-edge events, as declared by the payload header.
    pub rising_count: u32,
    /// Count of falling-edge events, as declared by the payload header.
    pub falling_count: u32,
    /// The event records, in stored order.
    pub events: Vec<ChangeEvent>,
}

impl FrameEvents {
    /// Whether the declared counts agree with the number of records held.
    /// The encoder always writes agreeing counts; a disagreement marks the
    /// frame as suspect without discarding its events.
    pub fn counts_match(&self) -> (r: bool)
        ensures
            r == (self.rising_count + self.falling_count == self.events@.len()),
    {
        let sum: u64 = self.rising_count as u64 + self.falling_count as u64;
        sum == self.events.len() as u64
    }
}

/// Appends the 13-byte image of `e` to `out`.
fn push_event(out: &mut Vec<u8>, e: &ChangeEvent)
    ensures
        final(out)@ == old(out)@ + event_bytes(*e),
{
    push_le64(out, e.time_bits);
    push_le16(out, e.x);
    push_le16(out, e.y);
    out.push(e.polarity as u8);
    proof {
        assert(out@ =~= old(out)@ + event_bytes(*e));
    }
}

/// Serializes one batch into a self-describing payload: the given counts,
/// the event count, and every record, in order.
pub fn encode_payload(rising: u32, falling: u32, events: &Vec<ChangeEvent>) -> (r: Vec<u8>)
    requires
        events@.len() <= MAX_CHUNK_EVENTS,
    ensures
        r@ == payload_bytes(rising, falling, events@),
        r@.len() == PAYLOAD_HEADER_BYTES + EVENT_RECORD_BYTES * events@.len(),
{
    let mut out: Vec<u8> = Vec::new();
    push_le32(&mut out, rising);
    push_le32(&mut out, falling);
    push_le32(&mut out, events.len() as u32);
    let ghost header = out@;
    let mut k: usize = 0;
    while k < events.len()
        invariant
            k <= events@.len(),
            out@ == header + events_bytes(events@.take(k as int)),
            header == le32_bytes(rising) + le32_bytes(falling) + le32_bytes(
                events@.len() as u32,
            ),
        decreases events@.len() - k,
    {
        push_event(&mut out, &events[k]);
        proof {
            lemma_events_bytes_push(events@.take(k as int), events@[k as int]);
            assert(events@.take(k as int).push(events@[k as int]) =~= events@.take(k + 1));
        }
        k += 1;
    }
    proof {
        assert(events@.take(events@.len() as int) =~= events@);
        assert(out@ =~= payload_bytes(rising, falling, events@));
        lemma_events_bytes_len(events@);
    }
    out
}

/// Parses a payload back into its counts and records. Returns nothing
/// exactly when the bytes are not shaped like a payload: shorter than the
/// header, or not holding exactly the declared number of whole records.
pub fn parse_payload(payload: &Vec<u8>) -> (r: Option<FrameEvents>)
    ensures
        r is Some <==> spec_parse_payload(payload@) is Some,
        (r matches Some(fe) ==> Some((fe.rising_count, fe.falling_count, fe.events@))
            == spec_parse_payload(payload@)),
{
    if payload.len() < PAYLOAD_HEADER_BYTES {
        return None;
    }
    let rising = read_le32(payload, 0);
    let falling = read_le32(payload, 4);
    let n = read_le32(payload, 8);
    let m = payload.len() - PAYLOAD_HEADER_BYTES;
    proof {
        lemma_fundamental_div_mod(m as int, 13);
    }
    if m % 13 != 0 || m / 13 != n as usize {
        return None;
    }
    let n_us = n as usize;
    let mut events: Vec<ChangeEvent> = Vec::new();
    let mut k: usize = 0;
    while k < n_us
        invariant
            k <= n_us,
            payload@.len() == 12 + 13 * (n_us as int),
            payload@.len() <= usize::MAX,
            events@.len() == k,
            forall|j: int| 0 <= j < k ==> events@[j] == spec_event_at(payload@, 12 + 13 * j),
        decreases n_us - k,
    {
        let off = 12 + 13 * k;
        let time_bits = read_le64(payload, off);
        let x = read_le16(payload, off + 8);
        let y = read_le16(payload, off + 10);
        let polarity = #[verifier::truncate] (payload[off + 12] as i8);
        events.push(ChangeEvent { time_bits, x, y, polarity });
        proof {
            assert(events@[k as int] == spec_event_at(payload@, 12 + 13 * (k as int)));
        }
        k += 1;
    }
    proof {
        let parsed = spec_parse_payload(payload@)->Some_0;
        assert(events@ =~= parsed.2);
    }
    Some(FrameEvents { rising_count: rising, falling_count: falling, events })
}

} // verus!
