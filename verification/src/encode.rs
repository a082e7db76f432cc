//! The encoder: batches events up to a caller-chosen size, serializes each
//! batch, and emits it as a length-prefixed frame. The whole-input entry
//! point returns the complete file image together with the record and
//! chunk counts.

use vstd::arithmetic::div_mod::{
    lemma_div_plus_one, lemma_fundamental_div_mod_converse_div,
};
use vstd::prelude::*;

use crate::events::{count_falling, count_rising, lemma_counts_partition, ChangeEvent};
use crate::frame::{
    encode_payload, payload_bytes, MAX_CHUNK_EVENTS,
};
use crate::wire::{le32_bytes, push_le32};

verus! {

/// The byte image of one frame: the payload's byte length as a 32-bit
/// little-endian prefix, then the payload itself.
pub open spec fn frame_bytes(rising: u32, falling: u32, es: Seq<ChangeEvent>) -> Seq<u8>
    recommends
        es.len() <= MAX_CHUNK_EVENTS,
{
    le32_bytes((12 + 13 * es.len()) as u32) + payload_bytes(rising, falling, es)
}

/// The byte image of a whole encoded file: the events split into batches
/// of `chunk_size` (the last batch possibly smaller), one frame per batch,
/// each frame carrying the batch's own rising and falling counts. No
/// events produce no frames.
pub open spec fn spec_encode(es: Seq<ChangeEvent>, chunk_size: int) -> Seq<u8>
    recommends
        0 < chunk_size <= MAX_CHUNK_EVENTS,
    decreases es.len(),
{
    if chunk_size <= 0 || es.len() == 0 {
        Seq::empty()
    } else if es.len() <= chunk_size {
        frame_bytes(count_rising(es) as u32, count_falling(es) as u32, es)
    } else {
        frame_bytes(
            count_rising(es.take(chunk_size)) as u32,
            count_falling(es.take(chunk_size)) as u32,
            es.take(chunk_size),
        ) + spec_encode(es.skip(chunk_size), chunk_size)
    }
}

/// How many frames encoding `len` events with the given batch size emits.
pub open spec fn num_chunks(len: int, chunk_size: int) -> int
    recommends
        0 < chunk_size,
    decreases
        (if len > 0 {
            len
        } else {
            0
        }),
{
    if chunk_size <= 0 || len <= 0 {
        0
    } else if len <= chunk_size {
        1
    } else {
        1 + num_chunks(len - chunk_size, chunk_size)
    }
}

/// There is never more than one frame per event, and never a negative
/// number of frames.
pub proof fn lemma_num_chunks_bounds(len: int, chunk_size: int)
    requires
        0 < chunk_size,
        0 <= len,
    ensures
        0 <= num_chunks(len, chunk_size) <= len,
        0 < len ==> 1 <= num_chunks(len, chunk_size),
    decreases len,
{
    if len > chunk_size {
        lemma_num_chunks_bounds(len - chunk_size, chunk_size);
    }
}

/// The batch-size law: the number of frames is the number of events
/// divided by the batch size, rounded up; no events give no frames.
pub proof fn lemma_batch_size_law(len: int, chunk_size: int)
    requires
        0 < chunk_size,
        0 <= len,
    ensures
        num_chunks(len, chunk_size) == if len == 0 {
            0int
        } else {
            (len + chunk_size - 1) / chunk_size
        },
    decreases len,
{
    if len == 0 {
    } else if len <= chunk_size {
        lemma_fundamental_div_mod_converse_div(len + chunk_size - 1, chunk_size, 1, len - 1);
    } else {
        lemma_batch_size_law(len - chunk_size, chunk_size);
        lemma_div_plus_one(len - 1, chunk_size);
    }
}

/// Appends one length-prefixed frame for the given batch to `out`. The
/// counts are written as handed in; the encoder proper always hands in the
/// batch's true rising and falling counts.
pub fn write_chunk(
    out: &mut Vec<u8>,
    rising_evt_count: u32,
    falling_evt_count: u32,
    chunk_events: &Vec<ChangeEvent>,
)
    requires
        chunk_events@.len() <= MAX_CHUNK_EVENTS,
    ensures
        final(out)@ == old(out)@ + frame_bytes(rising_evt_count, falling_evt_count, chunk_events@),
{
    let mut payload = encode_payload(rising_evt_count, falling_evt_count, chunk_events);
    push_le32(out, payload.len() as u32);
    out.append(&mut payload);
    proof {
        assert(out@ =~= old(out)@ + frame_bytes(
            rising_evt_count,
            falling_evt_count,
            chunk_events@,
        ));
    }
}

/// The batch accumulator. It collects events one at a time, keeping the
/// rising and falling counts in step with the collected records, and turns
/// the batch into a frame as soon as it reaches the configured size. The
/// record buffer and counts are cleared, not reallocated, on every flush.
pub struct ChunkAccumulator {
    /// The configured maximum number of events per batch.
    pub chunk_size: usize,
    /// Rising-edge events in the pending batch.
    pub rising_count: u32,
    /// Falling-edge events in the pending batch.
    pub falling_count: u32,
    /// The pending batch, in arrival order.
    pub events: Vec<ChangeEvent>,
}

impl ChunkAccumulator {
    /// The accumulator's invariant: the batch size is positive and within
    /// the serialization ceiling, the pending batch is strictly smaller
    /// than the batch size, and the counts classify exactly the pending
    /// records.
    pub open spec fn wf(&self) -> bool {
        &&& 1 <= self.chunk_size <= MAX_CHUNK_EVENTS
        &&& self.events@.len() < self.chunk_size
        &&& self.rising_count == count_rising(self.events@)
        &&& self.falling_count == count_falling(self.events@)
    }

    /// The configured maximum number of events per batch.
    pub open spec fn spec_chunk_size(&self) -> int {
        self.chunk_size as int
    }

    /// The events accumulated since the last flush, in arrival order.
    pub open spec fn pending(&self) -> Seq<ChangeEvent> {
        self.events@
    }

    /// A fresh accumulator with an empty batch. The batch size must be
    /// positive and small enough that a full batch's payload stays within
    /// the frame format's 32-bit length prefix.
    pub fn new(chunk_size: usize) -> (r: ChunkAccumulator)
        requires
            1 <= chunk_size <= MAX_CHUNK_EVENTS,
        ensures
            r.wf(),
            r.spec_chunk_size() == chunk_size,
            r.pending() == Seq::<ChangeEvent>::empty(),
    {
        ChunkAccumulator {
            chunk_size,
            rising_count: 0,
            falling_count: 0,
            events: Vec::new(),
        }
    }

    /// Accepts one event: a positive polarity raises the rising count,
    /// any other polarity the falling count, and the record joins the
    /// batch. When the batch thereby reaches the configured size, it is
    /// flushed: the returned frame holds the whole batch with its counts,
    /// and the accumulator is cleared for the next batch.
    pub fn push(&mut self, event: ChangeEvent) -> (frame: Option<Vec<u8>>)
        requires
            old(self).wf(),
        ensures
            final(self).wf(),
            final(self).spec_chunk_size() == old(self).spec_chunk_size(),
            ({
                let grown = old(self).pending().push(event);
                if grown.len() == old(self).spec_chunk_size() {
                    &&& frame matches Some(f) && f@ == frame_bytes(
                        count_rising(grown) as u32,
                        count_falling(grown) as u32,
                        grown,
                    )
                    &&& final(self).pending() == Seq::<ChangeEvent>::empty()
                } else {
                    &&& frame is None
                    &&& final(self).pending() == grown
                }
            }),
    {
        proof {
            lemma_counts_partition(self.events@);
        }
        if event.polarity > 0 {
            self.rising_count = self.rising_count + 1;
        } else {
            self.falling_count = self.falling_count + 1;
        }
        self.events.push(event);
        proof {
            assert(self.events@.drop_last() =~= old(self).events@);
        }
        if self.events.len() == self.chunk_size {
            let mut out: Vec<u8> = Vec::new();
            write_chunk(&mut out, self.rising_count, self.falling_count, &self.events);
            self.rising_count = 0;
            self.falling_count = 0;
            self.events.clear();
            Some(out)
        } else {
            None
        }
    }

    /// Flushes whatever the batch still holds after the input is
    /// exhausted, as a final, possibly undersized, frame. An empty batch
    /// yields no frame: the encoder never writes an empty frame.
    pub fn finish(&mut self) -> (frame: Option<Vec<u8>>)
        requires
            old(self).wf(),
        ensures
            final(self).wf(),
            final(self).spec_chunk_size() == old(self).spec_chunk_size(),
            final(self).pending() == Seq::<ChangeEvent>::empty(),
            if old(self).pending().len() == 0 {
                frame is None
            } else {
                frame matches Some(f) && f@ == frame_bytes(
                    count_rising(old(self).pending()) as u32,
                    count_falling(old(self).pending()) as u32,
                    old(self).pending(),
                )
            },
    {
        if self.events.len() == 0 {
            None
        } else {
            let mut out: Vec<u8> = Vec::new();
            write_chunk(&mut out, self.rising_count, self.falling_count, &self.events);
            self.rising_count = 0;
            self.falling_count = 0;
            self.events.clear();
            Some(out)
        }
    }
}

/// Encodes a whole event sequence into the binary file image. Returns the
/// file bytes, the number of records consumed, and the number of frames
/// written; the frame count obeys the batch-size law.
pub fn encode_events(events: &Vec<ChangeEvent>, chunk_size: usize) -> (r: (Vec<u8>, u32, u32))
    requires
        1 <= chunk_size <= MAX_CHUNK_EVENTS,
        events@.len() <= u32::MAX,
    ensures
        r.0@ == spec_encode(events@, chunk_size as int),
        r.1 == events@.len(),
        r.2 == num_chunks(events@.len() as int, chunk_size as int),
{
    let ghost total = events@.len() as int;
    let ghost bsize = chunk_size as int;
    let mut acc = ChunkAccumulator::new(chunk_size);
    let mut out: Vec<u8> = Vec::new();
    let mut record_count: u32 = 0;
    let mut chunk_count: u32 = 0;
    let ghost mut flushed: int = 0;
    let mut i: usize = 0;
    proof {
        assert(events@.skip(0) =~= events@);
        assert(out@ + spec_encode(events@, bsize) =~= spec_encode(events@, bsize));
    }
    while i < events.len()
        invariant
            acc.wf(),
            acc.spec_chunk_size() == bsize,
            1 <= bsize <= MAX_CHUNK_EVENTS,
            total == events@.len(),
            total <= u32::MAX,
            0 <= flushed <= i <= total,
            acc.pending() == events@.subrange(flushed, i as int),
            i - flushed == acc.pending().len(),
            out@ + spec_encode(events@.skip(flushed), bsize) == spec_encode(events@, bsize),
            record_count == i,
            chunk_count + num_chunks(total - flushed, bsize) == num_chunks(total, bsize),
        decreases total - i,
    {
        proof {
            lemma_num_chunks_bounds(total - flushed, bsize);
            lemma_num_chunks_bounds(total, bsize);
        }
        let frame_opt = acc.push(events[i]);
        proof {
            assert(events@.subrange(flushed, i as int).push(events@[i as int]) =~= events@
                .subrange(flushed, i + 1));
        }
        match frame_opt {
            Some(mut frame) => {
                proof {
                    let grown = events@.subrange(flushed, i + 1);
                    lemma_counts_partition(grown);
                    let rest = events@.skip(flushed);
                    assert(rest.len() == total - flushed >= bsize);
                    assert(rest.take(bsize) =~= grown);
                    assert(rest.skip(bsize) =~= events@.skip(flushed + bsize));
                    if rest.len() == bsize {
                        assert(rest.take(bsize) =~= rest);
                        assert(events@.skip(flushed + bsize).len() == 0);
                        assert(spec_encode(events@.skip(flushed + bsize), bsize)
                            =~= Seq::<u8>::empty());
                    }
                    assert(spec_encode(rest, bsize) == frame_bytes(
                        count_rising(grown) as u32,
                        count_falling(grown) as u32,
                        grown,
                    ) + spec_encode(events@.skip(flushed + bsize), bsize));
                }
                out.append(&mut frame);
                proof {
                    assert(1 <= num_chunks(total - flushed, bsize));
                }
                chunk_count = chunk_count + 1;
                proof {
                    flushed = flushed + bsize;
                    assert(out@ + spec_encode(events@.skip(flushed), bsize) =~= spec_encode(
                        events@,
                        bsize,
                    ));
                }
            },
            None => {},
        }
        record_count = record_count + 1;
        i = i + 1;
    }
    let final_opt = acc.finish();
    match final_opt {
        Some(mut frame) => {
            proof {
                let rest = events@.skip(flushed);
                lemma_counts_partition(rest);
                lemma_num_chunks_bounds(total - flushed, bsize);
                lemma_num_chunks_bounds(total, bsize);
                assert(rest == events@.subrange(flushed, total));
                assert(0 < rest.len() < bsize);
                assert(spec_encode(rest, bsize) == frame_bytes(
                    count_rising(rest) as u32,
                    count_falling(rest) as u32,
                    rest,
                ));
            }
            out.append(&mut frame);
            chunk_count = chunk_count + 1;
            proof {
                assert(out@ =~= spec_encode(events@, chunk_size as int));
            }
        },
        None => {
            proof {
                assert(flushed == total);
                assert(events@.skip(flushed).len() == 0);
                assert(out@ + spec_encode(events@.skip(flushed), bsize) =~= out@);
            }
        },
    }
    (out, record_count, chunk_count)
}

} // verus!
