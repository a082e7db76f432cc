//! The event record types: the source-side change event carried through the
//! binary file, and the decoded output event handed to callers.

use vstd::prelude::*;

verus! {

/// One pixel-change event as read from the source stream.
///
/// The source time is a 64-bit floating-point number of seconds; the library
/// carries it opaquely as its bit pattern (`time_bits`), so that encoding and
/// decoding reproduce it bit for bit. Interpreting the bits is left to the
/// caller, as is the arithmetic that turns a time into an output timestamp.
#[derive(Clone, Copy, Debug, PartialEq, Eq, Structural)]
pub struct ChangeEvent {
    /// Bit pattern of the 64-bit floating-point event time, in seconds.
    pub time_bits: u64,
    /// Horizontal pixel coordinate.
    pub x: u16,
    /// Vertical pixel coordinate.
    pub y: u16,
    /// Signed polarity: positive is a rising edge, zero or negative falling.
    pub polarity: i8,
}

/// One decoded output event. `row` and `col` are copied from the source
/// event's `y` and `x` (note the axis swap), the polarity is reinterpreted
/// as unsigned, and the timestamp is an integer number of timescale units
/// since the caller's timebase. The descriptor slot of the historical output
/// record is deliberately absent: it is never filled by decoding.
#[derive(Clone, Copy, Debug, PartialEq, Eq, Structural)]
pub struct SaeEvent {
    /// Vertical pixel coordinate, copied from the source event's `y`.
    pub row: u16,
    /// Horizontal pixel coordinate, copied from the source event's `x`.
    pub col: u16,
    /// Source polarity reinterpreted as unsigned (two's complement bits).
    pub polarity: u8,
    /// Integer timestamp, `floor((time - timebase) / timescale)` truncated
    /// to unsigned, computed by the caller from the opaque time bits.
    pub timestamp: u32,
}

impl ChangeEvent {
    /// Builds an event from its four fields.
    pub fn new(time_bits: u64, x: u16, y: u16, polarity: i8) -> (r: ChangeEvent)
        ensures
            r == (ChangeEvent { time_bits, x, y, polarity }),
    {
        ChangeEvent { time_bits, x, y, polarity }
    }
}

/// Whether a polarity value counts as a rising edge; every other value,
/// zero and negative alike, counts as falling.
pub open spec fn is_rising(polarity: i8) -> bool {
    polarity > 0
}

/// How many events of `s` are rising edges.
pub open spec fn count_rising(s: Seq<ChangeEvent>) -> int
    decreases s.len(),
{
    if s.len() == 0 {
        0
    } else {
        count_rising(s.drop_last()) + if is_rising(s.last().polarity) {
            1int
        } else {
            0int
        }
    }
}

/// How many events of `s` are falling edges.
pub open spec fn count_falling(s: Seq<ChangeEvent>) -> int
    decreases s.len(),
{
    if s.len() == 0 {
        0
    } else {
        count_falling(s.drop_last()) + if is_rising(s.last().polarity) {
            0int
        } else {
            1int
        }
    }
}

/// Every event is classified as exactly one of rising and falling, so the
/// two counts always sum to the number of events.
pub proof fn lemma_counts_partition(s: Seq<ChangeEvent>)
    ensures
        count_rising(s) + count_falling(s) == s.len(),
        0 <= count_rising(s),
        0 <= count_falling(s),
    decreases s.len(),
{
    if s.len() > 0 {
        lemma_counts_partition(s.drop_last());
    }
}

/// Converts one decoded source event into an output event: the axes swap
/// (`row` from `y`, `col` from `x`), the polarity is reinterpreted as
/// unsigned, and the caller-computed timestamp is attached unchanged.
pub fn convert_change_event_to_sae_event(event: &ChangeEvent, timestamp: u32) -> (r: SaeEvent)
    ensures
        r.row == event.y,
        r.col == event.x,
        r.polarity == event.polarity as u8,
        r.timestamp == timestamp,
{
    SaeEvent { row: event.y, col: event.x, polarity: event.polarity as u8, timestamp }
}

} // verus!
