//! Round-trip and batching behaviour of the encoder and decoder.

use eventcam_converter::decode::{decode_all, ChunkReader, DecodeOutcome};
use eventcam_converter::encode::encode_events;
use eventcam_converter::events::{convert_change_event_to_sae_event, ChangeEvent};

/// The timestamp the decoder's caller computes from the opaque time bits.
fn timestamp_of(time_bits: u64, timebase: f64, timescale: f64) -> u32 {
    ((f64::from_bits(time_bits) - timebase) / timescale) as u32
}

/// Twenty-five events shaped like the historical sample file: the first
/// rows carry its known times and coordinates.
fn sample_25_events() -> Vec<ChangeEvent> {
    let mut events: Vec<ChangeEvent> = Vec::new();
    events.push(ChangeEvent::new(0.003811000f64.to_bits(), 58, 68, 1));
    events.push(ChangeEvent::new(0.003820001f64.to_bits(), 129, 99, -1));
    for i in 2..25u32 {
        let time = 0.003811 + 0.0001 * (i as f64);
        let polarity: i8 = if i % 3 == 0 { 1 } else { -1 };
        events.push(ChangeEvent::new(
            time.to_bits(),
            (10 + i) as u16,
            (200 - i) as u16,
            polarity,
        ));
    }
    events
}

#[test]
fn test_conversion_roundtrip() {
    let events = sample_25_events();
    let (bytes, record_count, chunk_count) = encode_events(&events, 1000);
    assert_eq!(record_count, 25);
    assert_eq!(chunk_count, 1);

    let timescale = 1E-6;
    let timebase = 0.0;
    let mut reader = ChunkReader::new(bytes);
    let frame = match reader.next_frame() {
        DecodeOutcome::Frame(frame) => frame,
        _ => panic!("expected one frame"),
    };
    assert_eq!(frame.events.len(), 25);
    assert!(frame.counts_match());

    let first = &frame.events[0];
    let first_sae =
        convert_change_event_to_sae_event(first, timestamp_of(first.time_bits, timebase, timescale));
    assert_eq!(first_sae.timestamp, 3811);

    let second = &frame.events[1];
    let expected_time = ((0.003820001 - timebase) / timescale) as u32;
    let second_sae = convert_change_event_to_sae_event(
        second,
        timestamp_of(second.time_bits, timebase, timescale),
    );
    assert_eq!(expected_time, second_sae.timestamp);

    // After the only frame has been consumed, decoding again reports a
    // clean end of stream, not an error.
    match reader.next_frame() {
        DecodeOutcome::EndOfStream => {}
        _ => panic!("expected end of stream"),
    }
}

#[test]
fn test_roundtrip_preserves_rows_across_chunks() {
    let events = sample_25_events();
    let (bytes, record_count, chunk_count) = encode_events(&events, 4);
    assert_eq!(record_count, 25);
    assert_eq!(chunk_count, 7); // ceil(25 / 4)

    let decoded = decode_all(bytes).expect("well-formed file must decode");
    assert_eq!(decoded.len(), 25);
    for i in 0..25 {
        assert_eq!(decoded[i], events[i]);
        let sae = convert_change_event_to_sae_event(&decoded[i], 0);
        assert_eq!(sae.col, events[i].x);
        assert_eq!(sae.row, events[i].y);
        assert_eq!(sae.polarity, events[i].polarity as u8);
    }
}

#[test]
fn test_batch_size_law() {
    let events = sample_25_events();
    // Exact division: 24 events in batches of 12 give two frames.
    let mut first_24 = events.clone();
    first_24.truncate(24);
    let (_, records, chunks) = encode_events(&first_24, 12);
    assert_eq!(records, 24);
    assert_eq!(chunks, 2);

    // A batch size equal to the row count gives one frame.
    let (_, _, chunks) = encode_events(&events, 25);
    assert_eq!(chunks, 1);

    // One more row than a full batch gives one undersized extra frame.
    let (_, _, chunks) = encode_events(&events, 24);
    assert_eq!(chunks, 2);

    // A batch size of one gives one frame per row.
    let (_, _, chunks) = encode_events(&events, 1);
    assert_eq!(chunks, 25);

    // No rows give no frames and an empty file.
    let empty: Vec<ChangeEvent> = Vec::new();
    let (bytes, records, chunks) = encode_events(&empty, 1000);
    assert_eq!(records, 0);
    assert_eq!(chunks, 0);
    assert_eq!(bytes.len(), 0);
}

#[test]
fn test_counts_classify_polarity() {
    // Two rising events; zero and negative polarities both count as
    // falling.
    let mut events: Vec<ChangeEvent> = Vec::new();
    events.push(ChangeEvent::new(1, 0, 0, 1));
    events.push(ChangeEvent::new(2, 0, 0, 127));
    events.push(ChangeEvent::new(3, 0, 0, 0));
    events.push(ChangeEvent::new(4, 0, 0, -1));
    events.push(ChangeEvent::new(5, 0, 0, -128));
    let (bytes, _, chunk_count) = encode_events(&events, 1000);
    assert_eq!(chunk_count, 1);

    let mut reader = ChunkReader::new(bytes);
    let frame = match reader.next_frame() {
        DecodeOutcome::Frame(frame) => frame,
        _ => panic!("expected one frame"),
    };
    assert_eq!(frame.rising_count, 2);
    assert_eq!(frame.falling_count, 3);
    assert_eq!(frame.events.len(), 5);
    assert!(frame.counts_match());
}

#[test]
fn test_extreme_field_values_survive() {
    let mut events: Vec<ChangeEvent> = Vec::new();
    events.push(ChangeEvent::new(u64::MAX, u16::MAX, 0, i8::MIN));
    events.push(ChangeEvent::new(0, 0, u16::MAX, i8::MAX));
    let (bytes, _, _) = encode_events(&events, 2);
    let decoded = decode_all(bytes).expect("well-formed file must decode");
    assert_eq!(decoded.len(), 2);
    assert_eq!(decoded[0], events[0]);
    assert_eq!(decoded[1], events[1]);
}
