//! End-of-stream, truncation, count-mismatch and malformed-frame
//! behaviour of the decoder, and the timestamp transform.

use eventcam_converter::decode::{decode_all, ChunkReader, DecodeOutcome};
use eventcam_converter::encode::{encode_events, write_chunk};
use eventcam_converter::events::{convert_change_event_to_sae_event, ChangeEvent};
use eventcam_converter::wire::push_le32;

fn three_events() -> Vec<ChangeEvent> {
    let mut events: Vec<ChangeEvent> = Vec::new();
    events.push(ChangeEvent::new(100, 1, 2, 1));
    events.push(ChangeEvent::new(200, 3, 4, -1));
    events.push(ChangeEvent::new(300, 5, 6, 0));
    events
}

#[test]
fn test_empty_file_is_end_of_stream() {
    let mut reader = ChunkReader::new(Vec::new());
    match reader.next_frame() {
        DecodeOutcome::EndOfStream => {}
        _ => panic!("expected end of stream"),
    }
    let decoded = decode_all(Vec::new()).expect("empty file decodes cleanly");
    assert_eq!(decoded.len(), 0);
}

#[test]
fn test_zero_length_prefix_is_end_of_stream() {
    let mut bytes: Vec<u8> = Vec::new();
    push_le32(&mut bytes, 0);
    let mut reader = ChunkReader::new(bytes);
    match reader.next_frame() {
        DecodeOutcome::EndOfStream => {}
        _ => panic!("expected end of stream"),
    }
}

#[test]
fn test_trailing_partial_prefix_is_end_of_stream() {
    let events = three_events();
    let (mut bytes, _, _) = encode_events(&events, 1000);
    // Fewer than four trailing bytes cannot hold a length prefix.
    bytes.push(7);
    bytes.push(7);
    let mut reader = ChunkReader::new(bytes);
    match reader.next_frame() {
        DecodeOutcome::Frame(frame) => assert_eq!(frame.events.len(), 3),
        _ => panic!("expected one frame"),
    }
    match reader.next_frame() {
        DecodeOutcome::EndOfStream => {}
        _ => panic!("expected end of stream"),
    }
}

#[test]
fn test_truncated_frame_is_an_error() {
    let events = three_events();
    let (mut bytes, _, _) = encode_events(&events, 1000);
    // Drop the last byte: the prefix now declares more than remains.
    bytes.pop();
    let mut reader = ChunkReader::new(bytes.clone());
    match reader.next_frame() {
        DecodeOutcome::TruncatedFrame => {}
        _ => panic!("expected a truncated frame"),
    }
    assert!(decode_all(bytes).is_none());
}

#[test]
fn test_count_mismatch_is_reported_not_fatal() {
    // A frame whose header claims five rising events over three records:
    // the decoder hands the records back and flags the disagreement.
    let events = three_events();
    let mut bytes: Vec<u8> = Vec::new();
    write_chunk(&mut bytes, 5, 0, &events);
    let mut reader = ChunkReader::new(bytes);
    let frame = match reader.next_frame() {
        DecodeOutcome::Frame(frame) => frame,
        _ => panic!("expected one frame"),
    };
    assert_eq!(frame.events.len(), 3);
    assert_eq!(frame.rising_count, 5);
    assert_eq!(frame.falling_count, 0);
    assert!(!frame.counts_match());
}

#[test]
fn test_malformed_payload_is_an_error() {
    // A complete frame whose payload is too short to be a batch.
    let mut bytes: Vec<u8> = Vec::new();
    push_le32(&mut bytes, 3);
    bytes.push(1);
    bytes.push(2);
    bytes.push(3);
    let mut reader = ChunkReader::new(bytes.clone());
    match reader.next_frame() {
        DecodeOutcome::MalformedFrame => {}
        _ => panic!("expected a malformed frame"),
    }
    assert!(decode_all(bytes).is_none());
}

#[test]
fn test_timestamp_transform() {
    let timebase = 1.5;
    let timescale = 0.25;
    let transform = |time: f64| ((time - timebase) / timescale) as u32;

    // A source event at the timebase decodes to timestamp zero.
    let at_base = ChangeEvent::new(timebase.to_bits(), 0, 0, 1);
    let sae = convert_change_event_to_sae_event(&at_base, transform(timebase));
    assert_eq!(sae.timestamp, 0);

    // A source event two timescale units later decodes to timestamp two.
    let later = timebase + 2.0 * timescale;
    let sae = convert_change_event_to_sae_event(&ChangeEvent::new(later.to_bits(), 0, 0, 1), {
        transform(later)
    });
    assert_eq!(sae.timestamp, 2);

    // A non-exact multiple truncates, it does not round.
    let between = timebase + 2.5 * timescale;
    let sae = convert_change_event_to_sae_event(&ChangeEvent::new(between.to_bits(), 0, 0, 1), {
        transform(between)
    });
    assert_eq!(sae.timestamp, 2);
}

#[test]
fn test_polarity_reinterpretation() {
    let rising = ChangeEvent::new(0, 7, 9, 1);
    let sae = convert_change_event_to_sae_event(&rising, 0);
    assert_eq!(sae.col, 7);
    assert_eq!(sae.row, 9);
    assert_eq!(sae.polarity, 1);

    let falling = ChangeEvent::new(0, 7, 9, -1);
    let sae = convert_change_event_to_sae_event(&falling, 0);
    assert_eq!(sae.polarity, 255);
}
