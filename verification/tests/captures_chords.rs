use wavescore::captures::{Cap, CaptureParser};
use wavescore::chords::{Chord, Line};
use wavescore::errors::ErrorKind;

fn chord(length: usize, size: usize, freqs: &[u64]) -> Chord {
    Chord { length, size, frequencies: freqs.to_vec() }
}

#[test]
fn merge_is_order_insensitive_on_the_frequency_multiset() {
    let mut ab = chord(100, 100, &[440_000, 523_251]);
    ab.extend(&chord(100, 100, &[659_255])).unwrap();
    let mut ba = chord(100, 100, &[659_255]);
    ba.extend(&chord(100, 100, &[440_000, 523_251])).unwrap();
    let mut left = ab.frequencies.clone();
    let mut right = ba.frequencies.clone();
    left.sort();
    right.sort();
    assert_eq!(left, right);
    assert_eq!(ab.length, ba.length);
    assert_eq!(ab.size, ba.size);
}

#[test]
fn merge_of_mismatched_shapes_is_malformed_both_ways() {
    let mut a = chord(100, 100, &[440_000]);
    assert_eq!(a.extend(&chord(50, 50, &[523_251])), Err(ErrorKind::MalformedChord));
    let mut b = chord(50, 50, &[523_251]);
    assert_eq!(b.extend(&chord(100, 100, &[440_000])), Err(ErrorKind::MalformedChord));
    // the failed merge leaves the chord as it was
    assert_eq!(a.frequencies, vec![440_000]);
}

fn front_freqs(cp: &mut CaptureParser, token: &[u8]) -> Vec<u64> {
    match cp.try_parse(token) {
        Ok(Some(Cap::Front(c))) => c.frequencies,
        other => panic!("replay failed: {:?}", other.err()),
    }
}

#[test]
fn capture_round_trip_returns_the_captured_frequencies() {
    let mut cp = CaptureParser::new();
    match cp.try_parse(b"(x") {
        Ok(Some(Cap::Cap(k))) => cp.will_capture(k),
        _ => panic!("declare failed"),
    }
    let c1 = chord(100, 100, &[440_000, 523_251]);
    cp.capture(&c1);
    assert_eq!(front_freqs(&mut cp, b"[x"), vec![440_000, 523_251]);
}

#[test]
fn shift_wraps_to_the_first_chord_when_only_one_exists() {
    let mut cp = CaptureParser::new();
    match cp.try_parse(b"(x") {
        Ok(Some(Cap::Cap(k))) => cp.will_capture(k),
        _ => panic!("declare failed"),
    }
    cp.capture(&chord(100, 100, &[440_000]));
    // replay with rotation intent, then commit at end of line
    assert_eq!(front_freqs(&mut cp, b"|x"), vec![440_000]);
    cp.update();
    assert_eq!(front_freqs(&mut cp, b"[x"), vec![440_000]);
}

#[test]
fn shift_moves_to_the_next_captured_chord() {
    let mut cp = CaptureParser::new();
    match cp.try_parse(b"(x") {
        Ok(Some(Cap::Cap(k))) => cp.will_capture(k),
        _ => panic!("declare failed"),
    }
    cp.capture(&chord(100, 100, &[440_000]));
    match cp.try_parse(b"(x") {
        Ok(Some(Cap::Cap(k))) => cp.will_capture(k),
        _ => panic!("declare failed"),
    }
    cp.capture(&chord(100, 100, &[523_251]));
    assert_eq!(front_freqs(&mut cp, b"|x"), vec![440_000]);
    cp.update();
    assert_eq!(front_freqs(&mut cp, b"[x"), vec![523_251]);
    // another rotation wraps back around
    assert_eq!(front_freqs(&mut cp, b"|x"), vec![523_251]);
    cp.update();
    assert_eq!(front_freqs(&mut cp, b"[x"), vec![440_000]);
}

#[test]
fn replay_of_an_unknown_key_fails() {
    let mut cp = CaptureParser::new();
    assert!(matches!(cp.try_parse(b"[y"), Err(ErrorKind::KeyNotFound)));
}

#[test]
fn replay_of_a_pending_key_is_buffer_empty() {
    let mut cp = CaptureParser::new();
    match cp.try_parse(b"(x") {
        Ok(Some(Cap::Cap(k))) => cp.will_capture(k),
        _ => panic!("declare failed"),
    }
    assert!(matches!(cp.try_parse(b"[x"), Err(ErrorKind::BufferEmpty)));
}

#[test]
fn pop_empties_a_buffer_and_clear_deletes_the_key() {
    let mut cp = CaptureParser::new();
    match cp.try_parse(b"(x") {
        Ok(Some(Cap::Cap(k))) => cp.will_capture(k),
        _ => panic!("declare failed"),
    }
    cp.capture(&chord(100, 100, &[440_000]));
    // remove-front intent, committed at update
    assert_eq!(front_freqs(&mut cp, b"<x"), vec![440_000]);
    cp.update();
    assert!(matches!(cp.try_parse(b"[x"), Err(ErrorKind::BufferEmpty)));
    // re-capture, then delete the whole buffer
    match cp.try_parse(b"(x") {
        Ok(Some(Cap::Cap(k))) => cp.will_capture(k),
        _ => panic!("declare failed"),
    }
    cp.capture(&chord(100, 100, &[440_000]));
    assert_eq!(front_freqs(&mut cp, b"{x"), vec![440_000]);
    cp.update();
    assert!(matches!(cp.try_parse(b"[x"), Err(ErrorKind::KeyNotFound)));
}

#[test]
fn octave_shift_scales_the_replayed_frequencies() {
    let mut cp = CaptureParser::new();
    match cp.try_parse(b"(x") {
        Ok(Some(Cap::Cap(k))) => cp.will_capture(k),
        _ => panic!("declare failed"),
    }
    cp.capture(&chord(100, 100, &[440_000, 0]));
    assert_eq!(front_freqs(&mut cp, b"[x^8"), vec![880_000, 0]);
    assert_eq!(front_freqs(&mut cp, b"[x_8"), vec![220_000, 0]);
    assert_eq!(front_freqs(&mut cp, b"[x"), vec![440_000, 0]);
}

#[test]
fn invalid_capture_tokens_are_rejected() {
    let mut cp = CaptureParser::new();
    assert!(matches!(cp.try_parse(b"(x1"), Err(ErrorKind::InvalidCaptureToken)));
    assert!(matches!(cp.try_parse(b"("), Err(ErrorKind::InvalidCaptureToken)));
    assert!(matches!(cp.try_parse(b"[2"), Err(ErrorKind::InvalidCaptureToken)));
    // a non-capture token is simply not a capture
    assert!(matches!(cp.try_parse(b"a4"), Ok(None)));
}

#[test]
fn line_offset_and_size_are_min_and_max() {
    let mut line = Line::new();
    line.push(chord(8, 8, &[440_000]));
    line.push(chord(2, 4, &[523_251]));
    assert_eq!(line.offset(), 4);
    assert_eq!(line.size(), 8);
    assert_eq!(line.len(), 2);
}
