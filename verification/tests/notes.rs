use wavescore::notes::{NoteParser, Note, parse_length, parse_pitch_key, key_frequency_millis};
use wavescore::errors::ErrorKind;

#[test]
fn a4_is_exactly_440_hz() {
    assert_eq!(parse_pitch_key(b"a4"), Some(49));
    let mut np = NoteParser::new();
    assert_eq!(np.frequency(49), 440_000);
}

#[test]
fn frequency_is_deterministic_on_repeat_calls() {
    let mut np = NoteParser::new();
    let first = np.frequency(49);
    let second = np.frequency(49);
    assert_eq!(first, second);
    let c4_first = np.frequency(40);
    let c4_second = np.frequency(40);
    assert_eq!(c4_first, c4_second);
    assert_eq!(np.frequency(49), first);
}

#[test]
fn rest_has_frequency_zero() {
    let mut np = NoteParser::new();
    match np.try_parse(b"\\") {
        Ok(Some(Note::Pitch(f))) => assert_eq!(f, 0),
        _ => panic!("rest not recognized"),
    }
}

#[test]
fn middle_c_frequency() {
    // c4 is key 40; 440 * 2^(-9/12) = 261.6255... Hz, truncated to whole
    // millihertz one octave below the table entry for key 52.
    assert_eq!(parse_pitch_key(b"c4"), Some(40));
    assert_eq!(key_frequency_millis(40), 261_625);
}

#[test]
fn accidentals_share_key_numbers() {
    assert_eq!(parse_pitch_key(b"c#4"), parse_pitch_key(b"db4"));
    assert_eq!(parse_pitch_key(b"g#3"), parse_pitch_key(b"ab3"));
    assert_eq!(parse_pitch_key(b"a#4"), Some(50));
}

#[test]
fn pitch_shapes_rejected() {
    assert_eq!(parse_pitch_key(b"h4"), None);
    assert_eq!(parse_pitch_key(b"a"), None);
    assert_eq!(parse_pitch_key(b"a44"), None);
    assert_eq!(parse_pitch_key(b""), None);
}

#[test]
fn plain_length() {
    assert_eq!(parse_length(b"4"), Ok((1, 4, false)));
    assert_eq!(parse_length(b"1"), Ok((1, 1, false)));
}

#[test]
fn dotted_length_is_three_halves() {
    assert_eq!(parse_length(b"4."), Ok((3, 8, false)));
}

#[test]
fn staccato_length_halves_and_flags() {
    assert_eq!(parse_length(b"4*"), Ok((1, 8, true)));
}

#[test]
fn tie_sums_reciprocals() {
    // 1/4 + 1/4 + 1/2 = one whole beat, kept as an unreduced fraction
    let (num, den, st) = parse_length(b"4+4+2").unwrap();
    assert!(!st);
    assert_eq!((num, den), (32, 32));
}

#[test]
fn tie_ignores_empty_groups() {
    assert_eq!(parse_length(b"4++4"), parse_length(b"4+4"));
}

#[test]
fn malformed_lengths_are_invalid() {
    assert_eq!(parse_length(b"4%"), Err(ErrorKind::InvalidLength));
    assert_eq!(parse_length(b"0"), Err(ErrorKind::InvalidLength));
    assert_eq!(parse_length(b"4a."), Err(ErrorKind::InvalidLength));
    assert_eq!(parse_length(b"4.5"), Err(ErrorKind::InvalidLength));
    assert_eq!(parse_length(b"4+0"), Err(ErrorKind::InvalidLength));
}
