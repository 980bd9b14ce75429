use wavescore::input::{parse_bpm, should_be_chords, tokenize, InputParser};
use wavescore::errors::ErrorKind;
use wavescore::repeats::{parse_volta_start, should_be_rep};

#[test]
fn tokenize_splits_on_any_ascii_whitespace() {
    let toks = tokenize(b"  4 \t a4\r\n c4  ");
    let views: Vec<&[u8]> = toks.iter().map(|t| t.as_slice()).collect();
    assert_eq!(views, vec![b"4" as &[u8], b"a4", b"c4"]);
    assert_eq!(tokenize(b"").len(), 0);
    assert_eq!(tokenize(b"   ").len(), 0);
}

#[test]
fn bpm_token_allows_a_leading_plus() {
    assert_eq!(parse_bpm(b"240"), Some(240));
    assert_eq!(parse_bpm(b"+240"), Some(240));
    assert_eq!(parse_bpm(b"70000"), None);
    assert_eq!(parse_bpm(b"24a"), None);
    assert_eq!(parse_bpm(b""), None);
}

#[test]
fn oversized_tempo_is_not_a_tempo_line() {
    // too large for a tempo, the line falls through to the chord grammar
    // where a lone length cannot stand
    let mut ip = InputParser::new(6, 12000);
    assert!(ip.process_line(b"4").is_ok());
    assert!(matches!(ip.process_line(b"70000"), Err(ErrorKind::InvalidTokenSequence)));
}

#[test]
fn dispatch_predicates() {
    assert!(should_be_chords(b"4"));
    assert!(should_be_chords(b"(x"));
    assert!(should_be_chords(b"[x"));
    assert!(!should_be_chords(b"a4"));
    assert!(should_be_rep(b"|:"));
    assert!(should_be_rep(b":|"));
    assert!(should_be_rep(b"|1.3."));
    assert!(!should_be_rep(b"|x"));
    assert!(!should_be_rep(b"4"));
}

#[test]
fn volta_start_names_one_digit_per_byte() {
    let v = parse_volta_start(b"|1.3.").unwrap();
    assert_eq!(v, vec![1, 3]);
    let v = parse_volta_start(b"|12").unwrap();
    assert_eq!(v, vec![1, 2]);
    assert!(parse_volta_start(b"|.").is_none());
    assert!(parse_volta_start(b"|").is_none());
    assert!(parse_volta_start(b"x|").is_none());
}
