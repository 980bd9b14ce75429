use wavescore::chords::{Chord, Line};
use wavescore::errors::ErrorKind;
use wavescore::input::InputParser;
use wavescore::repeats::RepeatParser;

const FPS: u32 = 12000;
const MAX_VOICES: usize = 6;

fn first_freq(line: &Line) -> u64 {
    line.chords()[0].frequencies[0]
}

fn single_chord_line(freq: u64) -> Line {
    let mut line = Line::new();
    line.push(Chord { length: 10, size: 10, frequencies: vec![freq] });
    line
}

/// The emission order of the repeat engine, driven exactly as the
/// interpreter drives it: recording the body and two endings, each
/// repeat-end trigger replays the body once more, so the full pass order
/// is body, first ending, body, second ending, body, tail.
#[test]
fn repeat_engine_emission_order() {
    let p = single_chord_line(1);
    let v1 = single_chord_line(2);
    let v2 = single_chord_line(3);
    let mut rp = RepeatParser::new();
    // |: — open the body; the first pass is being played
    rp.start(&[0]);
    rp.push(&p);
    // |1. — first ending, played live, recorded nowhere
    rp.start(&[1]);
    rp.push(&v1);
    // :| — trigger: replay the body
    let e1 = rp.repeat().unwrap();
    assert_eq!(e1.iter().map(first_freq).collect::<Vec<_>>(), vec![1]);
    // |2. — second ending
    rp.start(&[2]);
    rp.push(&v2);
    // :| — trigger: replay the body again
    let e2 = rp.repeat().unwrap();
    assert_eq!(e2.iter().map(first_freq).collect::<Vec<_>>(), vec![1]);
    rp.clear();
    assert!(!rp.on_rec());
}

/// An ending recorded for two passes (`|1.3.`) is replayed from the
/// buffer when its later pass comes up, wrapped in the body.
#[test]
fn repeat_engine_replays_recorded_alternate_ending() {
    let p = single_chord_line(1);
    let v1 = single_chord_line(2);
    let v2 = single_chord_line(3);
    let mut rp = RepeatParser::new();
    rp.start(&[0]);
    rp.push(&p);
    rp.start(&[1, 3]);
    rp.push(&v1);
    let e1 = rp.repeat().unwrap();
    assert_eq!(e1.iter().map(first_freq).collect::<Vec<_>>(), vec![1]);
    rp.start(&[2]);
    rp.push(&v2);
    let e2 = rp.repeat().unwrap();
    assert_eq!(e2.iter().map(first_freq).collect::<Vec<_>>(), vec![1, 2, 1]);
}

fn run_lines(ip: &mut InputParser, lines: &[&[u8]]) -> Vec<Line> {
    let mut out = Vec::new();
    for line in lines {
        out.extend(ip.process_line(line).unwrap());
    }
    out
}

/// The interpreter end to end: `P, V1, P, V2, P, Q`.
#[test]
fn repeat_ordering_through_the_interpreter() {
    let mut ip = InputParser::new(MAX_VOICES, FPS);
    let mut emitted: Vec<Line> = Vec::new();
    for line in [
        b"4" as &[u8],
        b"|:",
        b"1 a4",
        b"|1",
        b"1 b4",
        b":|",
        b"|2",
        b"1 c4",
        b":|",
        b"|",
        b"1 d4",
    ] {
        emitted.extend(ip.process_line(line).unwrap());
    }
    let a4 = 440_000;
    let b4 = 493_883;
    let c4 = 261_625;
    let d4 = 293_665;
    let freqs: Vec<u64> = emitted.iter().map(first_freq).collect();
    assert_eq!(freqs, vec![a4, b4, a4, c4, a4, d4]);
}

#[test]
fn tempo_line_sets_bpm_and_emits_nothing() {
    let mut ip = InputParser::new(MAX_VOICES, FPS);
    let out = ip.process_line(b"240").unwrap();
    assert_eq!(out.len(), 0);
    assert_eq!(ip.wave.bpm, 240);
}

#[test]
fn comment_lines_are_ignored()
{
    let mut ip = InputParser::new(MAX_VOICES, FPS);
    assert_eq!(ip.process_line(b"this is a comment").unwrap().len(), 0);
    assert_eq!(ip.process_line(b"").unwrap().len(), 0);
    assert_eq!(ip.process_line(b"   ").unwrap().len(), 0);
}

/// A whole-note A4 and C4 at tempo 4: one line of two simultaneous
/// chords, each lasting `1 beat * 240 / 4 bpm * 12000 fps = 720000`
/// frames.
#[test]
fn whole_note_chord_frame_count() {
    let mut ip = InputParser::new(MAX_VOICES, FPS);
    assert!(ip.process_line(b"4").is_ok());
    let out = ip.process_line(b"1 a4 c4").unwrap();
    assert_eq!(out.len(), 1);
    let line = &out[0];
    assert_eq!(line.len(), 1);
    assert_eq!(line.chords()[0].frequencies, vec![440_000, 261_625]);
    assert_eq!(line.chords()[0].length, 720_000);
    assert_eq!(line.chords()[0].size, 720_000);
    assert_eq!(line.offset(), 720_000);
}

/// A capture declared on one line commits with the next completed chord;
/// replaying it merged with a quarter-note C4 renders both notes
/// together.
#[test]
fn capture_replay_merges_with_new_material() {
    let mut ip = InputParser::new(MAX_VOICES, FPS);
    assert!(ip.process_line(b"4").is_ok());
    let whole = run_lines(&mut ip, &[b"(x 1 a4"]);
    assert_eq!(whole.len(), 1);
    assert_eq!(whole[0].chords()[0].frequencies, vec![440_000]);
    let merged = run_lines(&mut ip, &[b"[x 4 c4"]);
    assert_eq!(merged.len(), 1);
    let line = &merged[0];
    assert_eq!(line.len(), 2);
    // the replayed whole-note A4 and the fresh quarter-note C4 sound together
    let mut all: Vec<u64> = line.chords().iter().flat_map(|c| c.frequencies.clone()).collect();
    all.sort();
    assert_eq!(all, vec![261_625, 440_000]);
    assert_eq!(line.chords()[0].length, 720_000);
    assert_eq!(line.chords()[1].length, 180_000);
    assert_eq!(line.offset(), 180_000);
    assert_eq!(line.size(), 720_000);
}

/// A declaration alone on its line marks the key for the next chord.
#[test]
fn lone_declaration_line_emits_nothing_and_captures_next_chord() {
    let mut ip = InputParser::new(MAX_VOICES, FPS);
    assert!(ip.process_line(b"4").is_ok());
    assert_eq!(ip.process_line(b"(x").unwrap().len(), 0);
    assert_eq!(run_lines(&mut ip, &[b"1 a4"]).len(), 1);
    let replay = run_lines(&mut ip, &[b"[x"]);
    assert_eq!(replay.len(), 1);
    assert_eq!(replay[0].chords()[0].frequencies, vec![440_000]);
}

/// Without a tempo line, the first note length is rejected.
#[test]
fn note_without_tempo_is_invalid_timing() {
    let mut ip = InputParser::new(MAX_VOICES, FPS);
    assert_eq!(ip.process_line(b"(x").unwrap().len(), 0);
    assert!(matches!(ip.process_line(b"4 a4"), Err(ErrorKind::InvalidTiming)));
}

/// A malformed length token stops the run.
#[test]
fn malformed_length_is_fatal() {
    let mut ip = InputParser::new(MAX_VOICES, FPS);
    assert!(ip.process_line(b"4").is_ok());
    assert!(matches!(ip.process_line(b"4% a4"), Err(ErrorKind::InvalidLength)));
    let mut ip2 = InputParser::new(MAX_VOICES, FPS);
    assert!(ip2.process_line(b"4").is_ok());
    assert!(matches!(ip2.process_line(b"4%"), Err(ErrorKind::InvalidLength)));
}

#[test]
fn token_sequence_errors() {
    let mut ip = InputParser::new(MAX_VOICES, FPS);
    assert!(ip.process_line(b"4").is_ok());
    assert!(matches!(ip.process_line(b"4 4"), Err(ErrorKind::InvalidTokenSequence)));
    let mut ip2 = InputParser::new(MAX_VOICES, FPS);
    assert!(ip2.process_line(b"4").is_ok());
    assert!(matches!(ip2.process_line(b"4"), Ok(_)));
    let mut ip3 = InputParser::new(MAX_VOICES, FPS);
    assert!(ip3.process_line(b"4").is_ok());
    assert!(matches!(ip3.process_line(b"(x a4"), Err(ErrorKind::InvalidTokenSequence)));
}

#[test]
fn unknown_pitch_is_invalid() {
    let mut ip = InputParser::new(MAX_VOICES, FPS);
    assert!(ip.process_line(b"4").is_ok());
    assert!(matches!(ip.process_line(b"4 h4"), Err(ErrorKind::InvalidPitch)));
}

#[test]
fn mismatched_replay_is_malformed() {
    let mut ip = InputParser::new(MAX_VOICES, FPS);
    assert!(ip.process_line(b"4").is_ok());
    assert_eq!(run_lines(&mut ip, &[b"(x 1 a4"]).len(), 1);
    // a quarter-note slot cannot borrow a whole-note replay
    assert!(matches!(ip.process_line(b"2 [x"), Err(ErrorKind::MalformedChord)));
}

#[test]
fn volta_errors() {
    let mut ip = InputParser::new(MAX_VOICES, FPS);
    assert!(matches!(ip.process_line(b":|"), Err(ErrorKind::VoltaNotFound)));
    let mut ip2 = InputParser::new(MAX_VOICES, FPS);
    assert!(ip2.process_line(b"|:").is_ok());
    assert!(matches!(ip2.process_line(b":|"), Err(ErrorKind::VoltaEmpty)));
}

/// A rest occupies a slot at frequency zero.
#[test]
fn rest_takes_a_slot() {
    let mut ip = InputParser::new(MAX_VOICES, FPS);
    assert!(ip.process_line(b"4").is_ok());
    let out = run_lines(&mut ip, &[b"4 a4 \\"]);
    assert_eq!(out[0].chords()[0].frequencies, vec![440_000, 0]);
}

/// A staccato note sounds for half the frames of its notated slot.
#[test]
fn staccato_halves_the_sounding_length() {
    let mut ip = InputParser::new(MAX_VOICES, FPS);
    assert!(ip.process_line(b"4").is_ok());
    let out = run_lines(&mut ip, &[b"4* a4"]);
    let c = &out[0].chords()[0];
    assert_eq!(c.length, 90_000);
    assert_eq!(c.size, 180_000);
}

/// A chord is pushed, shared, onto every key declared for it.
#[test]
fn one_chord_commits_to_every_pending_key() {
    let mut ip = InputParser::new(MAX_VOICES, FPS);
    assert!(ip.process_line(b"4").is_ok());
    assert_eq!(ip.process_line(b"(x (y").unwrap().len(), 0);
    assert_eq!(run_lines(&mut ip, &[b"1 a4"]).len(), 1);
    let x = run_lines(&mut ip, &[b"[x"]);
    let y = run_lines(&mut ip, &[b"[y"]);
    assert_eq!(x[0].chords()[0].frequencies, vec![440_000]);
    assert_eq!(y[0].chords()[0].frequencies, vec![440_000]);
}

/// A replay cannot observe a chord captured later in the same line: the
/// declared key holds nothing when the replay is classified.
#[test]
fn replay_does_not_see_capture_from_the_same_chord() {
    let mut ip = InputParser::new(MAX_VOICES, FPS);
    assert!(ip.process_line(b"4").is_ok());
    assert!(matches!(
        ip.process_line(b"(x 1 a4 [x"),
        Err(ErrorKind::BufferEmpty)
    ));
}

/// A declaration commits only the chord that closes next, not the whole
/// line: later chords of the same line stay out of the buffer.
#[test]
fn declaration_captures_only_the_next_closed_chord() {
    let mut ip = InputParser::new(MAX_VOICES, FPS);
    assert!(ip.process_line(b"4").is_ok());
    assert_eq!(run_lines(&mut ip, &[b"(x 4 a4 4 c4"]).len(), 1);
    let replay = run_lines(&mut ip, &[b"[x"]);
    assert_eq!(replay[0].chords()[0].frequencies, vec![440_000]);
    assert_eq!(replay[0].len(), 1);
}
