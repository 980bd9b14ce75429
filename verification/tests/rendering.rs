use wavescore::input::InputParser;
use wavescore::waveform::{FoldPlan, Tone, Waveform};
use wavescore::wav::{le32, riff_sizes, sample_bytes, wav_header};
use wavescore::chords::{Chord, Line};

const FPS: u32 = 12000;
const MAX_VOICES: usize = 6;

/// Renders one tone the way the player does: an amplitude-ceilinged sine
/// with a raised-cosine envelope.
fn render(tone: &Tone, amp: i16) -> Vec<i16> {
    let freq = tone.millihertz as f64 / 1000.0;
    let n = tone.length as f64;
    let period = freq * std::f64::consts::PI * 2.0 / FPS as f64;
    (0..tone.length)
        .map(|i| {
            let x = i as f64 / n;
            let envelope = ((x * std::f64::consts::PI).cos() + 1.0) / 2.0;
            (amp as f64 * envelope * (period * i as f64).sin()) as i16
        })
        .collect()
}

fn render_plan(wave: &mut Waveform, plan: &FoldPlan) {
    for tone in plan.tones.iter() {
        let samples = render(tone, plan.amp);
        wave.superpose(&samples);
    }
}

/// The whole-note scenario: BPM 4, one chord of A4 and C4.  The drained
/// data is `frameCount(1 beat at BPM 4) = 720000` samples — 1440000
/// bytes — nonzero and bounded by the amplitude ceiling.
#[test]
fn whole_note_chord_renders_expected_data_size() {
    let mut ip = InputParser::new(MAX_VOICES, FPS);
    ip.process_line(b"4").unwrap();
    let mut emitted = ip.process_line(b"1 a4 c4").unwrap();
    assert_eq!(emitted.len(), 1);
    let line = emitted.remove(0);
    let plan = ip.wave.fold_with_line(&line).unwrap();
    assert_eq!(plan.tones.len(), 2);
    assert_eq!(plan.amp, 32767 / 6);
    render_plan(&mut ip.wave, &plan);
    let drained = ip.wave.drain(line.offset());
    assert_eq!(drained.len(), 720_000);
    let data_bytes = drained.len() * 2;
    assert_eq!(data_bytes, 1_440_000);
    assert!(drained.iter().any(|&s| s != 0));
    let bound = 2 * (32767 / 6) as i32;
    assert!(drained.iter().all(|&s| (s as i32).abs() <= bound));
    // nothing remains buffered: the whole line resolved at once
    assert_eq!(ip.wave.drain_all().len(), 0);
    // and the container sizes for that much data
    let file_len = 44 + data_bytes as u64;
    let (riff, data) = riff_sizes(file_len);
    assert_eq!(riff, file_len as u32 - 8);
    assert_eq!(data, 1_440_000);
}

/// The accumulator never shrinks while lines fold into it, and draining
/// the resolved offset keeps every sample of notes still in flight.
#[test]
fn fold_grows_and_drain_keeps_the_tail() {
    let mut wave = Waveform::new(1, FPS);
    wave.bpm = 60;
    let mut long_short = Line::new();
    long_short.push(Chord { length: 8, size: 8, frequencies: vec![1_000_000] });
    long_short.push(Chord { length: 4, size: 4, frequencies: vec![2_000_000] });
    let plan = wave.fold_with_line(&long_short).unwrap();
    assert_eq!(wave.buffer.len(), 8);
    // superpose a recognizable ramp over the first four samples
    wave.superpose(&[1, 2, 3, 4]);
    let _ = plan;
    // a following short line must not shrink the buffer
    let mut short = Line::new();
    short.push(Chord { length: 2, size: 2, frequencies: vec![1_000_000] });
    wave.fold_with_line(&short).unwrap();
    assert_eq!(wave.buffer.len(), 8);
    // draining the resolved prefix keeps the rest, in order
    let head = wave.drain(4);
    assert_eq!(head, vec![1, 2, 3, 4]);
    assert_eq!(wave.buffer.len(), 4);
    assert_eq!(wave.drain_all(), vec![0, 0, 0, 0]);
}

/// Superposition saturates rather than wraps.
#[test]
fn superpose_saturates() {
    let mut wave = Waveform::new(1, FPS);
    wave.bpm = 60;
    let mut line = Line::new();
    line.push(Chord { length: 2, size: 2, frequencies: vec![1_000_000] });
    wave.fold_with_line(&line).unwrap();
    wave.superpose(&[32000, -32000]);
    wave.superpose(&[32000, -32000]);
    assert_eq!(wave.drain_all(), vec![32767, -32768]);
}

#[test]
fn header_bytes_are_canonical() {
    let h = wav_header(FPS);
    assert_eq!(h.len(), 44);
    assert_eq!(&h[0..4], b"RIFF");
    assert_eq!(&h[4..8], &[0, 0, 0, 0]);
    assert_eq!(&h[8..12], b"WAVE");
    assert_eq!(&h[12..16], b"fmt ");
    assert_eq!(&h[16..20], &[16, 0, 0, 0]);
    assert_eq!(&h[20..22], &[1, 0]);
    assert_eq!(&h[22..24], &[1, 0]);
    assert_eq!(&h[24..28], le32(FPS).as_slice());
    assert_eq!(&h[28..32], le32(FPS * 2).as_slice());
    assert_eq!(&h[32..34], &[2, 0]);
    assert_eq!(&h[34..36], &[16, 0]);
    assert_eq!(&h[36..40], b"data");
    assert_eq!(&h[40..44], &[0, 0, 0, 0]);
}

#[test]
fn le32_encodes_little_endian() {
    assert_eq!(le32(0x01020304), vec![4, 3, 2, 1]);
    assert_eq!(le32(12000), vec![0xE0, 0x2E, 0, 0]);
}

/// A note of zero frames is rejected when it would sound.
#[test]
fn zero_length_note_is_invalid_timing() {
    let mut wave = Waveform::new(1, FPS);
    wave.bpm = 60;
    let mut line = Line::new();
    line.push(Chord { length: 0, size: 4, frequencies: vec![1_000_000] });
    assert!(wave.fold_with_line(&line).is_err());
}

/// An empty line is rejected.
#[test]
fn empty_line_is_rejected() {
    let mut wave = Waveform::new(1, FPS);
    wave.bpm = 60;
    let line = Line::new();
    assert!(matches!(
        wave.fold_with_line(&line),
        Err(wavescore::errors::ErrorKind::LineEmpty)
    ));
}

#[test]
fn sample_bytes_encodes_two_complement_little_endian() {
    assert_eq!(sample_bytes(&[]), Vec::<u8>::new());
    assert_eq!(sample_bytes(&[0x0102]), vec![0x02, 0x01]);
    assert_eq!(sample_bytes(&[-1]), vec![0xFF, 0xFF]);
    assert_eq!(sample_bytes(&[-32768]), vec![0x00, 0x80]);
    assert_eq!(sample_bytes(&[1, -2]), vec![0x01, 0x00, 0xFE, 0xFF]);
}
