//! The sample accumulator.
//!
//! A line is folded into a growable buffer of signed 16-bit samples:
//! [`Waveform::fold_with_line`] widens the buffer to the line's size —
//! never shrinking it — and hands back the plan of tones to render (one
//! per non-rest frequency, with its frame count and the amplitude
//! ceiling); each rendered tone is superimposed onto the front of the
//! buffer with saturating addition; [`Waveform::drain`] then removes
//! exactly the resolved prefix, so samples of notes still sounding past
//! the drained offset are kept for the following lines.

use vstd::prelude::*;

use crate::chords::{ChordView, Line, spec_size};
use crate::errors::ErrorKind;

verus! {

/// One tone to render: a frequency in millihertz and its length in
/// frames.
pub struct Tone {
    pub millihertz: u64,
    pub length: usize,
}

/// What a fold asks the renderer for: the per-voice amplitude ceiling and
/// the tones of the line, in notation order.
pub struct FoldPlan {
    pub amp: i16,
    pub tones: Vec<Tone>,
}

/// The mathematical content of a tone list.
pub open spec fn tones_view(ts: Seq<Tone>) -> Seq<(u64, int)> {
    ts.map_values(|t: Tone| (t.millihertz, t.length as int))
}

/// A frequency that actually sounds (not a rest).
pub open spec fn nonzero_freq() -> spec_fn(u64) -> bool {
    |f: u64| f != 0
}

/// The tones of the first `fi` frequencies of one chord: the non-rest
/// ones, each paired with the chord's length.
pub open spec fn chord_tones_of(c: ChordView, fi: int) -> Seq<(u64, int)> {
    c.freqs.subrange(0, fi).filter(nonzero_freq()).map_values(|f: u64| (f, c.length))
}

/// The tones of one chord: its non-rest frequencies, each paired with the
/// chord's length.
pub open spec fn chord_tones(c: ChordView) -> Seq<(u64, int)> {
    chord_tones_of(c, c.freqs.len() as int)
}

/// The tones of a line, chord by chord.
pub open spec fn spec_tones(s: Seq<ChordView>) -> Seq<(u64, int)>
    decreases s.len(),
{
    if s.len() == 0 {
        Seq::empty()
    } else {
        spec_tones(s.drop_last()) + chord_tones(s.last())
    }
}

/// The most simultaneous voices of any chord of the line (rests count:
/// they occupy a slot).
pub open spec fn spec_voices(s: Seq<ChordView>) -> int
    decreases s.len(),
{
    if s.len() == 0 {
        0
    } else {
        let rest = spec_voices(s.drop_last());
        if s.last().freqs.len() >= rest {
            s.last().freqs.len() as int
        } else {
            rest
        }
    }
}

/// Frames of `num/den` beats at `bpm` beats per minute — four whole notes
/// per minute at tempo `bpm` — and `fps` frames per second, saturating at
/// the largest frame count.
pub open spec fn spec_frames(num: int, den: int, fps: int, bpm: int) -> int {
    let q = (num * 240 * fps) / (den * bpm);
    if q > usize::MAX {
        usize::MAX as int
    } else {
        q
    }
}

/// A sum of two samples, saturating at the 16-bit limits.
pub open spec fn sat_add_i16(a: int, b: int) -> int {
    let s = a + b;
    if s > 32767 {
        32767
    } else if s < -32768 {
        -32768
    } else {
        s
    }
}

/// The sample accumulator together with the ambient rendering context.
pub struct Waveform {
    /// The current tempo in beats per minute; `0` while unset.
    pub bpm: u16,
    /// The voice count the amplitude ceiling is sized for.
    pub max: usize,
    /// Frames per second.
    pub fps: u32,
    /// The accumulated, not yet flushed samples.
    pub buffer: Vec<i16>,
}

impl Waveform {
    /// The accumulated, not yet flushed samples.
    pub open spec fn samples(self) -> Seq<i16> {
        self.buffer@
    }

    pub fn new(max: usize, fps: u32) -> (r: Waveform)
        requires
            max >= 1,
        ensures
            r.bpm == 0,
            r.max == max,
            r.fps == fps,
            r.samples() == Seq::<i16>::empty(),
    {
        let r = Waveform { bpm: 0, max, fps, buffer: Vec::new() };
        proof {
            assert(r.samples() =~= Seq::<i16>::empty());
        }
        r
    }

    /// The frame count of `num/den` beats at the current tempo.
    pub fn frame_count(&self, num: u64, den: u64) -> (r: usize)
        requires
            self.bpm > 0,
            den > 0,
        ensures
            r == spec_frames(num as int, den as int, self.fps as int, self.bpm as int),
    {
        proof {
            assert((num as u128) * 240 * (self.fps as u128) == (num as int) * 240 * (
            self.fps as int) && (num as int) * 240 * (self.fps as int) < u128::MAX) by (nonlinear_arith)
                requires
                    num <= u64::MAX,
                    self.fps <= u32::MAX,
            ;
            assert((den as u128) * (self.bpm as u128) == (den as int) * (self.bpm as int) && (
            den as int) * (self.bpm as int) >= 1 && (den as int) * (self.bpm as int)
                < u128::MAX) by (nonlinear_arith)
                requires
                    1 <= den <= u64::MAX,
                    1 <= self.bpm <= u16::MAX,
            ;
        }
        let total: u128 = (num as u128) * 240 * (self.fps as u128);
        let divisor: u128 = (den as u128) * (self.bpm as u128);
        let q: u128 = total / divisor;
        if q > usize::MAX as u128 {
            usize::MAX
        } else {
            q as usize
        }
    }

    /// Folds a line: checks it, widens the buffer to the line's size
    /// (never shrinking it, and leaving the accumulated samples as they
    /// were), and hands back the tones to render.  A line of zero size is
    /// empty; a non-rest note of zero length, or any non-rest note while
    /// the tempo is unset, has no valid timing.
    pub fn fold_with_line(&mut self, line: &Line) -> (r: Result<FoldPlan, ErrorKind>)
        requires
            old(self).max >= 1,
        ensures
            final(self).bpm == old(self).bpm,
            final(self).max == old(self).max,
            final(self).fps == old(self).fps,
            final(self).samples().len() >= old(self).samples().len(),
            forall|i: int|
                0 <= i < old(self).samples().len() ==> final(self).samples()[i] == old(
                    self,
                ).samples()[i],
            forall|i: int|
                old(self).samples().len() <= i < final(self).samples().len()
                    ==> final(self).samples()[i] == 0i16,
            match r {
                Ok(plan) => {
                    &&& line@.len() > 0
                    &&& spec_size(line@) > 0
                    &&& !(exists|ci: int, fi: int|
                        0 <= ci < line@.len() && 0 <= fi < line@[ci].freqs.len()
                            && line@[ci].freqs[fi] != 0 && (line@[ci].length == 0 || old(
                            self,
                        ).bpm == 0))
                    &&& final(self).samples().len() == if spec_size(line@) > old(
                        self,
                    ).samples().len() {
                        spec_size(line@)
                    } else {
                        old(self).samples().len() as int
                    }
                    &&& tones_view(plan.tones@) == spec_tones(line@)
                    &&& plan.amp as int == 32767 as int / (if spec_voices(line@) > old(
                        self,
                    ).max {
                        spec_voices(line@)
                    } else {
                        old(self).max as int
                    })
                },
                Err(e) => {
                    &&& final(self).samples() == old(self).samples()
                    &&& (e == ErrorKind::LineEmpty || e == ErrorKind::InvalidTiming)
                    &&& (e == ErrorKind::LineEmpty <==> (line@.len() == 0 || spec_size(line@)
                        == 0))
                    &&& (e == ErrorKind::InvalidTiming ==> (exists|ci: int, fi: int|
                        0 <= ci < line@.len() && 0 <= fi < line@[ci].freqs.len()
                            && line@[ci].freqs[fi] != 0 && (line@[ci].length == 0 || old(
                            self,
                        ).bpm == 0)))
                },
            },
    {
        if line.len() == 0 {
            return Err(ErrorKind::LineEmpty);
        }
        let size = line.size();
        if size == 0 {
            return Err(ErrorKind::LineEmpty);
        }
        let chords = line.chords();
        proof {
            assert(chords@.map_values(|c: crate::chords::Chord| c@).len() == line@.len());
            assert(forall|k: int|
                0 <= k < chords@.len() ==> (#[trigger] chords@[k])@ == line@[k]);
        }
        let mut voices: usize = 0;
        let mut tones: Vec<Tone> = Vec::new();
        let mut ci: usize = 0;
        while ci < chords.len()
            invariant
                chords@.len() == line@.len(),
                forall|k: int| 0 <= k < chords@.len() ==> (#[trigger] chords@[k])@ == line@[k],
                ci <= chords@.len(),
                self.bpm == old(self).bpm,
                voices == spec_voices(line@.subrange(0, ci as int)),
                voices <= usize::MAX,
                tones_view(tones@) == spec_tones(line@.subrange(0, ci as int)),
                line@.len() > 0,
                spec_size(line@) > 0,
                !(exists|ci2: int, fi: int|
                    0 <= ci2 < ci && 0 <= fi < line@[ci2].freqs.len() && line@[ci2].freqs[fi]
                        != 0 && (line@[ci2].length == 0 || self.bpm == 0)),
            decreases chords@.len() - ci,
        {
            let chord = &chords[ci];
            proof {
                assert(chord@ == line@[ci as int]);
                assert(line@.subrange(0, ci + 1).drop_last() =~= line@.subrange(0, ci as int));
                assert(line@.subrange(0, ci + 1).last() == line@[ci as int]);
            }
            if chord.frequencies.len() > voices {
                voices = chord.frequencies.len();
            }
            let ghost tones_pre = tones@;
            let mut fi: usize = 0;
            while fi < chord.frequencies.len()
                invariant
                    chord@ == line@[ci as int],
                    0 <= ci < line@.len(),
                    fi <= chord@.freqs.len(),
                    self.bpm == old(self).bpm,
                    tones_view(tones@) == tones_view(tones_pre) + chord_tones_of(
                        chord@,
                        fi as int,
                    ),
                    line@.len() > 0,
                    spec_size(line@) > 0,
                    !(exists|fi2: int|
                        0 <= fi2 < fi && chord@.freqs[fi2] != 0 && (chord@.length == 0
                            || self.bpm == 0)),
                decreases chord@.freqs.len() - fi,
            {
                let ghost tpre2 = tones@;
                let f = chord.frequencies[fi];
                if f != 0 {
                    if chord.length == 0 || self.bpm == 0 {
                        proof {
                            assert(exists|ci2: int, fi2: int|
                                0 <= ci2 < line@.len() && 0 <= fi2 < line@[ci2].freqs.len()
                                    && line@[ci2].freqs[fi2] != 0 && (line@[ci2].length == 0
                                    || old(self).bpm == 0)) by {
                                assert(line@[ci as int].freqs[fi as int] != 0 && (line@[
                                ci as int].length == 0 || old(self).bpm == 0));
                            }
                        }
                        return Err(ErrorKind::InvalidTiming);
                    }
                    tones.push(Tone { millihertz: f, length: chord.length });
                }
                proof {
                    lemma_chord_tones_of_step(chord@, fi as int);
                    assert(tones_view(tpre2) == tones_view(tones_pre) + chord_tones_of(
                        chord@,
                        fi as int,
                    ));
                    if chord@.freqs[fi as int] != 0 {
                        assert(tones@ == tpre2.push(tones@.last()));
                        assert(tones@.drop_last() =~= tpre2);
                        assert(chord_tones_of(chord@, fi + 1) == chord_tones_of(
                            chord@,
                            fi as int,
                        ).push((chord@.freqs[fi as int], chord@.length)));
                        assert(tones@.last().millihertz == chord@.freqs[fi as int]);
                        assert(tones@.last().length as int == chord@.length);
                        assert(tones_view(tones@).last() == (
                            chord@.freqs[fi as int],
                            chord@.length,
                        ));
                        assert(tones_view(tones@).drop_last() =~= tones_view(tones@.drop_last()));
                    }
                    let lhs = tones_view(tones@);
                    let rhs = tones_view(tones_pre) + chord_tones_of(chord@, fi + 1);
                    assert(lhs.len() == rhs.len());
                    assert forall|k: int| 0 <= k < lhs.len() implies lhs[k] == rhs[k] by {
                        if chord@.freqs[fi as int] != 0 {
                            if k < lhs.len() - 1 {
                                assert(tones@[k] == tpre2[k]);
                                assert(lhs[k] == tones_view(tpre2)[k]);
                            } else {
                                assert(lhs[k] == (chord@.freqs[fi as int], chord@.length));
                            }
                        } else {
                            assert(lhs[k] == tones_view(tpre2)[k]);
                        }
                    }
                    assert(lhs =~= rhs);
                }
                fi += 1;
            }
            proof {
                lemma_chord_tones_of_full(chord@);
                assert(tones_view(tones@) =~= spec_tones(line@.subrange(0, ci + 1)));
            }
            ci += 1;
        }
        proof {
            assert(line@.subrange(0, line@.len() as int) =~= line@);
        }
        let amp_div: usize = if voices > self.max {
            voices
        } else {
            self.max
        };
        let amp: i16 = (32767usize / amp_div) as i16;
        let ghost pre = *self;
        if self.buffer.len() < size {
            self.buffer.resize(size, 0i16);
            proof {
                assert(forall|i: int|
                    0 <= i < pre.buffer@.len() ==> self.buffer@[i] == pre.buffer@[i]);
                assert(forall|i: int|
                    pre.buffer@.len() <= i < self.buffer@.len()
                        ==> vstd::pervasive::cloned::<i16>(0i16, #[trigger] self.buffer@[i]));
            }
        }
        Ok(FoldPlan { amp, tones })
    }

    /// Superimposes a rendered tone onto the front of the buffer with
    /// saturating 16-bit addition.  Samples past the end of the tone, or
    /// past the end of the buffer, are untouched.
    pub fn superpose(&mut self, tone: &[i16])
        ensures
            final(self).bpm == old(self).bpm,
            final(self).max == old(self).max,
            final(self).fps == old(self).fps,
            final(self).samples().len() == old(self).samples().len(),
            forall|i: int|
                0 <= i < old(self).samples().len() ==> final(self).samples()[i] == if i
                    < tone@.len() {
                    sat_add_i16(old(self).samples()[i] as int, tone@[i] as int)
                } else {
                    old(self).samples()[i] as int
                },
    {
        let mut i: usize = 0;
        let n = if tone.len() < self.buffer.len() {
            tone.len()
        } else {
            self.buffer.len()
        };
        while i < n
            invariant
                n <= tone@.len(),
                n <= self.buffer@.len(),
                i <= n,
                self.bpm == old(self).bpm,
                self.max == old(self).max,
                self.fps == old(self).fps,
                self.buffer@.len() == old(self).buffer@.len(),
                forall|j: int|
                    0 <= j < i ==> self.buffer@[j] == sat_add_i16(
                        old(self).buffer@[j] as int,
                        tone@[j] as int,
                    ),
                forall|j: int| i <= j < self.buffer@.len() ==> self.buffer@[j] == old(
                    self,
                ).buffer@[j],
            decreases n - i,
        {
            let a: i32 = self.buffer[i] as i32;
            let b: i32 = tone[i] as i32;
            let s: i32 = a + b;
            let clamped: i16 = if s > 32767 {
                32767
            } else if s < -32768 {
                -32768
            } else {
                s as i16
            };
            self.buffer.set(i, clamped);
            i += 1;
        }
    }

    /// Removes and returns the first `end` samples; the rest keep
    /// accumulating for notes still in flight.
    pub fn drain(&mut self, end: usize) -> (r: Vec<i16>)
        requires
            end <= old(self).samples().len(),
        ensures
            final(self).bpm == old(self).bpm,
            final(self).max == old(self).max,
            final(self).fps == old(self).fps,
            r@ == old(self).samples().subrange(0, end as int),
            final(self).samples() == old(self).samples().subrange(
                end as int,
                old(self).samples().len() as int,
            ),
    {
        let mut tail = self.buffer.split_off(end);
        core::mem::swap(&mut self.buffer, &mut tail);
        tail
    }

    /// Removes and returns everything that is still buffered.
    pub fn drain_all(&mut self) -> (r: Vec<i16>)
        ensures
            final(self).bpm == old(self).bpm,
            final(self).max == old(self).max,
            final(self).fps == old(self).fps,
            r@ == old(self).samples(),
            final(self).samples() == Seq::<i16>::empty(),
    {
        let n = self.buffer.len();
        let r = self.drain(n);
        proof {
            assert(old(self).samples().subrange(0, old(self).samples().len() as int) =~= old(
                self,
            ).samples());
            assert(final(self).samples() =~= Seq::<i16>::empty());
        }
        r
    }
}

proof fn lemma_chord_tones_of_step(c: ChordView, fi: int)
    requires
        0 <= fi < c.freqs.len(),
    ensures
        c.freqs[fi] != 0 ==> chord_tones_of(c, fi + 1) == chord_tones_of(c, fi).push(
            (c.freqs[fi], c.length),
        ),
        c.freqs[fi] == 0 ==> chord_tones_of(c, fi + 1) == chord_tones_of(c, fi),
{
    let sub1 = c.freqs.subrange(0, fi + 1);
    let sub0 = c.freqs.subrange(0, fi);
    assert(sub0.push(c.freqs[fi]) =~= sub1);
    sub0.lemma_filter_push(c.freqs[fi], nonzero_freq());
    if c.freqs[fi] != 0 {
        assert(chord_tones_of(c, fi + 1) =~= chord_tones_of(c, fi).push((c.freqs[fi], c.length)));
    } else {
        assert(chord_tones_of(c, fi + 1) =~= chord_tones_of(c, fi));
    }
}

proof fn lemma_chord_tones_of_full(c: ChordView)
    ensures
        chord_tones_of(c, c.freqs.len() as int) == chord_tones(c),
{
}

} // verus!
