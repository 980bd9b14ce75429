//! The line interpreter.
//!
//! Each input line either sets the tempo (a line that is a single
//! integer), controls the repeat structure (its first token holds `|` and
//! only repeat bytes), describes chords (its first token starts with a
//! digit or a capture sigil), or is a comment (anything else, ignored).
//! Chord lines run through a one-token-lookahead state machine: a length
//! token sets the frames of the chord in progress, pitch and replay
//! tokens accumulate frequencies, and a token of any other kind closes
//! the chord, commits it to the declared captures and appends it to the
//! line.  Completed lines are handed back for rendering, in order; while
//! a repeat session is open they are also recorded for later replay.

use vstd::prelude::*;

use crate::captures::{Cap, CapModel, CaptureParser, cap_shape, capture_model, is_cap_sigil,
    lemma_capture_model, lemma_replay_mark_model, lemma_update_model, lemma_will_capture_model,
    replay_mark_model, scale_chord, update_model, will_capture_model};
use crate::chords::{Chord, ChordView, Line, spec_merge};
use crate::errors::ErrorKind;
use crate::notes::{Note, NoteParser, is_digit_byte, is_digits, digits_val, spec_note};
use crate::repeats::{Rep, RepeatParser, should_be_rep, spec_should_be_rep};
use crate::waveform::{Waveform, spec_frames};

verus! {

/// An ASCII whitespace byte: space, tab, line feed, form feed or
/// carriage return.
pub open spec fn is_space(b: u8) -> bool {
    b == 32 || b == 9 || b == 10 || b == 12 || b == 13
}

/// The whitespace-separated tokens of a line, in order: each non-space
/// byte extends the current token, each space ends it.
pub open spec fn spec_tokenize(s: Seq<u8>) -> Seq<Seq<u8>>
    decreases s.len(),
{
    if s.len() == 0 {
        Seq::empty()
    } else if is_space(s.last()) {
        spec_tokenize(s.drop_last())
    } else if s.len() == 1 || is_space(s[s.len() - 2]) {
        spec_tokenize(s.drop_last()).push(seq![s.last()])
    } else {
        let r = spec_tokenize(s.drop_last());
        r.update(r.len() - 1, r.last().push(s.last()))
    }
}

/// Splits a line into its whitespace-separated tokens.
pub fn tokenize(line: &[u8]) -> (r: Vec<Vec<u8>>)
    ensures
        r@.map_values(|t: Vec<u8>| t@) == spec_tokenize(line@),
        forall|i: int| 0 <= i < r@.len() ==> (#[trigger] r@[i])@.len() > 0,
{
    let mut groups: Vec<Vec<u8>> = Vec::new();
    let mut cur: Vec<u8> = Vec::new();
    let mut i: usize = 0;
    while i < line.len()
        invariant
            i <= line.len(),
            cur@.len() > 0 ==> i >= 1 && !is_space(line@[i - 1]),
            cur@.len() == 0 ==> i == 0 || is_space(line@[i - 1]),
            (if cur@.len() == 0 {
                groups@.map_values(|t: Vec<u8>| t@)
            } else {
                groups@.map_values(|t: Vec<u8>| t@).push(cur@)
            }) =~~= spec_tokenize(line@.subrange(0, i as int)),
            forall|k: int| 0 <= k < groups@.len() ==> (#[trigger] groups@[k])@.len() > 0,
        decreases line.len() - i,
    {
        let b = line[i];
        proof {
            assert(line@.subrange(0, i + 1).drop_last() =~= line@.subrange(0, i as int));
            assert(line@.subrange(0, i + 1).last() == line@[i as int]);
            if i >= 1 {
                assert(line@.subrange(0, i + 1)[i - 1] == line@[i - 1]);
            }
        }
        if b == 32 || b == 9 || b == 10 || b == 12 || b == 13 {
            if cur.len() > 0 {
                groups.push(cur);
                cur = Vec::new();
            }
            proof {
                assert(groups@.map_values(|t: Vec<u8>| t@) =~~= spec_tokenize(
                    line@.subrange(0, i + 1),
                ));
            }
        } else {
            cur.push(b);
            proof {
                let prev = spec_tokenize(line@.subrange(0, i as int));
                if cur@.len() == 1 {
                    assert(cur@ =~= seq![line@[i as int]]);
                    assert(groups@.map_values(|t: Vec<u8>| t@).push(cur@) =~~= prev.push(
                        seq![line@[i as int]],
                    ));
                } else {
                    assert(prev.last() =~= cur@.drop_last());
                    assert(groups@.map_values(|t: Vec<u8>| t@).push(cur@) =~~= prev.update(
                        prev.len() - 1,
                        prev.last().push(line@[i as int]),
                    ));
                }
                assert(groups@.map_values(|t: Vec<u8>| t@).push(cur@) =~~= spec_tokenize(
                    line@.subrange(0, i + 1),
                ));
            }
        }
        i += 1;
    }
    if cur.len() > 0 {
        groups.push(cur);
    }
    proof {
        assert(line@.subrange(0, line@.len() as int) =~= line@);
        assert(groups@.map_values(|t: Vec<u8>| t@) =~~= spec_tokenize(line@));
    }
    groups
}

/// The tempo named by a line that is a single integer (an optional `+`
/// followed by digits) no larger than the largest representable tempo.
pub open spec fn spec_bpm_token(s: Seq<u8>) -> Option<int> {
    let body = if s.len() > 0 && s[0] == 43 {
        s.skip(1)
    } else {
        s
    };
    if is_digits(body) && digits_val(body) <= 65535 {
        Some(digits_val(body))
    } else {
        None
    }
}

/// Parses a token as a tempo.
pub fn parse_bpm(token: &[u8]) -> (r: Option<u16>)
    ensures
        match r {
            Some(v) => spec_bpm_token(token@) == Some(v as int),
            None => spec_bpm_token(token@) is None,
        },
{
    let body: &[u8] = if token.len() > 0 && token[0] == 43 {
        &token[1..token.len()]
    } else {
        &token[0..token.len()]
    };
    proof {
        if token@.len() > 0 && token@[0] == 43 {
            assert(body@ =~= token@.skip(1));
        } else {
            assert(body@ =~= token@);
        }
    }
    match crate::notes::parse_digits(body) {
        Some(v) => {
            if v <= 65535 {
                Some(v as u16)
            } else {
                None
            }
        },
        None => {
            proof {
                if is_digits(body@) {
                    assert(digits_val(body@) > u64::MAX);
                }
            }
            None
        },
    }
}

/// A line is parsed as chords when its first token starts with a digit
/// or a capture sigil.
pub open spec fn spec_should_be_chords(s: Seq<u8>) -> bool {
    s.len() > 0 && (is_cap_sigil(s[0]) || is_digit_byte(s[0]))
}

/// Executable form of [`spec_should_be_chords`].
pub fn should_be_chords(token: &[u8]) -> (r: bool)
    ensures
        r == spec_should_be_chords(token@),
{
    if token.len() == 0 {
        return false;
    }
    let b = token[0];
    crate::captures::should_be_cap(b) || (48 <= b && b <= 57)
}

/// A classified chord-line token.
pub enum Token {
    /// A declaration of a capture key.
    Cap(Vec<u8>),
    /// The chord replayed from a capture buffer.
    Front(Chord),
    /// A note length: numerator and denominator of the beat count, and
    /// the staccato flag.
    Len(u64, u64, bool),
    /// A pitch frequency in millihertz (`0` for a rest).
    Freq(u64),
    /// The end of the line.
    End,
}


/// The byte strings of a token list.
pub open spec fn toks_view(ts: Seq<Vec<u8>>) -> Seq<Seq<u8>> {
    ts.map_values(|t: Vec<u8>| t@)
}

/// A token that is not a capture instruction.
pub open spec fn plain_token(s: Seq<u8>) -> bool {
    !(s.len() > 0 && is_cap_sigil(s[0]))
}

/// Twice `x`, saturating at the largest frame count.
pub open spec fn sat_double(x: int) -> int {
    if 2 * x > usize::MAX {
        usize::MAX as int
    } else {
        2 * x
    }
}

/// Classifying a plain token as a chord-line token.
pub open spec fn spec_plain_chord_type(t: Seq<u8>) -> Result<Token, ErrorKind> {
    match spec_note(t) {
        Ok(opt) => match opt {
            Some(n) => match n {
                Note::Len(num, den, st) => Ok(Token::Len(num, den, st)),
                Note::Pitch(f) => Ok(Token::Freq(f)),
            },
            None => Err(ErrorKind::InvalidPitch),
        },
        Err(e) => Err(e),
    }
}

/// A classified token as a value: what the machine's specification
/// runs over.
pub ghost enum TokenV {
    Cap(Seq<u8>),
    Front(ChordView),
    Len(u64, u64, bool),
    Freq(u64),
}

/// The value of a classified token (the end of the line has none).
pub open spec fn tok_v(t: Token) -> TokenV {
    match t {
        Token::Cap(k) => TokenV::Cap(k@),
        Token::Front(c) => TokenV::Front(c@),
        Token::Len(num, den, st) => TokenV::Len(num, den, st),
        Token::Freq(f) => TokenV::Freq(f),
        Token::End => arbitrary(),
    }
}

/// The kind code of a token value, as the pair rules read it.
pub open spec fn tkind(t: TokenV) -> int {
    match t {
        TokenV::Cap(_) => 0,
        TokenV::Front(_) => 1,
        TokenV::Len(_, _, _) => 2,
        TokenV::Freq(_) => 3,
    }
}

/// Classifying one token against the capture store `m`: a capture token
/// follows [`cap_shape`] (a declaration hands out its key; a replay
/// hands out the buffer front, octave shifted, and records its sigil's
/// intent); any other token is a note length, a pitch, a rest, or
/// invalid.
pub open spec fn spec_classify(m: CapModel, t: Seq<u8>) -> Result<(TokenV, CapModel), ErrorKind> {
    if plain_token(t) {
        match spec_note(t) {
            Ok(opt) => match opt {
                Some(n) => match n {
                    Note::Len(num, den, st) => Ok((TokenV::Len(num, den, st), m)),
                    Note::Pitch(f) => Ok((TokenV::Freq(f), m)),
                },
                None => Err(ErrorKind::InvalidPitch),
            },
            Err(e) => Err(e),
        }
    } else {
        match cap_shape(t) {
            None => Err(ErrorKind::InvalidCaptureToken),
            Some((sig, key, sc)) => if sig == 40 {
                Ok((TokenV::Cap(key), m))
            } else if m.bufs.dom().contains(key) && m.bufs[key].len() > 0 {
                Ok(
                    (
                        TokenV::Front(scale_chord(m.bufs[key][0], sc)),
                        replay_mark_model(m, key, sig),
                    ),
                )
            } else if m.bufs.dom().contains(key) || m.pending.contains(key) {
                Err(ErrorKind::BufferEmpty)
            } else {
                Err(ErrorKind::KeyNotFound)
            },
        }
    }
}

/// Processing one classified token against the chord in progress: a
/// declaration joins the pending set; a length sets the chord's frames
/// (the tempo must be set, and staccato occupies double the sounding
/// frames); a pitch appends its frequency; a replay stands in for an
/// untouched chord — lending its own frames when none were set yet (the
/// borrow of spec §4.3) — or merges into one that already has content.
pub open spec fn spec_process(
    cty: TokenV,
    chord: ChordView,
    rc: ChordView,
    m: CapModel,
    bpm: int,
    fps: int,
) -> Result<(ChordView, ChordView, CapModel), ErrorKind> {
    match cty {
        TokenV::Cap(key) => Ok((chord, rc, will_capture_model(m, key))),
        TokenV::Len(num, den, st) => if bpm == 0 {
            Err(ErrorKind::InvalidTiming)
        } else {
            let frames = spec_frames(num as int, den as int, fps, bpm);
            Ok(
                (
                    ChordView {
                        length: frames,
                        size: if st {
                            sat_double(frames)
                        } else {
                            frames
                        },
                        freqs: chord.freqs,
                    },
                    rc,
                    m,
                ),
            )
        },
        TokenV::Freq(f) => Ok(
            (
                ChordView { length: chord.length, size: chord.size, freqs: chord.freqs.push(f) },
                rc,
                m,
            ),
        ),
        TokenV::Front(fc) => if rc.freqs.len() == 0 && chord.freqs.len() == 0 {
            if chord.length == 0 && chord.size == 0 {
                Ok((ChordView { length: fc.length, size: fc.size, freqs: chord.freqs }, fc, m))
            } else if chord.length == fc.length && chord.size == fc.size {
                Ok((chord, fc, m))
            } else {
                Err(ErrorKind::MalformedChord)
            }
        } else {
            match spec_merge(chord, fc) {
                Ok(c2) => Ok((c2, rc, m)),
                Err(e) => Err(e),
            }
        },
    }
}

/// Closing the chord in progress: the replayed chord stands alone when
/// nothing else accumulated, fresh content stands alone when nothing was
/// replayed, otherwise the two merge; the closed chord is committed to
/// every pending capture key.
pub open spec fn spec_close(chord: ChordView, rc: ChordView, m: CapModel) -> Result<
    (ChordView, CapModel),
    ErrorKind,
> {
    if chord.freqs.len() == 0 {
        Ok((rc, capture_model(m, rc)))
    } else if rc.freqs.len() == 0 {
        Ok((chord, capture_model(m, chord)))
    } else {
        match spec_merge(chord, rc) {
            Ok(c2) => Ok((c2, capture_model(m, c2))),
            Err(e) => Err(e),
        }
    }
}

/// The token-pair state machine of a chord line, from token `i` on,
/// with `cty` the already classified previous token: classify the next
/// token, process the previous one, and decide from the pair whether to
/// keep accumulating, close the chord onto the line, or reject the
/// sequence.  The result is the completed line together with the
/// capture store as the end-of-line commit will find it.
pub open spec fn spec_chords_run(
    toks: Seq<Seq<u8>>,
    i: int,
    cty: TokenV,
    chord: ChordView,
    rc: ChordView,
    line: Seq<ChordView>,
    m: CapModel,
    bpm: int,
    fps: int,
) -> Result<(Seq<ChordView>, CapModel), ErrorKind>
    decreases toks.len() - i,
{
    if i < toks.len() {
        match spec_classify(m, toks[i]) {
            Err(e) => Err(e),
            Ok((nty, m1)) => match spec_process(cty, chord, rc, m1, bpm, fps) {
                Err(e) => Err(e),
                Ok((chord2, rc2, m2)) => {
                    let ck = tkind(cty);
                    let nk = tkind(nty);
                    if ck == 2 && !(nk == 1 || nk == 3) {
                        Err(ErrorKind::InvalidTokenSequence)
                    } else if ck == 0 && nk == 3 {
                        Err(ErrorKind::InvalidTokenSequence)
                    } else if (ck == 3 && nk == 3) || (ck == 1 && (nk == 3 || nk == 1)) {
                        spec_chords_run(toks, i + 1, nty, chord2, rc2, line, m2, bpm, fps)
                    } else if ck == 3 || ck == 1 {
                        match spec_close(chord2, rc2, m2) {
                            Err(e) => Err(e),
                            Ok((closed, m3)) => spec_chords_run(
                                toks,
                                i + 1,
                                nty,
                                ChordView::empty(),
                                ChordView::empty(),
                                line.push(closed),
                                m3,
                                bpm,
                                fps,
                            ),
                        }
                    } else {
                        spec_chords_run(toks, i + 1, nty, chord2, rc2, line, m2, bpm, fps)
                    }
                },
            },
        }
    } else {
        match spec_process(cty, chord, rc, m, bpm, fps) {
            Err(e) => Err(e),
            Ok((chord2, rc2, m2)) => {
                let ck = tkind(cty);
                if ck == 2 {
                    Err(ErrorKind::InvalidTokenSequence)
                } else if ck == 3 || ck == 1 {
                    match spec_close(chord2, rc2, m2) {
                        Err(e) => Err(e),
                        Ok((closed, m3)) => Ok((line.push(closed), m3)),
                    }
                } else {
                    Ok((line, m2))
                }
            },
        }
    }
}

/// The outcome of one chord line: its chords in order, and the capture
/// store as the end-of-line commit will find it.
pub open spec fn spec_chords_line(toks: Seq<Seq<u8>>, bpm: int, fps: int, m: CapModel) -> Result<
    (Seq<ChordView>, CapModel),
    ErrorKind,
> {
    match spec_classify(m, toks[0]) {
        Err(e) => Err(e),
        Ok((cty, m1)) => spec_chords_run(
            toks,
            1,
            cty,
            ChordView::empty(),
            ChordView::empty(),
            Seq::empty(),
            m1,
            bpm,
            fps,
        ),
    }
}

/// The stateful interpreter: note lexer, capture store, repeat session
/// and sample accumulator, fed one line at a time.
pub struct InputParser {
    pub cap: CaptureParser,
    pub rep: RepeatParser,
    pub note: NoteParser,
    pub wave: Waveform,
}

impl InputParser {
    /// The components are well formed.
    pub open spec fn wf(self) -> bool {
        &&& self.cap.wf()
        &&& self.rep.wf()
        &&& self.note.wf()
        &&& self.wave.max >= 1
    }

    /// No removal, deletion or rotation intent is outstanding (they are
    /// gathered and committed within a single line).
    pub open spec fn quiescent(self) -> bool {
        forall|k: Seq<u8>|
            !self.cap.marked_pop(k) && !self.cap.marked_clear(k) && !self.cap.marked_rotate(k)
    }

    /// No key is waiting for a chord to capture.
    pub open spec fn no_pending(self) -> bool {
        forall|k: Seq<u8>| !self.cap.pending(k)
    }

    pub fn new(max: usize, fps: u32) -> (r: InputParser)
        requires
            max >= 1,
        ensures
            r.wf(),
            r.quiescent(),
            r.no_pending(),
            r.wave.bpm == 0,
            r.wave.max == max,
            r.wave.fps == fps,
            r.wave.samples() == Seq::<i16>::empty(),
            forall|k: Seq<u8>| r.cap.buf_of(k) is None,
            forall|i: int| r.rep.volta_of(i) is None,
            r.rep.spec_len() == 0,
            r.rep.spec_current() == 1,
    {
        InputParser {
            cap: CaptureParser::new(),
            rep: RepeatParser::new(),
            note: NoteParser::new(),
            wave: Waveform::new(max, fps),
        }
    }

    /// Classifies one token of a chord line.  A capture token follows the
    /// capture rules (and may record a replay intent); any other token is
    /// a note length, a pitch, or invalid.
    pub fn chord_type(&mut self, token: &[u8]) -> (r: Result<Token, ErrorKind>)
        requires
            old(self).wf(),
        ensures
            final(self).wf(),
            final(self).wave == old(self).wave,
            final(self).rep == old(self).rep,
            final(self).note.wf(),
            match r {
                Ok(Token::Len(num, den, _)) => num >= 1 && den >= 1,
                _ => true,
            },
            ({
                let s = token@;
                if plain_token(s) {
                    &&& final(self).cap == old(self).cap
                    &&& r == spec_plain_chord_type(s)
                } else {
                    match cap_shape(s) {
                        None => r == Err::<Token, ErrorKind>(ErrorKind::InvalidCaptureToken)
                            && final(self).cap == old(self).cap,
                        Some((sig, key, sc)) => if sig == 40 {
                            final(self).cap == old(self).cap && match r {
                                Ok(Token::Cap(k)) => k@ == key,
                                _ => false,
                            }
                        } else {
                            let bo = old(self).cap.buf_of(key);
                            if bo is Some && bo->Some_0.len() > 0 {
                                &&& CaptureParser::replay_mark_rel(
                                    old(self).cap,
                                    final(self).cap,
                                    key,
                                    sig,
                                )
                                &&& match r {
                                    Ok(Token::Front(c)) => c@ == crate::captures::scale_chord(
                                        bo->Some_0[0],
                                        sc,
                                    ),
                                    _ => false,
                                }
                            } else if bo is Some || old(self).cap.pending(key) {
                                r == Err::<Token, ErrorKind>(ErrorKind::BufferEmpty)
                                    && final(self).cap == old(self).cap
                            } else {
                                r == Err::<Token, ErrorKind>(ErrorKind::KeyNotFound)
                                    && final(self).cap == old(self).cap
                            }
                        },
                    }
                }
            }),
    {
        match self.cap.try_parse(token)? {
            Some(Cap::Cap(key)) => Ok(Token::Cap(key)),
            Some(Cap::Front(chord)) => Ok(Token::Front(chord)),
            None => {
                match self.note.try_parse(token)? {
                    Some(Note::Len(num, den, st)) => Ok(Token::Len(num, den, st)),
                    Some(Note::Pitch(f)) => Ok(Token::Freq(f)),
                    None => Err(ErrorKind::InvalidPitch),
                }
            },
        }
    }
}


impl InputParser {
    /// Runs the token-pair state machine over the tokens of one chord
    /// line, returning the completed line (or nothing, when the line
    /// only declared captures).  The outcome — the chords of the line,
    /// every capture commitment and replay intent along the way, and the
    /// end-of-line commit — is exactly [`spec_chords_line`] followed by
    /// [`update_model`].
    pub fn parse_chords(&mut self, toks: &Vec<Vec<u8>>) -> (r: Result<Option<Line>, ErrorKind>)
        requires
            old(self).wf(),
            old(self).quiescent(),
            toks@.len() > 0,
        ensures
            final(self).wf(),
            final(self).wave == old(self).wave,
            final(self).rep == old(self).rep,
            r is Ok ==> final(self).quiescent(),
            match spec_chords_line(
                toks_view(toks@),
                old(self).wave.bpm as int,
                old(self).wave.fps as int,
                old(self).cap.model(),
            ) {
                Ok((lineseq, m2)) => {
                    &&& (match r {
                        Ok(Some(l)) => lineseq.len() > 0 && l@ == lineseq,
                        Ok(None) => lineseq.len() == 0,
                        Err(_) => false,
                    })
                    &&& final(self).cap.model() == update_model(m2)
                },
                Err(e) => r == Err::<Option<Line>, ErrorKind>(e),
            },
    {
        let ghost tv = toks_view(toks@);
        let ghost m_start = old(self).cap.model();
        let ghost bpm0 = old(self).wave.bpm as int;
        let ghost fps0 = old(self).wave.fps as int;
        proof {
            assert(tv[0] == toks@[0]@);
        }
        let ghost cap_a = self.cap;
        let mut cty = match self.chord_type(toks[0].as_slice()) {
            Ok(t) => t,
            Err(e) => {
                proof {
                    {
                        let s_tok = tv[0];
                        if !plain_token(s_tok) {
                            match cap_shape(s_tok) {
                                Some((sig, key, sc)) => {
                                    assert(m_start.bufs.dom().contains(key) == (cap_a.buf_of(
                                        key,
                                    ) is Some));
                                    assert(m_start.pending.contains(key) == cap_a.pending(
                                        key,
                                    ));
                                    if cap_a.buf_of(key) is Some {
                                        assert(m_start.bufs[key] == cap_a.buf_of(
                                            key,
                                        )->Some_0);
                                        if sig != 40 && cap_a.buf_of(key)->Some_0.len() > 0 {
                                            lemma_replay_mark_model(
                                                cap_a,
                                                self.cap,
                                                key,
                                                sig,
                                            );
                                        }
                                    }
                                },
                                None => {},
                            }
                        }
                    }
                    assert(spec_chords_line(tv, bpm0, fps0, m_start) == Err::<
                        (Seq<ChordView>, CapModel),
                        ErrorKind,
                    >(e));
                }
                return Err(e);
            },
        };
        proof {
            {
                        let s_tok = tv[0];
                        if !plain_token(s_tok) {
                            match cap_shape(s_tok) {
                                Some((sig, key, sc)) => {
                                    assert(m_start.bufs.dom().contains(key) == (cap_a.buf_of(
                                        key,
                                    ) is Some));
                                    assert(m_start.pending.contains(key) == cap_a.pending(
                                        key,
                                    ));
                                    if cap_a.buf_of(key) is Some {
                                        assert(m_start.bufs[key] == cap_a.buf_of(
                                            key,
                                        )->Some_0);
                                        if sig != 40 && cap_a.buf_of(key)->Some_0.len() > 0 {
                                            lemma_replay_mark_model(
                                                cap_a,
                                                self.cap,
                                                key,
                                                sig,
                                            );
                                        }
                                    }
                                },
                                None => {},
                            }
                        }
                    }
            assert(spec_classify(m_start, tv[0]) == Ok::<(TokenV, CapModel), ErrorKind>(
                (tok_v(cty), self.cap.model()),
            ));
        }
        let mut chord = Chord::new();
        let mut rc = Chord::new();
        let mut line = Line::new();
        let mut i: usize = 1;
        loop
            invariant_except_break
                1 <= i <= toks@.len(),
                !(cty is End),
                match cty {
                    Token::Len(num, den, _) => num >= 1 && den >= 1,
                    _ => true,
                },
                spec_chords_run(
                    tv,
                    i as int,
                    tok_v(cty),
                    chord@,
                    rc@,
                    line@,
                    self.cap.model(),
                    bpm0,
                    fps0,
                ) == spec_chords_line(tv, bpm0, fps0, m_start),
            invariant
                self.wf(),
                self.wave == old(self).wave,
                self.rep == old(self).rep,
                tv == toks_view(toks@),
                m_start == old(self).cap.model(),
                bpm0 == old(self).wave.bpm as int,
                fps0 == old(self).wave.fps as int,
            ensures
                self.wf(),
                self.wave == old(self).wave,
                self.rep == old(self).rep,
                spec_chords_line(tv, bpm0, fps0, m_start) == Ok::<
                    (Seq<ChordView>, CapModel),
                    ErrorKind,
                >((line@, self.cap.model())),
            decreases toks@.len() - i,
        {
            let ghost cv0 = tok_v(cty);
            let ghost chord0 = chord@;
            let ghost rc0 = rc@;
            let ghost line0 = line@;
            let ghost m0g = self.cap.model();
            let ghost cap_b = self.cap;
            let ghost whole = spec_chords_line(tv, bpm0, fps0, m_start);
            let nty = if i < toks.len() {
                proof {
                    assert(tv[i as int] == toks@[i as int]@);
                }
                match self.chord_type(toks[i].as_slice()) {
                    Ok(t) => t,
                    Err(e) => {
                        proof {
                            {
                        let s_tok = tv[i as int];
                        if !plain_token(s_tok) {
                            match cap_shape(s_tok) {
                                Some((sig, key, sc)) => {
                                    assert(m0g.bufs.dom().contains(key) == (cap_b.buf_of(
                                        key,
                                    ) is Some));
                                    assert(m0g.pending.contains(key) == cap_b.pending(
                                        key,
                                    ));
                                    if cap_b.buf_of(key) is Some {
                                        assert(m0g.bufs[key] == cap_b.buf_of(
                                            key,
                                        )->Some_0);
                                        if sig != 40 && cap_b.buf_of(key)->Some_0.len() > 0 {
                                            lemma_replay_mark_model(
                                                cap_b,
                                                self.cap,
                                                key,
                                                sig,
                                            );
                                        }
                                    }
                                },
                                None => {},
                            }
                        }
                    }
                            assert(spec_classify(m0g, tv[i as int]) == Err::<
                                (TokenV, CapModel),
                                ErrorKind,
                            >(e));
                            assert(whole == Err::<(Seq<ChordView>, CapModel), ErrorKind>(e));
                        }
                        return Err(e);
                    },
                }
            } else {
                Token::End
            };
            let ghost m1g = self.cap.model();
            proof {
                if i < toks@.len() {
                    {
                        let s_tok = tv[i as int];
                        if !plain_token(s_tok) {
                            match cap_shape(s_tok) {
                                Some((sig, key, sc)) => {
                                    assert(m0g.bufs.dom().contains(key) == (cap_b.buf_of(
                                        key,
                                    ) is Some));
                                    assert(m0g.pending.contains(key) == cap_b.pending(
                                        key,
                                    ));
                                    if cap_b.buf_of(key) is Some {
                                        assert(m0g.bufs[key] == cap_b.buf_of(
                                            key,
                                        )->Some_0);
                                        if sig != 40 && cap_b.buf_of(key)->Some_0.len() > 0 {
                                            lemma_replay_mark_model(
                                                cap_b,
                                                self.cap,
                                                key,
                                                sig,
                                            );
                                        }
                                    }
                                },
                                None => {},
                            }
                        }
                    }
                    assert(spec_classify(m0g, tv[i as int]) == Ok::<
                        (TokenV, CapModel),
                        ErrorKind,
                    >((tok_v(nty), m1g)));
                }
            }
            let ck: u8 = match &cty {
                Token::Cap(_) => 0,
                Token::Front(_) => 1,
                Token::Len(_, _, _) => 2,
                Token::Freq(_) => 3,
                Token::End => 4,
            };
            let nk: u8 = match &nty {
                Token::Cap(_) => 0,
                Token::Front(_) => 1,
                Token::Len(_, _, _) => 2,
                Token::Freq(_) => 3,
                Token::End => 4,
            };
            // process the current token
            match cty {
                Token::Cap(key) => {
                    let ghost cap_c = self.cap;
                    let ghost kv = key@;
                    self.cap.will_capture(key);
                    proof {
                        lemma_will_capture_model(cap_c, self.cap, kv);
                    }
                },
                Token::Len(num, den, st) => {
                    if self.wave.bpm == 0 {
                        proof {
                            assert(spec_process(cv0, chord0, rc0, m1g, bpm0, fps0) == Err::<
                                (ChordView, ChordView, CapModel),
                                ErrorKind,
                            >(ErrorKind::InvalidTiming));
                            assert(whole == Err::<(Seq<ChordView>, CapModel), ErrorKind>(
                                ErrorKind::InvalidTiming,
                            ));
                        }
                        return Err(ErrorKind::InvalidTiming);
                    }
                    let length = self.wave.frame_count(num, den);
                    chord.length = length;
                    chord.size = if st {
                        if length <= usize::MAX / 2 {
                            2 * length
                        } else {
                            usize::MAX
                        }
                    } else {
                        length
                    };
                },
                Token::Front(fc) => {
                    if rc.is_empty() && chord.is_empty() {
                        if chord.length == 0 && chord.size == 0 {
                            chord.length = fc.length;
                            chord.size = fc.size;
                            rc = fc;
                        } else if chord.length == fc.length && chord.size == fc.size {
                            rc = fc;
                        } else {
                            proof {
                                assert(whole == Err::<(Seq<ChordView>, CapModel), ErrorKind>(
                                    ErrorKind::MalformedChord,
                                ));
                            }
                            return Err(ErrorKind::MalformedChord);
                        }
                    } else {
                        match chord.extend(&fc) {
                            Ok(()) => {},
                            Err(e) => {
                                proof {
                                    assert(whole == Err::<
                                        (Seq<ChordView>, CapModel),
                                        ErrorKind,
                                    >(e));
                                }
                                return Err(e);
                            },
                        }
                    }
                },
                Token::Freq(f) => {
                    chord.push(f);
                },
                Token::End => {
                    proof {
                        assert(false);
                    }
                },
            }
            let ghost chord2v = chord@;
            let ghost rc2v = rc@;
            let ghost m2g = self.cap.model();
            proof {
                assert(spec_process(cv0, chord0, rc0, m1g, bpm0, fps0) == Ok::<
                    (ChordView, ChordView, CapModel),
                    ErrorKind,
                >((chord2v, rc2v, m2g)));
            }
            // decide from the pair
            if ck == 2 {
                if !(nk == 1 || nk == 3) {
                    proof {
                        assert(whole == Err::<(Seq<ChordView>, CapModel), ErrorKind>(
                            ErrorKind::InvalidTokenSequence,
                        ));
                    }
                    return Err(ErrorKind::InvalidTokenSequence);
                }
            } else if ck == 0 {
                if nk == 3 {
                    proof {
                        assert(whole == Err::<(Seq<ChordView>, CapModel), ErrorKind>(
                            ErrorKind::InvalidTokenSequence,
                        ));
                    }
                    return Err(ErrorKind::InvalidTokenSequence);
                }
            } else if (ck == 3 && nk == 3) || (ck == 1 && (nk == 3 || nk == 1)) {
                // keep accumulating
            } else if ck == 3 || ck == 1 {
                // close the chord
                let closed: Chord;
                if chord.is_empty() {
                    closed = rc;
                } else if rc.is_empty() {
                    closed = chord;
                } else {
                    let mut m = chord;
                    match m.extend(&rc) {
                        Ok(()) => {},
                        Err(e) => {
                            proof {
                                assert(spec_close(chord2v, rc2v, m2g) == Err::<
                                    (ChordView, CapModel),
                                    ErrorKind,
                                >(e));
                                assert(whole == Err::<(Seq<ChordView>, CapModel), ErrorKind>(
                                    e,
                                ));
                            }
                            return Err(e);
                        },
                    }
                    closed = m;
                }
                let ghost cap_d = self.cap;
                self.cap.capture(&closed);
                proof {
                    lemma_capture_model(cap_d, self.cap, closed@);
                    assert(spec_close(chord2v, rc2v, m2g) == Ok::<
                        (ChordView, CapModel),
                        ErrorKind,
                    >((closed@, self.cap.model())));
                }
                line.push(closed);
                chord = Chord::new();
                rc = Chord::new();
            }
            if nk == 4 {
                proof {
                    assert(whole == Ok::<(Seq<ChordView>, CapModel), ErrorKind>(
                        (line@, self.cap.model()),
                    ));
                }
                break ;
            }
            proof {
                assert(spec_chords_run(
                    tv,
                    i + 1,
                    tok_v(nty),
                    chord@,
                    rc@,
                    line@,
                    self.cap.model(),
                    bpm0,
                    fps0,
                ) == whole);
            }
            cty = nty;
            i += 1;
        }
        let out: Option<Line> = if line.len() == 0 {
            None
        } else {
            Some(line)
        };
        let ghost cap_e = self.cap;
        self.cap.update();
        proof {
            lemma_update_model(cap_e, self.cap);
        }
        Ok(out)
    }
}

/// Volta `i` is named by the digits of a volta-start token.
pub open spec fn digit_named(s: Seq<u8>, i: int) -> bool {
    crate::repeats::volta_digits(s).contains(i)
}

/// The effect of one repeat-control token `s`: the session it leaves
/// behind and the line views it emits (or the error that stops the
/// run), exactly as [`InputParser::apply_rep`] performs it.
pub open spec fn rep_token_rel(
    pre: RepeatParser,
    post: RepeatParser,
    s: Seq<u8>,
    r: Result<Seq<Seq<ChordView>>, ErrorKind>,
) -> bool {
    if s == seq![124u8] {
        // volta end: close the session
        &&& (r == Ok::<Seq<Seq<ChordView>>, ErrorKind>(Seq::empty()))
        &&& (forall|i: int| post.volta_of(i) is None)
        &&& (forall|i: int| !post.stored(i))
        &&& post.spec_current() == 1
    } else if s == seq![124u8, 58u8] {
        // repeat start: open volta 0
        &&& (r == Ok::<Seq<Seq<ChordView>>, ErrorKind>(Seq::empty()))
        &&& (forall|i: int|
            #![trigger post.volta_of(i)]
            post.volta_of(i) == if pre.volta_of(i) is None && i == 0 {
                Some(Seq::<Seq<ChordView>>::empty())
            } else {
                pre.volta_of(i)
            })
        &&& (forall|i: int|
            #![trigger post.stored(i)]
            post.stored(i) == (i == 0 && i != pre.spec_current()))
        &&& post.spec_current() == pre.spec_current()
    } else if s == seq![58u8, 124u8] {
        // repeat end: trigger the replay
        match r {
            Ok(emitted) => {
                let body = pre.volta_of(0)->Some_0;
                let nxt = if pre.spec_current() < usize::MAX {
                    pre.spec_current() + 1
                } else {
                    pre.spec_current()
                };
                &&& pre.volta_of(0) is Some
                &&& body.len() > 0
                &&& (if pre.volta_of(nxt) is Some && pre.volta_of(nxt)->Some_0.len()
                    > 0 {
                    emitted == body + pre.volta_of(
                        nxt,
                    )->Some_0 + body
                } else {
                    emitted == body
                })
                &&& (pre.spec_len() == 1 ==> (forall|i: int|
                    post.volta_of(i) is None) && post.spec_current() == 1)
                &&& (pre.spec_len() != 1 ==> (forall|i: int|
                    #![trigger post.volta_of(i)]
                    post.volta_of(i) == pre.volta_of(i)))
            },
            Err(e) => {
                &&& (forall|i: int|
                    #![trigger post.volta_of(i)]
                    post.volta_of(i) == pre.volta_of(i))
                &&& (forall|i: int|
                    #![trigger post.stored(i)]
                    post.stored(i) == pre.stored(i))
                &&& post.spec_current() == pre.spec_current()
                &&& (e == ErrorKind::VoltaNotFound <==> pre.volta_of(0) is None)
                &&& (e == ErrorKind::VoltaEmpty <==> pre.volta_of(0) is Some
                    && pre.volta_of(0)->Some_0.len() == 0)
                &&& (e == ErrorKind::VoltaNotFound || e == ErrorKind::VoltaEmpty)
            },
        }
    } else if crate::repeats::is_volta_start(s) {
        // volta start: open the named endings
        &&& (r == Ok::<Seq<Seq<ChordView>>, ErrorKind>(Seq::empty()))
        &&& (forall|i: int|
            #![trigger post.volta_of(i)]
            post.volta_of(i) == if pre.volta_of(i) is None && digit_named(s, i) && 0
                <= i <= 9 {
                Some(Seq::<Seq<ChordView>>::empty())
            } else {
                pre.volta_of(i)
            })
        &&& (forall|i: int|
            #![trigger post.stored(i)]
            post.stored(i) == (digit_named(s, i) && i != pre.spec_current()))
        &&& post.spec_current() == pre.spec_current()
    } else {
        r == Err::<Seq<Seq<ChordView>>, ErrorKind>(ErrorKind::InvalidTokenSequence)
            && post == pre
    }
}

/// The effect of a whole run of repeat-control tokens, applied left to
/// right from `pre` to `post`: `emitted` is the concatenation of what
/// each token emitted, and each step is one [`rep_token_rel`].
pub open spec fn rep_line_rel(
    pre: RepeatParser,
    post: RepeatParser,
    toks: Seq<Seq<u8>>,
    emitted: Seq<Seq<ChordView>>,
) -> bool
    decreases toks.len(),
{
    if toks.len() == 0 {
        post == pre && emitted == Seq::<Seq<ChordView>>::empty()
    } else {
        exists|mid: RepeatParser, head: Seq<Seq<ChordView>>|
            {
                &&& head.len() <= emitted.len()
                &&& emitted.take(head.len() as int) == head
                &&& rep_line_rel(pre, mid, toks.drop_last(), head)
                &&& #[trigger] rep_token_rel(
                    mid,
                    post,
                    toks.last(),
                    Ok(emitted.skip(head.len() as int)),
                )
            }
    }
}

/// Extends a run of repeat-control effects by one more token.
proof fn lemma_rep_line_snoc(
    pre: RepeatParser,
    mid: RepeatParser,
    post: RepeatParser,
    toks: Seq<Seq<u8>>,
    head: Seq<Seq<ChordView>>,
    tail: Seq<Seq<ChordView>>,
)
    requires
        toks.len() > 0,
        rep_line_rel(pre, mid, toks.drop_last(), head),
        rep_token_rel(mid, post, toks.last(), Ok(tail)),
    ensures
        rep_line_rel(pre, post, toks, head + tail),
{
    let emitted = head + tail;
    assert(emitted.take(head.len() as int) =~= head);
    assert(emitted.skip(head.len() as int) =~= tail);
    assert(rep_token_rel(mid, post, toks.last(), Ok(emitted.skip(head.len() as int))));
}

impl InputParser {
    /// Applies one repeat-control token: `|:` opens the pre-volta body,
    /// a volta-start opens its endings and begins recording into the ones
    /// meant for a later pass, `:|` triggers the replay (closing the
    /// session when nothing but the body was opened), and a lone `|`
    /// closes the session.  The lines to emit are handed back in order.
    pub fn apply_rep(&mut self, token: &[u8]) -> (r: Result<Vec<Line>, ErrorKind>)
        requires
            old(self).wf(),
        ensures
            final(self).wf(),
            final(self).cap == old(self).cap,
            final(self).note == old(self).note,
            final(self).wave == old(self).wave,
            rep_token_rel(
                old(self).rep,
                final(self).rep,
                token@,
                match r {
                    Ok(out) => Ok(crate::repeats::lines_view(out@)),
                    Err(e) => Err(e),
                },
            ),
    {
        let rep_tok = match self.rep.parse(token) {
            Ok(t) => t,
            Err(e) => {
                return Err(e);
            },
        };
        match rep_tok {
            Rep::VoltaEnd => {
                self.rep.clear();
                let out: Vec<Line> = Vec::new();
                proof {
                    assert(crate::repeats::lines_view(out@) =~= Seq::<Seq<ChordView>>::empty());
                }
                Ok(out)
            },
            Rep::RepeatStart => {
                let ids: [usize; 1] = [0];
                proof {
                    assert(ids@ =~= seq![0usize]);
                    assert forall|i: int| crate::repeats::named_index(ids@, i) == (i == 0) by {
                        if crate::repeats::named_index(ids@, i) {
                            let w = choose|w: int|
                                0 <= w < ids@.len() && #[trigger] ids@[w] == i;
                        }
                        if i == 0 {
                            assert(ids@[0] == 0usize);
                        }
                    }
                }
                self.rep.start(&ids);
                let out: Vec<Line> = Vec::new();
                proof {
                    assert(crate::repeats::lines_view(out@) =~= Seq::<Seq<ChordView>>::empty());
                }
                Ok(out)
            },
            Rep::RepeatEnd => {
                let out = match self.rep.repeat() {
                    Ok(out) => out,
                    Err(e) => {
                        return Err(e);
                    },
                };
                if self.rep.len() == 1 {
                    self.rep.clear();
                }
                Ok(out)
            },
            Rep::VoltaStart(v) => {
                proof {
                    assert forall|i: int|
                        crate::repeats::named_index(v@, i) == digit_named(token@, i) by {
                        let dv = crate::repeats::volta_digits(token@);
                        assert(v@.map_values(|x: usize| x as int) == dv);
                        if crate::repeats::named_index(v@, i) {
                            let w = choose|w: int| 0 <= w < v@.len() && #[trigger] v@[w] == i;
                            assert(dv[w] == i);
                            assert(dv.contains(i));
                        }
                        if dv.contains(i) {
                            let w = choose|w: int| 0 <= w < dv.len() && dv[w] == i;
                            assert(v@[w] == i);
                            assert(crate::repeats::named_index(v@, i));
                        }
                    }
                }
                self.rep.start(v.as_slice());
                let out: Vec<Line> = Vec::new();
                proof {
                    assert(crate::repeats::lines_view(out@) =~= Seq::<Seq<ChordView>>::empty());
                }
                Ok(out)
            },
        }
    }
}


impl InputParser {
    /// Interprets one input line and hands back the lines to render, in
    /// order.  A line that is a single integer sets the tempo; a line
    /// whose first token is repeat control applies each of its tokens to
    /// the repeat session (a replay trigger may emit many lines); a chord
    /// line emits its completed line and, while a session is open, also
    /// records it; anything else is a comment.  Any error is fatal for
    /// the whole run.
    pub fn process_line(&mut self, line: &[u8]) -> (r: Result<Vec<Line>, ErrorKind>)
        requires
            old(self).wf(),
            old(self).quiescent(),
        ensures
            final(self).wf(),
            r is Ok ==> final(self).quiescent(),
            ({
                let toks = spec_tokenize(line@);
                if toks.len() == 0 {
                    (match r {
                        Ok(out) => out@.len() == 0,
                        _ => false,
                    }) && *final(self) == *old(self)
                } else if toks.len() == 1 && spec_bpm_token(toks[0]) is Some {
                    &&& (match r {
                        Ok(out) => out@.len() == 0,
                        _ => false,
                    })
                    &&& final(self).wave.bpm as int == spec_bpm_token(toks[0])->Some_0
                    &&& final(self).wave.max == old(self).wave.max
                    &&& final(self).wave.fps == old(self).wave.fps
                    &&& final(self).wave.samples() == old(self).wave.samples()
                    &&& final(self).cap == old(self).cap
                    &&& final(self).rep == old(self).rep
                    &&& final(self).note == old(self).note
                } else if spec_should_be_rep(toks[0]) {
                    &&& final(self).cap == old(self).cap
                    &&& final(self).note == old(self).note
                    &&& final(self).wave == old(self).wave
                    &&& (match r {
                        Ok(out) => rep_line_rel(
                            old(self).rep,
                            final(self).rep,
                            toks,
                            crate::repeats::lines_view(out@),
                        ),
                        Err(e) => exists|j: int, mid: RepeatParser, head: Seq<Seq<ChordView>>|
                            {
                                &&& 0 <= j < toks.len()
                                &&& #[trigger] rep_line_rel(old(self).rep, mid, toks.take(j), head)
                                &&& rep_token_rel(mid, final(self).rep, toks[j], Err(e))
                            },
                    })
                    &&& (toks.len() == 1 ==> rep_token_rel(
                        old(self).rep,
                        final(self).rep,
                        toks[0],
                        match r {
                            Ok(out) => Ok(crate::repeats::lines_view(out@)),
                            Err(e) => Err(e),
                        },
                    ))
                } else if spec_should_be_chords(toks[0]) {
                    &&& final(self).wave == old(self).wave
                    &&& match spec_chords_line(
                        toks,
                        old(self).wave.bpm as int,
                        old(self).wave.fps as int,
                        old(self).cap.model(),
                    ) {
                        Ok((lineseq, m2)) => {
                            &&& final(self).cap.model() == update_model(m2)
                            &&& (match r {
                                Ok(out) => crate::repeats::lines_view(out@) == if lineseq.len()
                                    == 0 {
                                    Seq::<Seq<ChordView>>::empty()
                                } else {
                                    seq![lineseq]
                                },
                                _ => false,
                            })
                            &&& (lineseq.len() == 0 ==> final(self).rep == old(self).rep)
                            &&& (lineseq.len() > 0 && old(self).rep.spec_len() == 0
                                ==> final(self).rep == old(self).rep)
                            &&& (lineseq.len() > 0 && old(self).rep.spec_len() > 0 ==> {
                                &&& (forall|i: int|
                                    #![trigger final(self).rep.volta_of(i)]
                                    final(self).rep.volta_of(i) == if old(self).rep.stored(i)
                                        && old(self).rep.volta_of(i) is Some {
                                        Some(old(self).rep.volta_of(i)->Some_0.push(lineseq))
                                    } else {
                                        old(self).rep.volta_of(i)
                                    })
                                &&& (forall|i: int|
                                    #![trigger final(self).rep.stored(i)]
                                    final(self).rep.stored(i) == old(self).rep.stored(i))
                                &&& final(self).rep.spec_current() == old(
                                    self,
                                ).rep.spec_current()
                                &&& final(self).rep.spec_len() == old(self).rep.spec_len()
                            })
                        },
                        Err(e) => r == Err::<Vec<Line>, ErrorKind>(e),
                    }
                } else {
                    (match r {
                        Ok(out) => out@.len() == 0,
                        _ => false,
                    }) && *final(self) == *old(self)
                }
            }),
    {
        let toks = tokenize(line);
        if toks.len() == 0 {
            return Ok(Vec::new());
        }
        if toks.len() == 1 {
            match parse_bpm(toks[0].as_slice()) {
                Some(v) => {
                    self.wave.bpm = v;
                    return Ok(Vec::new());
                },
                None => {},
            }
        }
        proof {
            assert(toks_view(toks@)[0] == toks@[0]@);
        }
        if should_be_rep(toks[0].as_slice()) {
            let mut out: Vec<Line> = Vec::new();
            let mut i: usize = 0;
            proof {
                assert(toks_view(toks@).take(0) =~= Seq::<Seq<u8>>::empty());
                assert(crate::repeats::lines_view(out@) =~= Seq::<Seq<ChordView>>::empty());
            }
            while i < toks.len()
                invariant
                    i <= toks@.len(),
                    self.wf(),
                    self.cap == old(self).cap,
                    self.note == old(self).note,
                    self.wave == old(self).wave,
                    old(self).quiescent(),
                    spec_tokenize(line@) == toks_view(toks@),
                    spec_tokenize(line@).len() > 0,
                    !(spec_tokenize(line@).len() == 1 && spec_bpm_token(
                        spec_tokenize(line@)[0],
                    ) is Some),
                    spec_should_be_rep(spec_tokenize(line@)[0]),
                    toks@.len() == 1 && i == 0 ==> self.rep == old(self).rep && out@.len()
                        == 0,
                    toks@.len() == 1 && i == 1 ==> rep_token_rel(
                        old(self).rep,
                        self.rep,
                        toks_view(toks@)[0],
                        Ok(crate::repeats::lines_view(out@)),
                    ),
                    rep_line_rel(
                        old(self).rep,
                        self.rep,
                        toks_view(toks@).take(i as int),
                        crate::repeats::lines_view(out@),
                    ),
                decreases toks@.len() - i,
            {
                let ghost rep0 = self.rep;
                let ghost out0 = out@;
                let mut part = match self.apply_rep(toks[i].as_slice()) {
                    Ok(p) => p,
                    Err(e) => {
                        proof {
                            let tvr = toks_view(toks@);
                            assert(tvr[i as int] == toks@[i as int]@);
                            if toks@.len() == 1 {
                                assert(i == 0);
                            }
                            assert(rep_token_rel(rep0, self.rep, tvr[i as int], Err::<
                                Seq<Seq<ChordView>>,
                                ErrorKind,
                            >(e)));
                            assert(rep_line_rel(
                                old(self).rep,
                                rep0,
                                tvr.take(i as int),
                                crate::repeats::lines_view(out0),
                            ));
                        }
                        return Err(e);
                    },
                };
                let ghost part0 = part@;
                out.append(&mut part);
                proof {
                    let tvr = toks_view(toks@);
                    assert(tvr[i as int] == toks@[i as int]@);
                    if toks@.len() == 1 {
                        assert(i == 0);
                        assert(out@ =~= part0);
                        assert(crate::repeats::lines_view(out@) =~= crate::repeats::lines_view(
                            part0,
                        ));
                    }
                    assert(tvr.take(i + 1).drop_last() =~= tvr.take(i as int));
                    assert(tvr.take(i + 1).last() == tvr[i as int]);
                    assert(crate::repeats::lines_view(out@) =~= crate::repeats::lines_view(out0)
                        + crate::repeats::lines_view(part0));
                    assert(rep_token_rel(
                        rep0,
                        self.rep,
                        tvr.take(i + 1).last(),
                        Ok(crate::repeats::lines_view(part0)),
                    ));
                    assert(rep_line_rel(
                        old(self).rep,
                        rep0,
                        tvr.take(i as int),
                        crate::repeats::lines_view(out0),
                    ));
                    assert(rep_line_rel(
                        old(self).rep,
                        rep0,
                        tvr.take(i + 1).drop_last(),
                        crate::repeats::lines_view(out0),
                    ));
                    assert(crate::repeats::lines_view(out@) == crate::repeats::lines_view(out0)
                        + crate::repeats::lines_view(part0));
                    lemma_rep_line_snoc(
                        old(self).rep,
                        rep0,
                        self.rep,
                        tvr.take(i + 1),
                        crate::repeats::lines_view(out0),
                        crate::repeats::lines_view(part0),
                    );
                    assert(rep_line_rel(
                        old(self).rep,
                        self.rep,
                        tvr.take(i + 1),
                        crate::repeats::lines_view(out@),
                    ));
                }
                i += 1;
            }
            proof {
                assert(toks_view(toks@).take(toks@.len() as int) =~= toks_view(toks@));
            }
            return Ok(out);
        }
        if should_be_chords(toks[0].as_slice()) {
            match self.parse_chords(&toks) {
                Err(e) => Err(e),
                Ok(None) => Ok(Vec::new()),
                Ok(Some(l)) => {
                    if self.rep.on_rec() {
                        self.rep.push(&l);
                    }
                    let mut out: Vec<Line> = Vec::new();
                    out.push(l);
                    proof {
                        assert(crate::repeats::lines_view(out@) =~= seq![out@[0]@]);
                    }
                    Ok(out)
                },
            }
        } else {
            Ok(Vec::new())
        }
    }
}

} // verus!
