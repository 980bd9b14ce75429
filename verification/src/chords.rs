//! Chords and lines.
//!
//! A [`Chord`] is a set of simultaneously sounding frequencies that share one
//! duration: `length` is the number of frames driving the periodic waveform
//! and `size` is the number of frames the chord occupies in the timeline
//! (`size == 2 * length` under staccato, `size == length` otherwise).
//! A [`Line`] is the ordered collection of chords built from one input line;
//! all of its chords start sounding together.

use vstd::prelude::*;

use crate::errors::ErrorKind;

verus! {

/// The mathematical content of a [`Chord`]: two frame counts and the
/// sequence of frequencies in millihertz (a rest is frequency `0`).
#[verifier::ext_equal]
pub ghost struct ChordView {
    pub length: int,
    pub size: int,
    pub freqs: Seq<u64>,
}

impl ChordView {
    /// A chord with no frequencies and zero frames.
    pub open spec fn empty() -> ChordView {
        ChordView { length: 0, size: 0, freqs: Seq::empty() }
    }

    /// Both frame counts agree with `other`'s.
    pub open spec fn same_shape(self, other: ChordView) -> bool {
        self.length == other.length && self.size == other.size
    }
}

/// Merging `b` into `a`: allowed exactly when the two chords share
/// length and size, and then the frequencies concatenate in order.
pub open spec fn spec_merge(a: ChordView, b: ChordView) -> Result<ChordView, ErrorKind> {
    if a.same_shape(b) {
        Ok(ChordView { length: a.length, size: a.size, freqs: a.freqs + b.freqs })
    } else {
        Err(ErrorKind::MalformedChord)
    }
}

/// Doubling a frequency for an octave shift up saturates at the top of the
/// representable range; halving truncates to whole millihertz.  A rest
/// (frequency `0`) is unchanged either way.
pub open spec fn spec_scale_freq(f: u64, up: bool) -> u64 {
    if up {
        if f <= u64::MAX / 2 {
            (2 * f) as u64
        } else {
            u64::MAX
        }
    } else {
        (f / 2) as u64
    }
}

/// A set of simultaneous frequencies sharing one duration.
pub struct Chord {
    /// Frames driving the periodic waveform of every note in the chord.
    pub length: usize,
    /// Frames the chord occupies in the timeline (`>= length`).
    pub size: usize,
    /// One entry per note, in millihertz; a rest is `0`.
    pub frequencies: Vec<u64>,
}

impl View for Chord {
    type V = ChordView;

    open spec fn view(&self) -> ChordView {
        ChordView {
            length: self.length as int,
            size: self.size as int,
            freqs: self.frequencies@,
        }
    }
}

impl Clone for Chord {
    fn clone(&self) -> (res: Self)
        ensures
            res@ == self@,
    {
        let res = Chord {
            length: self.length,
            size: self.size,
            frequencies: self.frequencies.clone(),
        };
        proof {
            assert(res.frequencies@ =~= self.frequencies@);
            assert(res@ =~= self@);
        }
        res
    }
}

impl Chord {
    /// A fresh chord: no frequencies, zero frames.
    pub fn new() -> (r: Chord)
        ensures
            r@ == ChordView::empty(),
    {
        let r = Chord { length: 0, size: 0, frequencies: Vec::new() };
        proof {
            assert(r@ =~= ChordView::empty());
        }
        r
    }

    /// The chord holds no frequencies.
    pub fn is_empty(&self) -> (r: bool)
        ensures
            r == (self@.freqs.len() == 0),
    {
        self.frequencies.len() == 0
    }

    /// Appends one frequency (in millihertz).
    pub fn push(&mut self, frequency: u64)
        ensures
            final(self)@.length == old(self)@.length,
            final(self)@.size == old(self)@.size,
            final(self)@.freqs == old(self)@.freqs.push(frequency),
    {
        self.frequencies.push(frequency);
    }

    /// A replay may stand in for this chord: it holds no frequencies yet
    /// and either its frames match `chord`'s or no length was set at all.
    pub fn can_be_replaced_by(&self, chord: &Chord) -> (r: bool)
        ensures
            r == (self@.freqs.len() == 0 && (self@.same_shape(chord@) || (self@.length == 0
                && self@.size == 0))),
    {
        self.frequencies.len() == 0 && ((self.size == chord.size && self.length == chord.length)
            || (self.size == 0 && self.length == 0))
    }

    /// Merges the frequencies of `rhs` into `self`.  The two chords must
    /// share length and size; otherwise nothing changes and the merge is
    /// reported as malformed.
    pub fn extend(&mut self, rhs: &Chord) -> (r: Result<(), ErrorKind>)
        ensures
            match r {
                Ok(()) => spec_merge(old(self)@, rhs@) == Ok::<ChordView, ErrorKind>(final(self)@),
                Err(e) => {
                    &&& spec_merge(old(self)@, rhs@) == Err::<ChordView, ErrorKind>(e)
                    &&& final(self)@ == old(self)@
                },
            },
    {
        if self.length == rhs.length && self.size == rhs.size {
            let mut i: usize = 0;
            while i < rhs.frequencies.len()
                invariant
                    i <= rhs.frequencies.len(),
                    self.length == rhs.length,
                    self.size == rhs.size,
                    self.frequencies@ == old(self).frequencies@ + rhs.frequencies@.subrange(
                        0,
                        i as int,
                    ),
                decreases rhs.frequencies.len() - i,
            {
                self.frequencies.push(rhs.frequencies[i]);
                i += 1;
            }
            proof {
                assert(self.frequencies@ =~= old(self).frequencies@ + rhs.frequencies@);
                assert(spec_merge(old(self)@, rhs@) == Ok::<ChordView, ErrorKind>(self@));
            }
            Ok(())
        } else {
            Err(ErrorKind::MalformedChord)
        }
    }

    /// A copy of the chord with every frequency shifted one octave up
    /// (`up == true`, doubled) or down (`up == false`, halved).
    pub fn scale(&self, up: bool) -> (r: Chord)
        ensures
            r@.length == self@.length,
            r@.size == self@.size,
            r@.freqs == self@.freqs.map_values(|f: u64| spec_scale_freq(f, up)),
    {
        let mut freqs: Vec<u64> = Vec::new();
        let mut i: usize = 0;
        while i < self.frequencies.len()
            invariant
                i <= self.frequencies.len(),
                freqs@ == self.frequencies@.subrange(0, i as int).map_values(
                    |f: u64| spec_scale_freq(f, up),
                ),
            decreases self.frequencies.len() - i,
        {
            let f = self.frequencies[i];
            let scaled: u64 = if up {
                if f <= u64::MAX / 2 {
                    2 * f
                } else {
                    u64::MAX
                }
            } else {
                f / 2
            };
            freqs.push(scaled);
            proof {
                assert(self.frequencies@.subrange(0, i + 1).drop_last() =~= self.frequencies@
                    .subrange(0, i as int));
                assert(freqs@ =~= self.frequencies@.subrange(0, i + 1).map_values(
                    |f: u64| spec_scale_freq(f, up),
                ));
            }
            i += 1;
        }
        proof {
            assert(self.frequencies@.subrange(0, self.frequencies@.len() as int) =~= self
                .frequencies@);
        }
        Chord { length: self.length, size: self.size, frequencies: freqs }
    }
}

/// The smallest `size` among the chords of a line: the number of frames
/// that no later chord of the line can still affect.
pub open spec fn spec_offset(s: Seq<ChordView>) -> int
    decreases s.len(),
{
    if s.len() <= 1 {
        if s.len() == 0 {
            0
        } else {
            s[0].size
        }
    } else {
        let rest = spec_offset(s.drop_first());
        if s[0].size <= rest {
            s[0].size
        } else {
            rest
        }
    }
}

/// The largest `size` among the chords of a line: the buffer width the
/// line requires.
pub open spec fn spec_size(s: Seq<ChordView>) -> int
    decreases s.len(),
{
    if s.len() <= 1 {
        if s.len() == 0 {
            0
        } else {
            s[0].size
        }
    } else {
        let rest = spec_size(s.drop_first());
        if s[0].size >= rest {
            s[0].size
        } else {
            rest
        }
    }
}

/// An ordered collection of chords built from one input line; all of them
/// start sounding at the same frame.
pub struct Line {
    chords: Vec<Chord>,
}

impl View for Line {
    type V = Seq<ChordView>;

    closed spec fn view(&self) -> Seq<ChordView> {
        self.chords@.map_values(|c: Chord| c@)
    }
}

impl Clone for Line {
    fn clone(&self) -> (res: Self)
        ensures
            res@ == self@,
    {
        let mut chords: Vec<Chord> = Vec::new();
        let mut i: usize = 0;
        while i < self.chords.len()
            invariant
                i <= self.chords.len(),
                chords@.len() == i,
                forall|j: int| 0 <= j < i ==> #[trigger] chords@[j]@ == self.chords@[j]@,
            decreases self.chords.len() - i,
        {
            chords.push(self.chords[i].clone());
            i += 1;
        }
        proof {
            assert(chords@.map_values(|c: Chord| c@) =~= self@);
        }
        Line { chords }
    }
}

impl Line {
    /// An empty line.
    pub fn new() -> (r: Line)
        ensures
            r@ == Seq::<ChordView>::empty(),
    {
        let r = Line { chords: Vec::new() };
        proof {
            assert(r@ =~= Seq::<ChordView>::empty());
        }
        r
    }

    /// How many chords the line holds.
    pub fn len(&self) -> (r: usize)
        ensures
            r == self@.len(),
    {
        self.chords.len()
    }

    /// Appends a completed chord.
    pub fn push(&mut self, chord: Chord)
        ensures
            final(self)@ == old(self)@.push(chord@),
    {
        self.chords.push(chord);
        proof {
            assert(final(self)@ =~= old(self)@.push(chord@));
        }
    }

    /// Read access to the chords, in notation order.
    pub fn chords(&self) -> (r: &Vec<Chord>)
        ensures
            r@.map_values(|c: Chord| c@) == self@,
    {
        &self.chords
    }

    /// The number of frames that may be flushed once the line is folded:
    /// the minimum `size` over its chords.
    pub fn offset(&self) -> (r: usize)
        requires
            self@.len() > 0,
        ensures
            r == spec_offset(self@),
    {
        let mut best: usize = self.chords[0].size;
        let mut i: usize = 1;
        while i < self.chords.len()
            invariant
                1 <= i <= self.chords.len(),
                self@.len() == self.chords.len(),
                best == spec_offset(self@.subrange(0, i as int)),
            decreases self.chords.len() - i,
        {
            if self.chords[i].size < best {
                best = self.chords[i].size;
            }
            proof {
                lemma_offset_push(self@.subrange(0, i as int), self@[i as int]);
                assert(self@.subrange(0, i as int).push(self@[i as int]) =~= self@.subrange(
                    0,
                    i + 1,
                ));
            }
            i += 1;
        }
        proof {
            assert(self@.subrange(0, self@.len() as int) =~= self@);
        }
        best
    }

    /// The buffer width the line requires: the maximum `size` over its
    /// chords.
    pub fn size(&self) -> (r: usize)
        requires
            self@.len() > 0,
        ensures
            r == spec_size(self@),
    {
        let mut best: usize = self.chords[0].size;
        let mut i: usize = 1;
        while i < self.chords.len()
            invariant
                1 <= i <= self.chords.len(),
                self@.len() == self.chords.len(),
                best == spec_size(self@.subrange(0, i as int)),
            decreases self.chords.len() - i,
        {
            if self.chords[i].size > best {
                best = self.chords[i].size;
            }
            proof {
                lemma_size_push(self@.subrange(0, i as int), self@[i as int]);
                assert(self@.subrange(0, i as int).push(self@[i as int]) =~= self@.subrange(
                    0,
                    i + 1,
                ));
            }
            i += 1;
        }
        proof {
            assert(self@.subrange(0, self@.len() as int) =~= self@);
        }
        best
    }
}

/// Extending a non-empty line by one chord takes the minimum of the old
/// offset and the new chord's size.
pub proof fn lemma_offset_push(s: Seq<ChordView>, c: ChordView)
    requires
        s.len() > 0,
    ensures
        spec_offset(s.push(c)) == if c.size <= spec_offset(s) {
            c.size
        } else {
            spec_offset(s)
        },
    decreases s.len(),
{
    if s.len() == 1 {
        assert(s.push(c).drop_first() =~= seq![c]);
        assert(spec_offset(seq![c]) == c.size);
        assert(spec_offset(s) == s[0].size);
        assert(s.push(c)[0] == s[0]);
    } else {
        lemma_offset_push(s.drop_first(), c);
        assert(s.push(c).drop_first() =~= s.drop_first().push(c));
        assert(s.push(c)[0] == s[0]);
    }
}

/// Extending a non-empty line by one chord takes the maximum of the old
/// size and the new chord's size.
pub proof fn lemma_size_push(s: Seq<ChordView>, c: ChordView)
    requires
        s.len() > 0,
    ensures
        spec_size(s.push(c)) == if c.size >= spec_size(s) {
            c.size
        } else {
            spec_size(s)
        },
    decreases s.len(),
{
    if s.len() == 1 {
        assert(s.push(c).drop_first() =~= seq![c]);
        assert(spec_size(seq![c]) == c.size);
        assert(spec_size(s) == s[0].size);
        assert(s.push(c)[0] == s[0]);
    } else {
        lemma_size_push(s.drop_first(), c);
        assert(s.push(c).drop_first() =~= s.drop_first().push(c));
        assert(s.push(c)[0] == s[0]);
    }
}

/// Merging two chords is insensitive to order, up to the multiset of the
/// resulting frequencies: when the shapes match, both orders succeed and
/// produce the same frequency multiset (and the same frames); when the
/// shapes differ, both orders fail as malformed.
pub proof fn lemma_merge_order_insensitive(a: ChordView, b: ChordView)
    ensures
        a.same_shape(b) ==> {
            &&& spec_merge(a, b) is Ok
            &&& spec_merge(b, a) is Ok
            &&& spec_merge(a, b)->Ok_0.freqs.to_multiset() == spec_merge(
                b,
                a,
            )->Ok_0.freqs.to_multiset()
            &&& spec_merge(a, b)->Ok_0.same_shape(spec_merge(b, a)->Ok_0)
        },
        !a.same_shape(b) ==> spec_merge(a, b) == Err::<ChordView, ErrorKind>(
            ErrorKind::MalformedChord,
        ) && spec_merge(b, a) == Err::<ChordView, ErrorKind>(ErrorKind::MalformedChord),
{
    if a.same_shape(b) {
        vstd::seq_lib::lemma_seq_union_to_multiset_commutative(a.freqs, b.freqs);
    }
}

} // verus!
