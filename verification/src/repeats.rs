//! Repeat structures: first and second endings ("voltas").
//!
//! A repeat-start marker `|:` opens volta 0, the shared pre-volta body.
//! A volta-start marker such as `|1.3.` opens the named endings.  While a
//! session is open, every completed line is played immediately and also
//! recorded into the endings that were opened for a later pass.  The full
//! repeat-end marker `:|` triggers a replay: the pre-volta body is emitted
//! again, and if the next ending was already recorded in an earlier pass,
//! that ending and the body once more.  The lone marker `|` closes the
//! session.  `current` counts the pass being played, starting at 1.

use vstd::prelude::*;

use crate::chords::{ChordView, Line};
use crate::errors::ErrorKind;

verus! {

/// A classified repeat-control token.
pub enum Rep {
    /// `|:`
    RepeatStart,
    /// e.g. `|1.3.`, carrying the ending numbers
    VoltaStart(Vec<usize>),
    /// `:|`
    RepeatEnd,
    /// `|`
    VoltaEnd,
}

/// A byte that may appear in a repeat-control token.
pub open spec fn is_rep_byte(b: u8) -> bool {
    (48 <= b <= 57) || b == 124 || b == 58 || b == 46
}

/// A line is parsed as repeat control when its first token holds a `|`
/// and nothing but digits, `|`, `:` and `.`.
pub open spec fn spec_should_be_rep(s: Seq<u8>) -> bool {
    (exists|i: int| 0 <= i < s.len() && s[i] == 124) && forall|i: int|
        0 <= i < s.len() ==> is_rep_byte(#[trigger] s[i])
}

/// Executable form of [`spec_should_be_rep`].
pub fn should_be_rep(token: &[u8]) -> (r: bool)
    ensures
        r == spec_should_be_rep(token@),
{
    let mut seen_bar = false;
    let mut i: usize = 0;
    while i < token.len()
        invariant
            i <= token.len(),
            forall|j: int| 0 <= j < i ==> is_rep_byte(#[trigger] token@[j]),
            seen_bar == exists|j: int| 0 <= j < i && token@[j] == 124,
        decreases token.len() - i,
    {
        let b = token[i];
        if !((48 <= b && b <= 57) || b == 124 || b == 58 || b == 46) {
            return false;
        }
        if b == 124 {
            seen_bar = true;
        }
        proof {
            if token@[i as int] == 124 {
                assert(exists|j: int| 0 <= j < i + 1 && token@[j] == 124);
            }
        }
        i += 1;
    }
    seen_bar
}

/// The ending numbers named in a volta-start token, one digit each, in
/// order.
pub open spec fn volta_digits(s: Seq<u8>) -> Seq<int>
    decreases s.len(),
{
    if s.len() == 0 {
        Seq::empty()
    } else if 48 <= s.last() <= 57 {
        volta_digits(s.drop_last()).push(s.last() - 48)
    } else {
        volta_digits(s.drop_last())
    }
}

/// `s` is a volta-start marker: `|` followed by digits and dots, with at
/// least one digit.
pub open spec fn is_volta_start(s: Seq<u8>) -> bool {
    &&& s.len() >= 2
    &&& s[0] == 124
    &&& forall|i: int| 1 <= i < s.len() ==> (48 <= #[trigger] s[i] <= 57 || s[i] == 46)
    &&& exists|i: int| 1 <= i < s.len() && 48 <= #[trigger] s[i] <= 57
}

/// Parses the ending numbers of a volta-start marker.
pub fn parse_volta_start(token: &[u8]) -> (r: Option<Vec<usize>>)
    ensures
        match r {
            Some(v) => {
                &&& is_volta_start(token@)
                &&& v@.map_values(|x: usize| x as int) == volta_digits(token@)
                &&& v@.len() > 0
                &&& forall|i: int| 0 <= i < v@.len() ==> #[trigger] v@[i] <= 9
            },
            None => !is_volta_start(token@),
        },
{
    if token.len() < 2 || token[0] != 124 {
        return None;
    }
    let mut v: Vec<usize> = Vec::new();
    let mut i: usize = 1;
    proof {
        assert(token@.subrange(0, 1).drop_last() =~= Seq::<u8>::empty());
        assert(volta_digits(Seq::<u8>::empty()) =~= Seq::<int>::empty());
        assert(volta_digits(token@.subrange(0, 1)) =~= Seq::<int>::empty());
        assert(v@.map_values(|x: usize| x as int) =~= Seq::<int>::empty());
    }
    while i < token.len()
        invariant
            1 <= i <= token.len(),
            token@.len() >= 2,
            token@[0] == 124,
            forall|j: int| 1 <= j < i ==> (48 <= #[trigger] token@[j] <= 57 || token@[j] == 46),
            v@.map_values(|x: usize| x as int) == volta_digits(token@.subrange(0, i as int)),
            v@.len() > 0 <==> exists|j: int| 1 <= j < i && 48 <= #[trigger] token@[j] <= 57,
            forall|j: int| 0 <= j < v@.len() ==> #[trigger] v@[j] <= 9,
        decreases token.len() - i,
    {
        let b = token[i];
        proof {
            assert(token@.subrange(0, i + 1).drop_last() =~= token@.subrange(0, i as int));
            assert(token@.subrange(0, i + 1).last() == token@[i as int]);
        }
        if 48 <= b && b <= 57 {
            v.push((b - 48) as usize);
            proof {
                assert(v@.map_values(|x: usize| x as int) =~= volta_digits(
                    token@.subrange(0, i + 1),
                ));
                assert(exists|j: int| 1 <= j < i + 1 && 48 <= #[trigger] token@[j] <= 57);
            }
        } else if b == 46 {
        } else {
            return None;
        }
        i += 1;
    }
    proof {
        assert(token@.subrange(0, token@.len() as int) =~= token@);
    }
    if v.len() == 0 {
        return None;
    }
    Some(v)
}

/// `i` occurs among the volta indices of `list`.
pub open spec fn named_index(list: Seq<usize>, i: int) -> bool {
    exists|w: int| 0 <= w < list.len() && #[trigger] list[w] == i
}

/// The view of a recorded line list.
pub open spec fn lines_view(v: Seq<Line>) -> Seq<Seq<ChordView>> {
    v.map_values(|l: Line| l@)
}

/// Buffers lines per volta index and replays them on the repeat-end
/// trigger.
pub struct RepeatParser {
    /// Entry `i` is the line list of volta `i`; `None` if never opened.
    /// Volta 0 is the shared pre-volta body.
    voltas: Vec<Option<Vec<Line>>>,
    /// The pass being played, starting at 1.
    current: usize,
    /// The endings that record the lines of the current pass.
    to_store: Vec<usize>,
}

impl RepeatParser {
    /// The line list of volta `i`, if it was opened.
    pub closed spec fn volta_of(self, i: int) -> Option<Seq<Seq<ChordView>>> {
        if 0 <= i < self.voltas@.len() {
            match self.voltas@[i] {
                Some(ls) => Some(lines_view(ls@)),
                None => None,
            }
        } else {
            None
        }
    }

    /// The pass being played.
    pub closed spec fn spec_current(self) -> int {
        self.current as int
    }

    /// Lines of the current pass are recorded into volta `i`.
    pub closed spec fn stored(self, i: int) -> bool {
        exists|j: int| 0 <= j < self.to_store@.len() && #[trigger] self.to_store@[j] == i
    }

    /// The number of volta slots (the highest opened index plus one).
    pub closed spec fn spec_len(self) -> int {
        self.voltas@.len() as int
    }

    /// Every recording target is an opened volta.
    pub closed spec fn wf(self) -> bool {
        forall|j: int|
            0 <= j < self.to_store@.len() ==> {
                let i = #[trigger] self.to_store@[j];
                i < self.voltas@.len() && self.voltas@[i as int] is Some
            }
    }

    /// A session with no voltas, not recording, before the first pass.
    pub fn new() -> (r: RepeatParser)
        ensures
            r.wf(),
            forall|i: int| r.volta_of(i) is None,
            forall|i: int| !r.stored(i),
            r.spec_current() == 1,
            r.spec_len() == 0,
    {
        RepeatParser { voltas: Vec::new(), current: 1, to_store: Vec::new() }
    }

    /// A session is open as soon as any volta is.
    pub fn on_rec(&self) -> (r: bool)
        ensures
            r == (self.spec_len() > 0),
    {
        self.voltas.len() > 0
    }

    /// The number of volta slots.
    pub fn len(&self) -> (r: usize)
        ensures
            r == self.spec_len(),
    {
        self.voltas.len()
    }

    /// Classifies a repeat-control token.
    pub fn parse(&self, token: &[u8]) -> (r: Result<Rep, ErrorKind>)
        ensures
            match r {
                Ok(Rep::VoltaEnd) => token@ =~= seq![124u8],
                Ok(Rep::RepeatEnd) => token@ =~= seq![58u8, 124u8],
                Ok(Rep::RepeatStart) => token@ =~= seq![124u8, 58u8],
                Ok(Rep::VoltaStart(v)) => {
                    &&& is_volta_start(token@)
                    &&& v@.map_values(|x: usize| x as int) == volta_digits(token@)
                    &&& v@.len() > 0
                    &&& forall|i: int| 0 <= i < v@.len() ==> #[trigger] v@[i] <= 9
                },
                Err(e) => {
                    &&& e == ErrorKind::InvalidTokenSequence
                    &&& token@ != seq![124u8]
                    &&& token@ != seq![58u8, 124u8]
                    &&& token@ != seq![124u8, 58u8]
                    &&& !is_volta_start(token@)
                },
            },
    {
        if token.len() == 1 && token[0] == 124 {
            proof {
                assert(token@ =~= seq![124u8]);
            }
            return Ok(Rep::VoltaEnd);
        }
        if token.len() == 2 && token[0] == 58 && token[1] == 124 {
            proof {
                assert(token@ =~= seq![58u8, 124u8]);
            }
            return Ok(Rep::RepeatEnd);
        }
        if token.len() == 2 && token[0] == 124 && token[1] == 58 {
            proof {
                assert(token@ =~= seq![124u8, 58u8]);
            }
            return Ok(Rep::RepeatStart);
        }
        proof {
            assert(token@ != seq![124u8]);
            assert(token@ != seq![58u8, 124u8]);
            assert(token@ != seq![124u8, 58u8]);
        }
        match parse_volta_start(token) {
            Some(v) => Ok(Rep::VoltaStart(v)),
            None => Err(ErrorKind::InvalidTokenSequence),
        }
    }

    /// Opens every named volta that is not open yet (with an empty line
    /// list), and records the current pass into every named volta other
    /// than the one being played.
    pub fn start(&mut self, indices: &[usize])
        requires
            old(self).wf(),
            indices@.len() > 0,
            forall|i: int| 0 <= i < indices@.len() ==> #[trigger] indices@[i] <= 9,
        ensures
            final(self).wf(),
            final(self).spec_current() == old(self).spec_current(),
            forall|i: int|
                #![trigger final(self).volta_of(i)]
                final(self).volta_of(i) == if old(self).volta_of(i) is None && named_index(
                    indices@,
                    i,
                ) && 0 <= i <= 9 {
                    Some(Seq::<Seq<ChordView>>::empty())
                } else {
                    old(self).volta_of(i)
                },
            forall|i: int|
                #![trigger final(self).stored(i)]
                final(self).stored(i) == (named_index(indices@, i) && i != old(
                    self,
                ).spec_current()),
            final(self).spec_len() >= old(self).spec_len(),
    {
        let mut j: usize = 0;
        while j < indices.len()
            invariant
                old(self).wf(),
                self.wf(),
                indices@.len() > 0,
                forall|i: int| 0 <= i < indices@.len() ==> #[trigger] indices@[i] <= 9,
                j <= indices.len(),
                self.current == old(self).current,
                self.to_store@ == old(self).to_store@,
                self.voltas@.len() >= old(self).voltas@.len(),
                forall|i: int|
                    #![trigger self.volta_of(i)]
                    self.volta_of(i) == if old(self).volta_of(i) is None && (exists|jj: int|
                        0 <= jj < j && indices@[jj] == i) && 0 <= i <= 9 {
                        Some(Seq::<Seq<ChordView>>::empty())
                    } else {
                        old(self).volta_of(i)
                    },
            decreases indices.len() - j,
        {
            let idx = indices[j];
            while self.voltas.len() <= idx
                invariant
                    old(self).wf(),
                    self.wf(),
                    idx <= 9,
                    self.current == old(self).current,
                    self.to_store@ == old(self).to_store@,
                    self.voltas@.len() >= old(self).voltas@.len(),
                    forall|i: int|
                        #![trigger self.volta_of(i)]
                        self.volta_of(i) == if old(self).volta_of(i) is None && (exists|jj: int|
                            0 <= jj < j && indices@[jj] == i) && 0 <= i <= 9 {
                            Some(Seq::<Seq<ChordView>>::empty())
                        } else {
                            old(self).volta_of(i)
                        },
                decreases idx + 1 - self.voltas.len(),
            {
                let ghost pre2 = *self;
                self.voltas.push(None);
                proof {
                    assert forall|i: int|
                        #![trigger self.volta_of(i)]
                        true implies self.volta_of(i) == pre2.volta_of(i) by {
                        let b0 = pre2.volta_of(i);
                    }
                }
            }
            let ghost mid = *self;
            if self.voltas[idx].is_none() {
                let empty_lines: Vec<Line> = Vec::new();
                self.voltas.set(idx, Some(empty_lines));
                proof {
                    assert(lines_view(empty_lines@) =~= Seq::<Seq<ChordView>>::empty());
                    assert(self.volta_of(idx as int) == Some(Seq::<Seq<ChordView>>::empty()));
                    assert(forall|i: int|
                        i != idx as int ==> #[trigger] self.volta_of(i) == mid.volta_of(i));
                }
            }
            proof {
                assert(self.volta_of(idx as int) is Some);
                assert forall|i: int|
                    #![trigger self.volta_of(i)]
                    true implies self.volta_of(i) == if old(self).volta_of(i) is None && (
                exists|jj: int| 0 <= jj < j + 1 && indices@[jj] == i) && 0 <= i <= 9 {
                    Some(Seq::<Seq<ChordView>>::empty())
                } else {
                    old(self).volta_of(i)
                } by {
                    let b0 = mid.volta_of(i);
                    if (exists|jj: int| 0 <= jj < j + 1 && indices@[jj] == i) && !(exists|jj: int|
                        0 <= jj < j && indices@[jj] == i) {
                        let jj = choose|jj: int| 0 <= jj < j + 1 && indices@[jj] == i;
                        assert(jj == j);
                        assert(i == idx as int);
                    }
                }
            }
            j += 1;
        }
        proof {
            assert forall|i: int|
                #![trigger self.volta_of(i)]
                true implies self.volta_of(i) == if old(self).volta_of(i) is None && named_index(
                indices@,
                i,
            ) && 0 <= i <= 9 {
                Some(Seq::<Seq<ChordView>>::empty())
            } else {
                old(self).volta_of(i)
            } by {}
        }
        let mut stored: Vec<usize> = Vec::new();
        let mut j2: usize = 0;
        while j2 < indices.len()
            invariant
                j2 <= indices.len(),
                self.current == old(self).current,
                forall|i: int| 0 <= i < indices@.len() ==> #[trigger] indices@[i] <= 9,
                forall|jj: int|
                    0 <= jj < stored@.len() ==> (#[trigger] stored@[jj]) < self.voltas@.len()
                        && self.voltas@[stored@[jj] as int] is Some,
                forall|jj: int|
                    0 <= jj < stored@.len() ==> (#[trigger] stored@[jj]) != self.current,
                forall|jj: int|
                    0 <= jj < stored@.len() ==> exists|w: int|
                        0 <= w < j2 && indices@[w] == #[trigger] stored@[jj],
                forall|w: int|
                    0 <= w < j2 && #[trigger] indices@[w] != self.current ==> exists|jj: int|
                        0 <= jj < stored@.len() && stored@[jj] == indices@[w],
                forall|i: int|
                    #![trigger self.volta_of(i)]
                    named_index(indices@, i) && 0 <= i <= 9 ==> self.volta_of(i) is Some,
                forall|i: int|
                    #![trigger self.volta_of(i)]
                    self.volta_of(i) == if old(self).volta_of(i) is None && named_index(
                        indices@,
                        i,
                    ) && 0 <= i <= 9 {
                        Some(Seq::<Seq<ChordView>>::empty())
                    } else {
                        old(self).volta_of(i)
                    },
            decreases indices.len() - j2,
        {
            let idx = indices[j2];
            proof {
                assert(named_index(indices@, idx as int));
                assert(self.volta_of(idx as int) is Some);
            }
            if idx != self.current {
                let mut present = false;
                let mut j3: usize = 0;
                while j3 < stored.len()
                    invariant
                        j3 <= stored.len(),
                        present == exists|jj: int| 0 <= jj < j3 && stored@[jj] == idx,
                    decreases stored.len() - j3,
                {
                    if stored[j3] == idx {
                        present = true;
                        proof {
                            assert(exists|jj: int| 0 <= jj < j3 + 1 && stored@[jj] == idx);
                        }
                    }
                    j3 += 1;
                }
                let ghost stored0 = stored@;
                if !present {
                    stored.push(idx);
                    proof {
                        assert(stored@[stored@.len() - 1] == idx);
                        assert(forall|jj: int|
                            0 <= jj < stored0.len() ==> stored@[jj] == stored0[jj]);
                    }
                }
                proof {
                    assert forall|w: int|
                        0 <= w < j2 + 1 && #[trigger] indices@[w] != self.current implies exists|
                    jj: int|
                        0 <= jj < stored@.len() && stored@[jj] == indices@[w] by {
                        if w < j2 {
                            let jj = choose|jj: int|
                                0 <= jj < stored0.len() && stored0[jj] == indices@[w];
                            assert(stored@[jj] == indices@[w]);
                        } else {
                            if present {
                                let jj = choose|jj: int|
                                    0 <= jj < stored0.len() && stored0[jj] == idx;
                                assert(stored@[jj] == indices@[w]);
                            } else {
                                assert(stored@[stored@.len() - 1] == indices@[w]);
                            }
                        }
                    }
                }
            } else {
                proof {
                    assert forall|w: int|
                        0 <= w < j2 + 1 && #[trigger] indices@[w] != self.current implies exists|
                    jj: int|
                        0 <= jj < stored@.len() && stored@[jj] == indices@[w] by {
                        if w < j2 {
                        } else {
                            assert(indices@[w] == self.current);
                        }
                    }
                }
            }
            j2 += 1;
        }
        let ghost pre3 = *self;
        self.to_store = stored;
        proof {
            assert forall|i: int|
                #![trigger self.volta_of(i)]
                true implies self.volta_of(i) == if old(self).volta_of(i) is None && named_index(
                indices@,
                i,
            ) && 0 <= i <= 9 {
                Some(Seq::<Seq<ChordView>>::empty())
            } else {
                old(self).volta_of(i)
            } by {
                let b0 = pre3.volta_of(i);
            }
            assert forall|i: int|
                #![trigger self.stored(i)]
                true implies self.stored(i) == (named_index(indices@, i) && i != old(
                self,
            ).spec_current()) by {
                if self.stored(i) {
                    let jj = choose|jj: int|
                        0 <= jj < self.to_store@.len() && #[trigger] self.to_store@[jj] == i;
                    assert(stored@[jj] == i);
                    let w = choose|w: int|
                        0 <= w < indices@.len() && indices@[w] == stored@[jj];
                    assert(indices@[w] == i);
                    assert(named_index(indices@, i));
                }
                if named_index(indices@, i) && i != old(self).spec_current() {
                    let w = choose|w: int|
                        0 <= w < indices@.len() && #[trigger] indices@[w] == i;
                    let jj = choose|jj: int|
                        0 <= jj < stored@.len() && stored@[jj] == indices@[w];
                    assert(self.to_store@[jj] == i);
                    assert(self.stored(i));
                }
            }
        }
    }

    /// Records a completed line into every volta opened for a later pass.
    pub fn push(&mut self, line: &Line)
        requires
            old(self).wf(),
        ensures
            final(self).wf(),
            final(self).spec_current() == old(self).spec_current(),
            final(self).spec_len() == old(self).spec_len(),
            forall|i: int|
                #![trigger final(self).stored(i)]
                final(self).stored(i) == old(self).stored(i),
            forall|i: int|
                #![trigger final(self).volta_of(i)]
                final(self).volta_of(i) == if old(self).stored(i) && old(self).volta_of(i)
                    is Some {
                    Some(old(self).volta_of(i)->Some_0.push(line@))
                } else {
                    old(self).volta_of(i)
                },
    {
        let mut j: usize = 0;
        while j < self.to_store.len()
            invariant
                old(self).wf(),
                self.wf(),
                j <= self.to_store@.len(),
                self.current == old(self).current,
                self.to_store@ == old(self).to_store@,
                self.voltas@.len() == old(self).voltas@.len(),
                forall|i: int|
                    #![trigger self.volta_of(i)]
                    self.volta_of(i) == if (exists|jj: int|
                        0 <= jj < j && old(self).to_store@[jj] == i) && old(self).volta_of(i)
                        is Some {
                        Some(old(self).volta_of(i)->Some_0.push(line@))
                    } else {
                        old(self).volta_of(i)
                    },
            decreases self.to_store@.len() - j,
        {
            let ghost pre = *self;
            let idx = self.to_store[j];
            let already = {
                let mut seen = false;
                let mut j3: usize = 0;
                while j3 < j
                    invariant
                        j3 <= j,
                        j < self.to_store@.len(),
                        idx == self.to_store@[j as int],
                        seen == exists|jj: int| 0 <= jj < j3 && self.to_store@[jj]
                            == self.to_store@[j as int],
                    decreases j - j3,
                {
                    if self.to_store[j3] == idx {
                        seen = true;
                    }
                    proof {
                        if self.to_store@[j3 as int] == self.to_store@[j as int] {
                            assert(exists|jj: int|
                                0 <= jj < j3 + 1 && self.to_store@[jj] == self.to_store@[
                                j as int]);
                        }
                    }
                    j3 += 1;
                }
                seen
            };
            if !already {
                let ghost voltas0 = self.voltas@;
                let mut slot = self.voltas.remove(idx);
                match slot {
                    Some(mut ls) => {
                        ls.push(line.clone());
                        self.voltas.insert(idx, Some(ls));
                    },
                    None => {
                        proof {
                            assert(false);
                        }
                        self.voltas.insert(idx, None);
                    },
                }
                proof {
                    assert(self.voltas@ =~= voltas0.update(
                        idx as int,
                        self.voltas@[idx as int],
                    ));
                    assert(lines_view(self.voltas@[idx as int]->Some_0@) =~= lines_view(
                        voltas0[idx as int]->Some_0@,
                    ).push(line@));
                }
            }
            proof {
                assert forall|i: int|
                    #![trigger self.volta_of(i)]
                    true implies self.volta_of(i) == if (exists|jj: int|
                        0 <= jj < j + 1 && old(self).to_store@[jj] == i) && old(self).volta_of(i)
                        is Some {
                        Some(old(self).volta_of(i)->Some_0.push(line@))
                    } else {
                        old(self).volta_of(i)
                    } by {
                    let b0 = pre.volta_of(i);
                    if i == idx as int {
                        if already {
                            let jj = choose|jj: int|
                                0 <= jj < j && pre.to_store@[jj] == self.to_store@[j as int];
                            assert(old(self).to_store@[jj] == i);
                        } else {
                            assert(!(exists|jj: int|
                                0 <= jj < j && old(self).to_store@[jj] == i));
                            assert(b0 == old(self).volta_of(i));
                            assert(exists|jj: int|
                                0 <= jj < j + 1 && old(self).to_store@[jj] == i);
                        }
                    } else {
                        assert(self.volta_of(i) == b0);
                        assert forall|jj: int| 0 <= jj < j + 1 && old(self).to_store@[jj]
                            == i implies jj < j by {
                            if jj == j {
                                assert(old(self).to_store@[j as int] == idx as int);
                            }
                        }
                    }
                }
            }
            j += 1;
        }
    }

    /// The repeat-end trigger: emits the pre-volta body again; if the
    /// next pass's ending was already recorded, emits that ending and the
    /// body once more.  The emitted lines are handed back in order; the
    /// session itself keeps its voltas.
    pub fn repeat(&mut self) -> (r: Result<Vec<Line>, ErrorKind>)
        requires
            old(self).wf(),
        ensures
            final(self).wf(),
            forall|i: int|
                #![trigger final(self).volta_of(i)]
                final(self).volta_of(i) == old(self).volta_of(i),
            forall|i: int|
                #![trigger final(self).stored(i)]
                final(self).stored(i) == old(self).stored(i),
            final(self).spec_len() == old(self).spec_len(),
            match r {
                Ok(lines) => {
                    let body = old(self).volta_of(0)->Some_0;
                    let nxt = if old(self).spec_current() < usize::MAX {
                        old(self).spec_current() + 1
                    } else {
                        old(self).spec_current()
                    };
                    &&& old(self).volta_of(0) is Some
                    &&& body.len() > 0
                    &&& if old(self).volta_of(nxt) is Some && old(self).volta_of(
                        nxt,
                    )->Some_0.len() > 0 {
                        &&& lines_view(lines@) == body + old(self).volta_of(nxt)->Some_0 + body
                        &&& final(self).spec_current() == if nxt < usize::MAX {
                            nxt + 1
                        } else {
                            nxt
                        }
                    } else {
                        &&& lines_view(lines@) == body
                        &&& final(self).spec_current() == nxt
                    }
                },
                Err(e) => {
                    &&& final(self).spec_current() == old(self).spec_current()
                    &&& (e == ErrorKind::VoltaNotFound || e == ErrorKind::VoltaEmpty)
                    &&& (e == ErrorKind::VoltaNotFound <==> old(self).volta_of(0) is None)
                    &&& (e == ErrorKind::VoltaEmpty <==> old(self).volta_of(0) is Some && old(
                        self,
                    ).volta_of(0)->Some_0.len() == 0)
                },
            },
    {
        if self.voltas.len() == 0 {
            return Err(ErrorKind::VoltaNotFound);
        }
        let has_body = match &self.voltas[0] {
            Some(ls) => ls.len() > 0,
            None => {
                return Err(ErrorKind::VoltaNotFound);
            },
        };
        if !has_body {
            return Err(ErrorKind::VoltaEmpty);
        }
        let mut out: Vec<Line> = Vec::new();
        proof {
            assert(lines_view(out@) =~= Seq::<Seq<ChordView>>::empty());
        }
        self.emit(0, &mut out);
        proof {
            assert(lines_view(out@) =~= old(self).volta_of(0)->Some_0);
        }
        self.current = if self.current < usize::MAX {
            self.current + 1
        } else {
            self.current
        };
        let ghost nxt = self.current as int;
        let next_ready = self.current < self.voltas.len() && {
            match &self.voltas[self.current] {
                Some(ls) => ls.len() > 0,
                None => false,
            }
        };
        if next_ready {
            let ghost out0 = lines_view(out@);
            self.emit(self.current, &mut out);
            self.emit(0, &mut out);
            self.current = if self.current < usize::MAX {
                self.current + 1
            } else {
                self.current
            };
            proof {
                assert(lines_view(out@) =~= old(self).volta_of(0)->Some_0 + old(self).volta_of(
                    nxt,
                )->Some_0 + old(self).volta_of(0)->Some_0);
            }
        }
        Ok(out)
    }

    /// Emits the lines of volta `v` (which must be open) onto `out`.
    fn emit(&self, v: usize, out: &mut Vec<Line>)
        requires
            self.volta_of(v as int) is Some,
        ensures
            lines_view(final(out)@) == lines_view(old(out)@) + self.volta_of(v as int)->Some_0,
    {
        let ls = match &self.voltas[v] {
            Some(ls) => ls,
            None => {
                proof {
                    assert(false);
                }
                return ;
            },
        };
        let ghost base = old(out)@.len() as int;
        let mut j: usize = 0;
        while j < ls.len()
            invariant
                self.volta_of(v as int) == Some(lines_view(ls@)),
                base == old(out)@.len(),
                j <= ls@.len(),
                out@.len() == base + j,
                forall|k: int| 0 <= k < base ==> (#[trigger] out@[k])@ == old(out)@[k]@,
                forall|k: int| 0 <= k < j ==> (#[trigger] out@[base + k])@ == ls@[k]@,
            decreases ls@.len() - j,
        {
            let cl = ls[j].clone();
            out.push(cl);
            j += 1;
        }
        proof {
            let rhs = lines_view(old(out)@) + self.volta_of(v as int)->Some_0;
            assert(lines_view(out@).len() == rhs.len());
            assert forall|k: int| 0 <= k < out@.len() implies lines_view(out@)[k] == rhs[k] by {
                if k < base {
                    assert(out@[k]@ == old(out)@[k]@);
                } else {
                    assert(out@[base + (k - base)]@ == ls@[k - base]@);
                }
            }
            assert(lines_view(out@) =~= rhs);
        }
    }

    /// Closes the session: all voltas gone, the pass counter reset.
    pub fn clear(&mut self)
        ensures
            final(self).wf(),
            forall|i: int| final(self).volta_of(i) is None,
            forall|i: int| !final(self).stored(i),
            final(self).spec_current() == 1,
            final(self).spec_len() == 0,
    {
        self.voltas = Vec::new();
        self.current = 1;
        self.to_store = Vec::new();
    }
}


} // verus!
