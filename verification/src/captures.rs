//! Named chord captures.
//!
//! A capture token is a bracket sigil followed by an alphabetic key:
//! `(` declares the key for the chord being assembled, `[` replays the
//! front of the key's buffer, `<` replays and marks the front for removal,
//! `|` replays and marks the buffer for rotation, `{` replays and marks
//! the whole buffer for deletion.  A replay may carry an octave-shift
//! suffix `^8` (double every frequency) or `_8` (halve every frequency).
//!
//! Declares commit when a chord completes ([`CaptureParser::capture`]);
//! removal, rotation and deletion commit only at the end of the line
//! ([`CaptureParser::update`]), with deletion dominating rotation and both
//! dominating removal, so that a replay never observes these effects
//! within the line that requested them.

use vstd::prelude::*;

use crate::chords::{Chord, ChordView, spec_scale_freq};
use crate::errors::ErrorKind;

verus! {

/// One named cyclic buffer of captured chords, oldest first.
pub struct Capture {
    chords: Vec<Chord>,
}

impl View for Capture {
    type V = Seq<ChordView>;

    closed spec fn view(&self) -> Seq<ChordView> {
        self.chords@.map_values(|c: Chord| c@)
    }
}

/// A buffer without its front chord; an empty buffer stays empty.
pub open spec fn pop1(b: Seq<ChordView>) -> Seq<ChordView> {
    if b.len() == 0 {
        b
    } else {
        b.drop_first()
    }
}

/// A buffer after one rotation: the front moves to the back.
pub open spec fn rotate1(b: Seq<ChordView>) -> Seq<ChordView> {
    if b.len() == 0 {
        b
    } else {
        b.drop_first().push(b[0])
    }
}

impl Capture {
    pub fn new() -> (r: Capture)
        ensures
            r@ == Seq::<ChordView>::empty(),
    {
        let r = Capture { chords: Vec::new() };
        proof {
            assert(r@ =~= Seq::<ChordView>::empty());
        }
        r
    }

    pub fn len(&self) -> (r: usize)
        ensures
            r == self@.len(),
    {
        self.chords.len()
    }

    /// Appends a chord at the back.
    pub fn push(&mut self, chord: Chord)
        ensures
            final(self)@ == old(self)@.push(chord@),
    {
        self.chords.push(chord);
        proof {
            assert(final(self)@ =~= old(self)@.push(chord@));
        }
    }

    /// A copy of the front chord, if any.
    pub fn current(&self) -> (r: Option<Chord>)
        ensures
            match r {
                Some(c) => self@.len() > 0 && c@ == self@[0],
                None => self@.len() == 0,
            },
    {
        if self.chords.len() == 0 {
            None
        } else {
            Some(self.chords[0].clone())
        }
    }

    /// Rotates the front chord to the back.
    pub fn shift(&mut self)
        ensures
            final(self)@ == rotate1(old(self)@),
    {
        if self.chords.len() > 0 {
            let front = self.chords.remove(0);
            self.chords.push(front);
            proof {
                assert(final(self)@ =~= rotate1(old(self)@));
            }
        }
    }

    /// Removes the front chord, if any.
    pub fn pop_front(&mut self)
        ensures
            final(self)@ == pop1(old(self)@),
    {
        if self.chords.len() > 0 {
            self.chords.remove(0);
            proof {
                assert(final(self)@ =~= pop1(old(self)@));
            }
        }
    }
}

/// Compares two byte strings.
fn bytes_eq(a: &[u8], b: &[u8]) -> (r: bool)
    ensures
        r == (a@ == b@),
{
    if a.len() != b.len() {
        proof {
            assert(a@ != b@);
        }
        return false;
    }
    let mut i: usize = 0;
    while i < a.len()
        invariant
            i <= a.len(),
            a@.len() == b@.len(),
            forall|j: int| 0 <= j < i ==> a@[j] == b@[j],
        decreases a.len() - i,
    {
        if a[i] != b[i] {
            return false;
        }
        i += 1;
    }
    proof {
        assert(a@ =~= b@);
    }
    true
}

/// `k` occurs among the byte strings of `list`.
pub open spec fn has_key(list: Seq<Vec<u8>>, k: Seq<u8>) -> bool {
    exists|i: int| 0 <= i < list.len() && #[trigger] list[i]@ == k
}

/// The byte strings of `list` are pairwise distinct.
pub open spec fn distinct_keys(list: Seq<Vec<u8>>) -> bool {
    forall|i: int, j: int| 0 <= i < j < list.len() ==> #[trigger] list[i]@ != #[trigger] list[j]@
}

/// Whether `k` occurs in `list`.
fn list_has(list: &Vec<Vec<u8>>, k: &[u8]) -> (r: bool)
    ensures
        r == has_key(list@, k@),
{
    let mut i: usize = 0;
    while i < list.len()
        invariant
            i <= list.len(),
            forall|j: int| 0 <= j < i ==> list@[j]@ != k@,
        decreases list.len() - i,
    {
        if bytes_eq(list[i].as_slice(), k) {
            return true;
        }
        i += 1;
    }
    false
}

/// Inserts `k` if it is not present, keeping the list a set.
fn list_insert(list: &mut Vec<Vec<u8>>, k: Vec<u8>)
    requires
        distinct_keys(old(list)@),
    ensures
        distinct_keys(final(list)@),
        forall|k2: Seq<u8>| has_key(final(list)@, k2) == (has_key(old(list)@, k2) || k2 == k@),
        forall|i: int|
            0 <= i < final(list)@.len() ==> has_key(old(list)@, (#[trigger] final(list)@[i])@)
                || final(list)@[i]@ == k@,
{
    proof {
        assert forall|i: int| 0 <= i < old(list)@.len() implies has_key(
            old(list)@,
            (#[trigger] old(list)@[i])@,
        ) by {}
    }
    if !list_has(list, k.as_slice()) {
        list.push(k);
        proof {
            assert(forall|k2: Seq<u8>|
                has_key(final(list)@, k2) == (has_key(old(list)@, k2) || k2 == k@)) by {
                assert(forall|i: int|
                    0 <= i < old(list)@.len() ==> final(list)@[i] == old(list)@[i]);
                assert(final(list)@[old(list)@.len() as int]@ == k@);
                assert forall|k2: Seq<u8>| has_key(old(list)@, k2) implies has_key(
                    final(list)@,
                    k2,
                ) by {
                    let i = choose|i: int| 0 <= i < old(list)@.len() && old(list)@[i]@ == k2;
                    assert(final(list)@[i]@ == k2);
                }
            }
        }
    }
}

/// A key together with its capture buffer.
struct CapEntry {
    key: Vec<u8>,
    buf: Capture,
}

/// The index of the entry for `k`, or `-1`.
spec fn find_entry(s: Seq<CapEntry>, k: Seq<u8>) -> int
    decreases s.len(),
{
    if s.len() == 0 {
        -1
    } else if s[0].key@ == k {
        0
    } else {
        let r = find_entry(s.drop_first(), k);
        if r < 0 {
            -1
        } else {
            r + 1
        }
    }
}

proof fn lemma_find_entry(s: Seq<CapEntry>, k: Seq<u8>)
    ensures
        find_entry(s, k) < 0 ==> forall|i: int| 0 <= i < s.len() ==> (#[trigger] s[i]).key@ != k,
        find_entry(s, k) >= 0 ==> 0 <= find_entry(s, k) < s.len() && s[find_entry(s, k)].key@
            == k,
    decreases s.len(),
{
    if s.len() > 0 && s[0].key@ != k {
        lemma_find_entry(s.drop_first(), k);
        if find_entry(s, k) < 0 {
            assert forall|i: int| 0 <= i < s.len() implies (#[trigger] s[i]).key@ != k by {
                if i > 0 {
                    assert(s.drop_first()[i - 1] == s[i]);
                }
            }
        }
    }
}

/// Finding a key is unchanged when one entry is replaced by an entry with
/// the same key.
proof fn lemma_find_entry_update(s: Seq<CapEntry>, i: int, e: CapEntry, k: Seq<u8>)
    requires
        0 <= i < s.len(),
        e.key@ == s[i].key@,
    ensures
        find_entry(s.update(i, e), k) == find_entry(s, k),
    decreases s.len(),
{
    if s.len() > 0 {
        if i == 0 {
            if s[0].key@ != k {
                assert(s.update(0, e).drop_first() =~= s.drop_first());
            }
        } else {
            if s[0].key@ != k {
                lemma_find_entry_update(s.drop_first(), i - 1, e, k);
                assert(s.update(i, e).drop_first() =~= s.drop_first().update(i - 1, e));
            }
        }
    }
}

/// Finding a key after appending a fresh entry.
proof fn lemma_find_entry_push(s: Seq<CapEntry>, e: CapEntry, k: Seq<u8>)
    requires
        find_entry(s, e.key@) < 0,
    ensures
        k == e.key@ ==> find_entry(s.push(e), k) == s.len(),
        k != e.key@ ==> find_entry(s.push(e), k) == find_entry(s, k),
    decreases s.len(),
{
    if s.len() == 0 {
        assert(s.push(e)[0] == e);
        if k != e.key@ {
            assert(s.push(e).drop_first() =~= Seq::<CapEntry>::empty());
            assert(find_entry(Seq::<CapEntry>::empty(), k) == -1);
        }
    } else {
        if s[0].key@ != k {
            lemma_find_entry_push(s.drop_first(), e, k);
            assert(s.push(e).drop_first() =~= s.drop_first().push(e));
        }
    }
}

/// Tracks named capture buffers, the keys declared for the chord being
/// assembled, and the removal, deletion and rotation intents gathered
/// while the current line is parsed.
pub struct CaptureParser {
    captures: Vec<CapEntry>,
    to_cap: Vec<Vec<u8>>,
    to_pop: Vec<Vec<u8>>,
    to_clear: Vec<Vec<u8>>,
    to_rotate: Vec<Vec<u8>>,
}

/// A recognized capture token: a declaration of a key, or the chord
/// replayed from the front of a key's buffer.
pub enum Cap {
    Cap(Vec<u8>),
    Front(Chord),
}

/// `b` opens a capture token.
pub open spec fn is_cap_sigil(b: u8) -> bool {
    b == 40 || b == 60 || b == 91 || b == 123 || b == 124
}

/// A token starting with `byte` is parsed as a capture instruction.
pub fn should_be_cap(byte: u8) -> (r: bool)
    ensures
        r == is_cap_sigil(byte),
{
    byte == 40 || byte == 60 || byte == 91 || byte == 123 || byte == 124
}

/// `b` is an ASCII letter.
pub open spec fn is_alpha_byte(b: u8) -> bool {
    (65 <= b <= 90) || (97 <= b <= 122)
}

/// `s` is one or more ASCII letters.
pub open spec fn is_alpha(s: Seq<u8>) -> bool {
    s.len() > 0 && forall|i: int| 0 <= i < s.len() ==> is_alpha_byte(#[trigger] s[i])
}

/// The shape of a capture token `s` (whose first byte is a sigil):
/// the sigil, the key, and the octave shift (`1` up, `-1` down, `0` none).
/// A declaration takes no shift suffix; every key is alphabetic.
pub open spec fn cap_shape(s: Seq<u8>) -> Option<(u8, Seq<u8>, int)> {
    let body = s.skip(1);
    if s[0] == 40 {
        if is_alpha(body) {
            Some((s[0], body, 0))
        } else {
            None
        }
    } else {
        let (key, sc): (Seq<u8>, int) = if body.len() >= 2 && body[body.len() - 2] == 94
            && body[body.len() - 1] == 56 {
            (body.take(body.len() - 2), 1)
        } else if body.len() >= 2 && body[body.len() - 2] == 95 && body[body.len() - 1] == 56 {
            (body.take(body.len() - 2), -1)
        } else {
            (body, 0)
        };
        if is_alpha(key) {
            Some((s[0], key, sc))
        } else {
            None
        }
    }
}

/// A chord with every frequency shifted by `sc` octaves (`1` up, `-1`
/// down, `0` unchanged).
pub open spec fn scale_chord(c: ChordView, sc: int) -> ChordView {
    if sc == 1 {
        ChordView {
            length: c.length,
            size: c.size,
            freqs: c.freqs.map_values(|f: u64| spec_scale_freq(f, true)),
        }
    } else if sc == -1 {
        ChordView {
            length: c.length,
            size: c.size,
            freqs: c.freqs.map_values(|f: u64| spec_scale_freq(f, false)),
        }
    } else {
        c
    }
}

impl CaptureParser {
    /// The buffer stored under `k`, if `k` was ever captured to and not
    /// yet deleted.
    pub closed spec fn buf_of(self, k: Seq<u8>) -> Option<Seq<ChordView>> {
        entries_buf(self.captures@, k)
    }

    /// `k` is declared for the chord currently being assembled.
    pub closed spec fn pending(self, k: Seq<u8>) -> bool {
        has_key(self.to_cap@, k)
    }

    /// `k`'s front is marked for removal at the next update.
    pub closed spec fn marked_pop(self, k: Seq<u8>) -> bool {
        has_key(self.to_pop@, k)
    }

    /// `k`'s buffer is marked for deletion at the next update.
    pub closed spec fn marked_clear(self, k: Seq<u8>) -> bool {
        has_key(self.to_clear@, k)
    }

    /// `k`'s buffer is marked for rotation at the next update.
    pub closed spec fn marked_rotate(self, k: Seq<u8>) -> bool {
        has_key(self.to_rotate@, k)
    }

    /// Distinct keys and intents, and every removal or rotation intent
    /// refers to an existing, non-empty buffer.
    pub closed spec fn wf(self) -> bool {
        &&& (forall|i: int, j: int|
            0 <= i < j < self.captures@.len() ==> (#[trigger] self.captures@[i]).key@ != (
            #[trigger] self.captures@[j]).key@)
        &&& distinct_keys(self.to_cap@)
        &&& distinct_keys(self.to_pop@)
        &&& distinct_keys(self.to_clear@)
        &&& distinct_keys(self.to_rotate@)
        &&& (forall|i: int|
            0 <= i < self.to_pop@.len() ==> {
                let b = self.buf_of((#[trigger] self.to_pop@[i])@);
                b is Some && b->Some_0.len() > 0
            })
        &&& (forall|i: int|
            0 <= i < self.to_rotate@.len() ==> {
                let b = self.buf_of((#[trigger] self.to_rotate@[i])@);
                b is Some && b->Some_0.len() > 0
            })
    }

    /// The capture buffers are untouched.
    pub open spec fn bufs_unchanged(pre: CaptureParser, post: CaptureParser) -> bool {
        forall|k: Seq<u8>| post.buf_of(k) == pre.buf_of(k)
    }

    /// The removal, deletion and rotation intents are untouched.
    pub open spec fn intents_unchanged(pre: CaptureParser, post: CaptureParser) -> bool {
        &&& (forall|k: Seq<u8>| post.marked_pop(k) == pre.marked_pop(k))
        &&& (forall|k: Seq<u8>| post.marked_clear(k) == pre.marked_clear(k))
        &&& (forall|k: Seq<u8>| post.marked_rotate(k) == pre.marked_rotate(k))
    }

    /// Effect of declaring `key`: it joins the pending set; nothing else
    /// moves.
    pub open spec fn will_capture_rel(pre: CaptureParser, post: CaptureParser, key: Seq<u8>) -> bool {
        &&& Self::bufs_unchanged(pre, post)
        &&& Self::intents_unchanged(pre, post)
        &&& (forall|k: Seq<u8>| post.pending(k) == (pre.pending(k) || k == key))
    }

    /// Effect of committing a completed chord `c`: it is appended to the
    /// buffer of every pending key (created empty on first use), and the
    /// pending set empties; intents are untouched.
    pub open spec fn capture_rel(pre: CaptureParser, post: CaptureParser, c: ChordView) -> bool {
        &&& Self::intents_unchanged(pre, post)
        &&& (forall|k: Seq<u8>| !post.pending(k))
        &&& (forall|k: Seq<u8>|
            post.buf_of(k) == if pre.pending(k) {
                Some(
                    (match pre.buf_of(k) {
                        Some(b) => b,
                        None => Seq::<ChordView>::empty(),
                    }).push(c),
                )
            } else {
                pre.buf_of(k)
            })
    }

    /// A key's buffer after one update: deletion dominates rotation,
    /// which dominates removal of the front.
    pub open spec fn update_one(pre: CaptureParser, k: Seq<u8>) -> Option<Seq<ChordView>> {
        match pre.buf_of(k) {
            None => None,
            Some(b) => if pre.marked_clear(k) {
                None
            } else if pre.marked_rotate(k) {
                Some(rotate1(b))
            } else if pre.marked_pop(k) {
                Some(pop1(b))
            } else {
                Some(b)
            },
        }
    }

    /// Effect of the end-of-line update: every buffer is transformed by
    /// [`CaptureParser::update_one`], all intents empty, and the pending
    /// set is untouched.
    pub open spec fn update_rel(pre: CaptureParser, post: CaptureParser) -> bool {
        &&& (forall|k: Seq<u8>| post.buf_of(k) == Self::update_one(pre, k))
        &&& (forall|k: Seq<u8>| !post.marked_pop(k))
        &&& (forall|k: Seq<u8>| !post.marked_clear(k))
        &&& (forall|k: Seq<u8>| !post.marked_rotate(k))
        &&& (forall|k: Seq<u8>| post.pending(k) == pre.pending(k))
    }

    /// Effect of a successful replay of `key` with rotation intent.
    pub open spec fn replay_mark_rel(
        pre: CaptureParser,
        post: CaptureParser,
        key: Seq<u8>,
        sigil: u8,
    ) -> bool {
        &&& Self::bufs_unchanged(pre, post)
        &&& (forall|k: Seq<u8>| post.pending(k) == pre.pending(k))
        &&& (forall|k: Seq<u8>|
            post.marked_pop(k) == (pre.marked_pop(k) || (sigil == 60 && k == key)))
        &&& (forall|k: Seq<u8>|
            post.marked_clear(k) == (pre.marked_clear(k) || (sigil == 123 && k == key)))
        &&& (forall|k: Seq<u8>|
            post.marked_rotate(k) == (pre.marked_rotate(k) || (sigil == 124 && k == key)))
    }

    pub fn new() -> (r: CaptureParser)
        ensures
            r.wf(),
            forall|k: Seq<u8>| r.buf_of(k) is None,
            forall|k: Seq<u8>| !r.pending(k),
            forall|k: Seq<u8>| !r.marked_pop(k) && !r.marked_clear(k) && !r.marked_rotate(k),
    {
        CaptureParser {
            captures: Vec::new(),
            to_cap: Vec::new(),
            to_pop: Vec::new(),
            to_clear: Vec::new(),
            to_rotate: Vec::new(),
        }
    }

    /// Declares `key`: the chord being assembled will be pushed onto its
    /// buffer when it completes.
    pub fn will_capture(&mut self, key: Vec<u8>)
        requires
            old(self).wf(),
        ensures
            final(self).wf(),
            Self::will_capture_rel(*old(self), *final(self), key@),
    {
        list_insert(&mut self.to_cap, key);
    }

    /// The index of the entry for `k`, if there is one.
    fn find(&self, k: &[u8]) -> (r: Option<usize>)
        ensures
            match r {
                Some(i) => find_entry(self.captures@, k@) == i && i < self.captures@.len(),
                None => find_entry(self.captures@, k@) < 0,
            },
    {
        let mut i: usize = 0;
        while i < self.captures.len()
            invariant
                i <= self.captures.len(),
                forall|j: int| 0 <= j < i ==> (#[trigger] self.captures@[j]).key@ != k@,
            decreases self.captures.len() - i,
        {
            if bytes_eq(self.captures[i].key.as_slice(), k) {
                proof {
                    lemma_find_entry_is_first(self.captures@, k@, i as int);
                }
                return Some(i);
            }
            i += 1;
        }
        proof {
            lemma_find_entry(self.captures@, k@);
            if find_entry(self.captures@, k@) >= 0 {
                assert(false);
            }
        }
        None
    }

    /// Commits the completed chord: it is appended (shared content, one
    /// copy per key) to the buffer of every key declared since the last
    /// commit, and the pending set empties.
    pub fn capture(&mut self, chord: &Chord)
        requires
            old(self).wf(),
        ensures
            final(self).wf(),
            Self::capture_rel(*old(self), *final(self), chord@),
    {
        while self.to_cap.len() > 0
            invariant
                self.wf(),
                Self::intents_unchanged(*old(self), *self),
                forall|k: Seq<u8>| self.pending(k) ==> old(self).pending(k),
                forall|k: Seq<u8>|
                    #![trigger self.buf_of(k)]
                    self.buf_of(k) == if old(self).pending(k) && !self.pending(k) {
                        Some(
                            (match old(self).buf_of(k) {
                                Some(b) => b,
                                None => Seq::<ChordView>::empty(),
                            }).push(chord@),
                        )
                    } else {
                        old(self).buf_of(k)
                    },
            decreases self.to_cap.len(),
        {
            let ghost pre = *self;
            let key = match self.to_cap.pop() {
                Some(k) => k,
                None => {
                    proof {
                        assert(false);
                    }
                    return ;
                },
            };
            proof {
                assert(pre.to_cap@[pre.to_cap@.len() - 1]@ == key@);
                assert(pre.pending(key@));
                assert forall|k: Seq<u8>| #[trigger] has_key(self.to_cap@, k) == (has_key(
                    pre.to_cap@,
                    k,
                ) && k != key@) by {
                    if has_key(self.to_cap@, k) {
                        let i = choose|i: int|
                            0 <= i < self.to_cap@.len() && #[trigger] self.to_cap@[i]@ == k;
                        assert(pre.to_cap@[i]@ == k);
                    }
                    if has_key(pre.to_cap@, k) && k != key@ {
                        let i = choose|i: int|
                            0 <= i < pre.to_cap@.len() && #[trigger] pre.to_cap@[i]@ == k;
                        assert(i < pre.to_cap@.len() - 1);
                        assert(self.to_cap@[i]@ == k);
                    }
                }
                assert(!self.pending(key@));
            }
            let ghost caps0 = self.captures@;
            match self.find(key.as_slice()) {
                Some(i) => {
                    proof {
                        lemma_find_entry(caps0, key@);
                    }
                    let mut entry = self.captures.remove(i);
                    entry.buf.push(chord.clone());
                    let ghost e2 = entry;
                    self.captures.insert(i, entry);
                    proof {
                        assert(e2.key@ == key@);
                        assert(e2.buf@ == caps0[i as int].buf@.push(chord@));
                        assert(self.captures@ =~= caps0.update(i as int, e2));
                        assert forall|k2: Seq<u8>|
                            find_entry(self.captures@, k2) == find_entry(caps0, k2) by {
                            lemma_find_entry_update(caps0, i as int, e2, k2);
                        }
                        assert(entries_buf(self.captures@, key@) == Some(e2.buf@));
                        assert forall|k2: Seq<u8>| k2 != key@ implies #[trigger] entries_buf(
                            self.captures@,
                            k2,
                        ) == entries_buf(caps0, k2) by {
                            lemma_find_entry(caps0, k2);
                        }
                        assert(pre.buf_of(key@) == Some(caps0[i as int].buf@));
                    }
                },
                None => {
                    let mut buf = Capture::new();
                    buf.push(chord.clone());
                    let entry = CapEntry { key, buf };
                    self.captures.push(entry);
                    proof {
                        assert(entry.buf@ =~= Seq::<ChordView>::empty().push(chord@));
                        assert(self.captures@ == caps0.push(entry));
                        assert(entries_buf(self.captures@, key@) == Some(entry.buf@)) by {
                            lemma_find_entry_push(caps0, entry, key@);
                        }
                        assert forall|k2: Seq<u8>| k2 != key@ implies #[trigger] entries_buf(
                            self.captures@,
                            k2,
                        ) == entries_buf(caps0, k2) by {
                            lemma_find_entry_push(caps0, entry, k2);
                            lemma_find_entry(caps0, k2);
                            lemma_find_entry(caps0.push(entry), k2);
                        }
                        assert(pre.buf_of(key@) is None);
                        lemma_find_entry(caps0, entry.key@);
                        assert forall|a: int, b: int|
                            0 <= a < b < self.captures@.len() implies (
                        #[trigger] self.captures@[a]).key@ != (
                        #[trigger] self.captures@[b]).key@ by {
                            if b == self.captures@.len() - 1 {
                                lemma_find_entry(caps0, entry.key@);
                            }
                        }
                    }
                },
            }
            proof {
                assert forall|k: Seq<u8>|
                    #![trigger self.buf_of(k)]
                    true implies self.buf_of(k) == if old(self).pending(k) && !self.pending(k) {
                    Some(
                        (match old(self).buf_of(k) {
                            Some(b) => b,
                            None => Seq::<ChordView>::empty(),
                        }).push(chord@),
                    )
                } else {
                    old(self).buf_of(k)
                } by {
                    let b_pre = pre.buf_of(k);
                    let b_old = old(self).buf_of(k);
                    if k == key@ {
                        assert(pre.pending(k));
                        assert(pre.buf_of(k) == old(self).buf_of(k));
                        assert(!self.pending(k));
                        assert(old(self).pending(k));
                        assert(self.buf_of(k) == Some(
                            (match old(self).buf_of(k) {
                                Some(b) => b,
                                None => Seq::<ChordView>::empty(),
                            }).push(chord@),
                        ));
                    } else {
                        assert(self.pending(k) == pre.pending(k));
                        assert(self.buf_of(k) == pre.buf_of(k));
                    }
                }
            }
        }
    }

    /// Applies the gathered intents to every buffer — deletion first,
    /// then rotation, then removal of the front — and empties them.
    pub fn update(&mut self)
        requires
            old(self).wf(),
        ensures
            final(self).wf(),
            Self::update_rel(*old(self), *final(self)),
    {
        let ghost orig = old(self).captures@;
        let mut kept: Vec<CapEntry> = Vec::new();
        while self.captures.len() > 0
            invariant
                old(self).wf(),
                self.to_cap@ == old(self).to_cap@,
                self.to_pop@ == old(self).to_pop@,
                self.to_clear@ == old(self).to_clear@,
                self.to_rotate@ == old(self).to_rotate@,
                orig == old(self).captures@,
                self.captures@.len() <= orig.len(),
                self.captures@ =~= orig.subrange(
                    orig.len() - self.captures@.len(),
                    orig.len() as int,
                ),
                forall|a: int, b: int|
                    0 <= a < b < kept@.len() ==> (#[trigger] kept@[a]).key@ != (
                    #[trigger] kept@[b]).key@,
                forall|k: Seq<u8>|
                    #![trigger entries_buf(kept@, k)]
                    entries_buf(kept@, k) == if 0 <= find_entry(orig, k) < orig.len()
                        - self.captures@.len() {
                        Self::update_one(*old(self), k)
                    } else {
                        None::<Seq<ChordView>>
                    },
            decreases self.captures.len(),
        {
            let ghost done = orig.len() - self.captures@.len();
            let mut entry = self.captures.remove(0);
            proof {
                assert(entry == orig[done]);
                assert(self.captures@ =~= orig.subrange(done + 1, orig.len() as int));
                assert forall|j: int| 0 <= j < done implies (#[trigger] orig[j]).key@
                    != entry.key@ by {}
                lemma_find_entry_is_first(orig, entry.key@, done);
                assert(old(self).buf_of(entry.key@) == Some(entry.buf@));
                assert(entries_buf(kept@, entry.key@) is None);
                lemma_find_entry(kept@, entry.key@);
            }
            let ghost k0 = entry.key@;
            let ghost kept0 = kept@;
            if list_has(&self.to_clear, entry.key.as_slice()) {
                proof {
                    assert(Self::update_one(*old(self), k0) is None);
                }
            } else if list_has(&self.to_rotate, entry.key.as_slice()) {
                entry.buf.shift();
                kept.push(entry);
            } else if list_has(&self.to_pop, entry.key.as_slice()) {
                entry.buf.pop_front();
                kept.push(entry);
            } else {
                kept.push(entry);
            }
            proof {
                if kept@.len() > kept0.len() {
                    let e2 = kept@[kept@.len() - 1];
                    assert(kept@ =~= kept0.push(e2));
                    assert(e2.key@ == k0);
                    assert forall|k2: Seq<u8>| #![trigger entries_buf(kept@, k2)] true implies {
                        &&& (k2 == k0 ==> entries_buf(kept@, k2) == Some(e2.buf@))
                        &&& (k2 != k0 ==> entries_buf(kept@, k2) == entries_buf(kept0, k2))
                    } by {
                        lemma_find_entry(kept0, k0);
                        lemma_find_entry(kept0, k2);
                        lemma_find_entry_push(kept0, e2, k2);
                        lemma_find_entry(kept0.push(e2), k2);
                    }
                    assert(entries_buf(kept@, k0) == Some(Self::update_one(*old(self), k0)->Some_0));
                }
                assert forall|k: Seq<u8>|
                    #![trigger entries_buf(kept@, k)]
                    true implies entries_buf(kept@, k) == if 0 <= find_entry(orig, k) < done + 1 {
                    Self::update_one(*old(self), k)
                } else {
                    None::<Seq<ChordView>>
                } by {
                    lemma_find_entry(orig, k);
                    if find_entry(orig, k) == done {
                        assert(k == k0);
                    }
                }
            }
        }
        proof {
            assert forall|k: Seq<u8>|
                #![trigger entries_buf(kept@, k)]
                true implies entries_buf(kept@, k) == Self::update_one(*old(self), k) by {
                lemma_find_entry(orig, k);
                if !(0 <= find_entry(orig, k) < orig.len()) {
                    assert(old(self).buf_of(k) is None);
                }
            }
        }
        self.captures = kept;
        self.to_pop = Vec::new();
        self.to_clear = Vec::new();
        self.to_rotate = Vec::new();
    }
}

impl CaptureParser {
    /// Recognizes `token` as a capture instruction, following
    /// [`cap_shape`]: a declaration hands back its key; a replay hands
    /// back a copy of the front chord of the key's buffer, shifted by the
    /// requested octaves, and records the removal, deletion or rotation
    /// intent of its sigil.  A replay of a key that was never declared
    /// fails as unknown; one of a declared key with nothing captured yet,
    /// or with an exhausted buffer, fails as empty.
    pub fn try_parse(&mut self, token: &[u8]) -> (r: Result<Option<Cap>, ErrorKind>)
        requires
            old(self).wf(),
        ensures
            final(self).wf(),
            ({
                let s = token@;
                if s.len() == 0 || !is_cap_sigil(s[0]) {
                    r == Ok::<Option<Cap>, ErrorKind>(None) && *final(self) == *old(self)
                } else {
                    match cap_shape(s) {
                        None => r == Err::<Option<Cap>, ErrorKind>(ErrorKind::InvalidCaptureToken)
                            && *final(self) == *old(self),
                        Some((sig, key, sc)) => if sig == 40 {
                            *final(self) == *old(self) && match r {
                                Ok(Some(Cap::Cap(k))) => k@ == key,
                                _ => false,
                            }
                        } else {
                            let bo = old(self).buf_of(key);
                            if bo is Some && bo->Some_0.len() > 0 {
                                &&& Self::replay_mark_rel(*old(self), *final(self), key, sig)
                                &&& match r {
                                    Ok(Some(Cap::Front(c))) => c@ == scale_chord(
                                        bo->Some_0[0],
                                        sc,
                                    ),
                                    _ => false,
                                }
                            } else if bo is Some || old(self).pending(key) {
                                r == Err::<Option<Cap>, ErrorKind>(ErrorKind::BufferEmpty)
                                    && *final(self) == *old(self)
                            } else {
                                r == Err::<Option<Cap>, ErrorKind>(ErrorKind::KeyNotFound)
                                    && *final(self) == *old(self)
                            }
                        },
                    }
                }
            }),
    {
        if token.len() == 0 {
            return Ok(None);
        }
        let b0 = token[0];
        if !(b0 == 40 || b0 == 60 || b0 == 91 || b0 == 123 || b0 == 124) {
            return Ok(None);
        }
        let n = token.len();
        let (key_end, sc): (usize, i8) = if b0 != 40 && n >= 3 && token[n - 1] == 56 && (token[n
            - 2] == 94 || token[n - 2] == 95) {
            (n - 2, if token[n - 2] == 94 {
                1
            } else {
                -1
            })
        } else {
            (n, 0)
        };
        proof {
            let body = token@.skip(1);
            if key_end < n {
                assert(body.take(body.len() - 2) =~= token@.subrange(1, key_end as int));
            } else {
                assert(body =~= token@.subrange(1, key_end as int));
            }
        }
        let key_slice = &token[1..key_end];
        if !all_alpha(key_slice) {
            proof {
                assert(cap_shape(token@) is None);
            }
            return Err(ErrorKind::InvalidCaptureToken);
        }
        let key = bytes_to_vec(key_slice);
        if b0 == 40 {
            return Ok(Some(Cap::Cap(key)));
        }
        match self.find(key.as_slice()) {
            None => {
                proof {
                    assert(old(self).buf_of(key@) is None);
                }
                if list_has(&self.to_cap, key.as_slice()) {
                    Err(ErrorKind::BufferEmpty)
                } else {
                    Err(ErrorKind::KeyNotFound)
                }
            },
            Some(i) => {
                let front = self.captures[i].buf.current();
                match front {
                    None => {
                        proof {
                            assert(old(self).buf_of(key@)->Some_0.len() == 0);
                        }
                        Err(ErrorKind::BufferEmpty)
                    },
                    Some(chord) => {
                        proof {
                            assert(old(self).buf_of(key@) is Some);
                            assert(old(self).buf_of(key@)->Some_0.len() > 0);
                        }
                        if b0 == 60 {
                            list_insert(&mut self.to_pop, key);
                        } else if b0 == 123 {
                            list_insert(&mut self.to_clear, key);
                        } else if b0 == 124 {
                            list_insert(&mut self.to_rotate, key);
                        }
                        proof {
                            assert forall|j: int| 0 <= j < self.to_pop@.len() implies {
                                let b = self.buf_of((#[trigger] self.to_pop@[j])@);
                                b is Some && b->Some_0.len() > 0
                            } by {
                                let k2 = self.to_pop@[j]@;
                                if has_key(old(self).to_pop@, k2) {
                                    let jj = choose|jj: int|
                                        0 <= jj < old(self).to_pop@.len() && #[trigger] old(
                                            self,
                                        ).to_pop@[jj]@ == k2;
                                }
                            }
                            assert forall|j: int| 0 <= j < self.to_rotate@.len() implies {
                                let b = self.buf_of((#[trigger] self.to_rotate@[j])@);
                                b is Some && b->Some_0.len() > 0
                            } by {
                                let k2 = self.to_rotate@[j]@;
                                if has_key(old(self).to_rotate@, k2) {
                                    let jj = choose|jj: int|
                                        0 <= jj < old(self).to_rotate@.len() && #[trigger] old(
                                            self,
                                        ).to_rotate@[jj]@ == k2;
                                }
                            }
                        }
                        let out = if sc == 1 {
                            chord.scale(true)
                        } else if sc == -1 {
                            chord.scale(false)
                        } else {
                            chord
                        };
                        Ok(Some(Cap::Front(out)))
                    },
                }
            },
        }
    }
}

/// `s` is one or more ASCII letters: executable form of [`is_alpha`].
fn all_alpha(s: &[u8]) -> (r: bool)
    ensures
        r == is_alpha(s@),
{
    if s.len() == 0 {
        return false;
    }
    let mut i: usize = 0;
    while i < s.len()
        invariant
            i <= s.len(),
            forall|j: int| 0 <= j < i ==> is_alpha_byte(#[trigger] s@[j]),
        decreases s.len() - i,
    {
        let b = s[i];
        if !((65 <= b && b <= 90) || (97 <= b && b <= 122)) {
            return false;
        }
        i += 1;
    }
    true
}

/// Copies a byte string.
fn bytes_to_vec(s: &[u8]) -> (v: Vec<u8>)
    ensures
        v@ == s@,
{
    let mut v: Vec<u8> = Vec::new();
    let mut i: usize = 0;
    while i < s.len()
        invariant
            i <= s.len(),
            v@ =~= s@.subrange(0, i as int),
        decreases s.len() - i,
    {
        v.push(s[i]);
        proof {
            assert(v@ =~= s@.subrange(0, i + 1));
        }
        i += 1;
    }
    proof {
        assert(v@ =~= s@);
    }
    v
}

/// Capture round trip, first half: declaring a fresh key `k` and then
/// committing the completed chord `c` leaves `k`'s buffer holding exactly
/// `c`, so a replay of `k` returns `c`'s frequencies.
pub proof fn lemma_capture_round_trip(
    s0: CaptureParser,
    s1: CaptureParser,
    s2: CaptureParser,
    k: Seq<u8>,
    c: ChordView,
)
    requires
        CaptureParser::will_capture_rel(s0, s1, k),
        CaptureParser::capture_rel(s1, s2, c),
        s0.buf_of(k) is None,
    ensures
        s2.buf_of(k) == Some(seq![c]),
{
    assert(s1.pending(k));
    assert(s1.buf_of(k) is None);
    assert(Seq::<ChordView>::empty().push(c) =~= seq![c]);
}

/// Capture round trip, shift with a single chord: when `k`'s buffer holds
/// only `c`, a replay-with-rotation followed by the end-of-line update
/// wraps around, and the next replay of `k` returns `c` again.
pub proof fn lemma_capture_shift_wraps(
    s2: CaptureParser,
    s3: CaptureParser,
    s4: CaptureParser,
    k: Seq<u8>,
    c: ChordView,
)
    requires
        s2.buf_of(k) == Some(seq![c]),
        !s2.marked_clear(k),
        CaptureParser::replay_mark_rel(s2, s3, k, 124),
        CaptureParser::update_rel(s3, s4),
    ensures
        s4.buf_of(k) == Some(seq![c]),
{
    assert(s3.buf_of(k) == Some(seq![c]));
    assert(s3.marked_rotate(k));
    assert(rotate1(seq![c]) =~= seq![c]);
}

/// Capture round trip, shift with two chords: when `k`'s buffer holds
/// `c1` then `c2`, a replay-with-rotation followed by the end-of-line
/// update moves `c1` to the back, and the next replay of `k` returns the
/// next captured chord `c2`.
pub proof fn lemma_capture_shift_next(
    s2: CaptureParser,
    s3: CaptureParser,
    s4: CaptureParser,
    k: Seq<u8>,
    c1: ChordView,
    c2: ChordView,
)
    requires
        s2.buf_of(k) == Some(seq![c1, c2]),
        !s2.marked_clear(k),
        CaptureParser::replay_mark_rel(s2, s3, k, 124),
        CaptureParser::update_rel(s3, s4),
    ensures
        s4.buf_of(k) == Some(seq![c2, c1]),
{
    assert(s3.buf_of(k) == Some(seq![c1, c2]));
    assert(s3.marked_rotate(k));
    assert(rotate1(seq![c1, c2]) =~= seq![c2, c1]);
}


/// The buffer stored under `k` in an entry list.
spec fn entries_buf(s: Seq<CapEntry>, k: Seq<u8>) -> Option<Seq<ChordView>> {
    let i = find_entry(s, k);
    if i < 0 {
        None
    } else {
        Some(s[i].buf@)
    }
}

/// `find_entry` returns the first index whose key is `k`.
proof fn lemma_find_entry_is_first(s: Seq<CapEntry>, k: Seq<u8>, i: int)
    requires
        0 <= i < s.len(),
        s[i].key@ == k,
        forall|j: int| 0 <= j < i ==> (#[trigger] s[j]).key@ != k,
    ensures
        find_entry(s, k) == i,
    decreases i,
{
    if i > 0 {
        assert forall|j: int| 0 <= j < i - 1 implies (#[trigger] s.drop_first()[j]).key@ != k by {
            assert(s.drop_first()[j] == s[j + 1]);
        }
        assert(s.drop_first()[i - 1] == s[i]);
        lemma_find_entry_is_first(s.drop_first(), k, i - 1);
    }
}


/// The mathematical content of a capture store: the buffers, the keys
/// pending a capture, and the intents gathered on the current line.
#[verifier::ext_equal]
pub ghost struct CapModel {
    pub bufs: Map<Seq<u8>, Seq<ChordView>>,
    pub pending: Set<Seq<u8>>,
    pub pops: Set<Seq<u8>>,
    pub clears: Set<Seq<u8>>,
    pub rots: Set<Seq<u8>>,
}

impl CaptureParser {
    /// The store as one value, assembled from the per-key observations.
    pub open spec fn model(self) -> CapModel {
        CapModel {
            bufs: Map::new(
                |k: Seq<u8>| self.buf_of(k) is Some,
                |k: Seq<u8>| self.buf_of(k)->Some_0,
            ),
            pending: Set::new(|k: Seq<u8>| self.pending(k)),
            pops: Set::new(|k: Seq<u8>| self.marked_pop(k)),
            clears: Set::new(|k: Seq<u8>| self.marked_clear(k)),
            rots: Set::new(|k: Seq<u8>| self.marked_rotate(k)),
        }
    }
}

/// Declaring `key`: it joins the pending set.
pub open spec fn will_capture_model(m: CapModel, key: Seq<u8>) -> CapModel {
    CapModel {
        bufs: m.bufs,
        pending: m.pending.insert(key),
        pops: m.pops,
        clears: m.clears,
        rots: m.rots,
    }
}

/// Committing a completed chord `c`: it is appended to the buffer of
/// every pending key (created empty on first use) and the pending set
/// empties.
pub open spec fn capture_model(m: CapModel, c: ChordView) -> CapModel {
    CapModel {
        bufs: Map::new(
            |k: Seq<u8>| m.bufs.dom().contains(k) || m.pending.contains(k),
            |k: Seq<u8>|
                if m.pending.contains(k) {
                    (if m.bufs.dom().contains(k) {
                        m.bufs[k]
                    } else {
                        Seq::empty()
                    }).push(c)
                } else {
                    m.bufs[k]
                },
        ),
        pending: Set::empty(),
        pops: m.pops,
        clears: m.clears,
        rots: m.rots,
    }
}

/// A successful replay of `key` under `sig`: the sigil's intent is
/// recorded (`<` removal, `{` deletion, `|` rotation; `[` records none).
pub open spec fn replay_mark_model(m: CapModel, key: Seq<u8>, sig: u8) -> CapModel {
    CapModel {
        bufs: m.bufs,
        pending: m.pending,
        pops: if sig == 60 {
            m.pops.insert(key)
        } else {
            m.pops
        },
        clears: if sig == 123 {
            m.clears.insert(key)
        } else {
            m.clears
        },
        rots: if sig == 124 {
            m.rots.insert(key)
        } else {
            m.rots
        },
    }
}

/// The end-of-line commit: deletion dominates rotation, which dominates
/// removal of the front; all intents empty, the pending set stays.
pub open spec fn update_model(m: CapModel) -> CapModel {
    CapModel {
        bufs: Map::new(
            |k: Seq<u8>| m.bufs.dom().contains(k) && !m.clears.contains(k),
            |k: Seq<u8>|
                if m.rots.contains(k) {
                    rotate1(m.bufs[k])
                } else if m.pops.contains(k) {
                    pop1(m.bufs[k])
                } else {
                    m.bufs[k]
                },
        ),
        pending: m.pending,
        pops: Set::empty(),
        clears: Set::empty(),
        rots: Set::empty(),
    }
}

/// [`CaptureParser::will_capture_rel`] determines the model:
/// declaration is [`will_capture_model`].
pub proof fn lemma_will_capture_model(a: CaptureParser, b: CaptureParser, key: Seq<u8>)
    requires
        CaptureParser::will_capture_rel(a, b, key),
    ensures
        b.model() == will_capture_model(a.model(), key),
{
    assert(b.model().bufs =~= will_capture_model(a.model(), key).bufs);
    assert(b.model().pending =~= will_capture_model(a.model(), key).pending);
    assert(b.model().pops =~= will_capture_model(a.model(), key).pops);
    assert(b.model().clears =~= will_capture_model(a.model(), key).clears);
    assert(b.model().rots =~= will_capture_model(a.model(), key).rots);
    assert(b.model() =~= will_capture_model(a.model(), key));
}

/// [`CaptureParser::capture_rel`] determines the model: commitment is
/// [`capture_model`].
pub proof fn lemma_capture_model(a: CaptureParser, b: CaptureParser, c: ChordView)
    requires
        CaptureParser::capture_rel(a, b, c),
    ensures
        b.model() == capture_model(a.model(), c),
{
    let lhs = b.model();
    let rhs = capture_model(a.model(), c);
    assert forall|k: Seq<u8>| lhs.bufs.dom().contains(k) == rhs.bufs.dom().contains(k) by {
        let b0 = b.buf_of(k);
        let a0 = a.buf_of(k);
    }
    assert forall|k: Seq<u8>| #[trigger] rhs.bufs.dom().contains(k) implies lhs.bufs[k]
        == rhs.bufs[k] by {
        let b0 = b.buf_of(k);
        let a0 = a.buf_of(k);
    }
    assert(lhs.bufs =~= rhs.bufs);
    assert(lhs.pending =~= rhs.pending);
    assert(lhs.pops =~= rhs.pops);
    assert(lhs.clears =~= rhs.clears);
    assert(lhs.rots =~= rhs.rots);
    assert(lhs =~= rhs);
}

/// [`CaptureParser::replay_mark_rel`] determines the model: a replay's
/// bookkeeping is [`replay_mark_model`].
pub proof fn lemma_replay_mark_model(
    a: CaptureParser,
    b: CaptureParser,
    key: Seq<u8>,
    sig: u8,
)
    requires
        CaptureParser::replay_mark_rel(a, b, key, sig),
    ensures
        b.model() == replay_mark_model(a.model(), key, sig),
{
    let lhs = b.model();
    let rhs = replay_mark_model(a.model(), key, sig);
    assert(lhs.bufs =~= rhs.bufs);
    assert(lhs.pending =~= rhs.pending);
    assert(lhs.pops =~= rhs.pops);
    assert(lhs.clears =~= rhs.clears);
    assert(lhs.rots =~= rhs.rots);
    assert(lhs =~= rhs);
}

/// [`CaptureParser::update_rel`] determines the model: the end-of-line
/// commit is [`update_model`].
pub proof fn lemma_update_model(a: CaptureParser, b: CaptureParser)
    requires
        CaptureParser::update_rel(a, b),
    ensures
        b.model() == update_model(a.model()),
{
    let lhs = b.model();
    let rhs = update_model(a.model());
    assert forall|k: Seq<u8>| lhs.bufs.dom().contains(k) == rhs.bufs.dom().contains(k) by {
        let b0 = b.buf_of(k);
        let a0 = a.buf_of(k);
        assert(b0 == CaptureParser::update_one(a, k));
    }
    assert forall|k: Seq<u8>| #[trigger] rhs.bufs.dom().contains(k) implies lhs.bufs[k]
        == rhs.bufs[k] by {
        let b0 = b.buf_of(k);
        let a0 = a.buf_of(k);
        assert(b0 == CaptureParser::update_one(a, k));
    }
    assert(lhs.bufs =~= rhs.bufs);
    assert(lhs.pending =~= rhs.pending);
    assert(lhs.pops =~= rhs.pops);
    assert(lhs.clears =~= rhs.clears);
    assert(lhs.rots =~= rhs.rots);
    assert(lhs =~= rhs);
}

} // verus!
