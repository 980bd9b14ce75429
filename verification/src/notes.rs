//! The note lexer: classifying a token as a note length or a pitch.
//!
//! A length token is a plain integer denominator `n` (worth `1/n` beats),
//! a dotted form `n.` (worth `3/(2n)` beats), a staccato form `n*` (worth
//! `1/(2n)` beats while occupying the full `1/n` slot), or a tie of digit
//! groups joined by `+` (worth the sum of the groups' reciprocals, kept as
//! an unreduced fraction).  A pitch token is a tone name from the twelve-tone
//! table followed by an octave digit; its frequency is `440 * 2^((k-49)/12)`
//! hertz for key number `k`, held in whole millihertz.  A single backslash
//! denotes a rest at frequency zero.

use vstd::prelude::*;

use crate::errors::ErrorKind;

verus! {

/// A classified note token: a length in beats (numerator, denominator,
/// staccato flag) or a pitch (frequency in millihertz; a rest is `0`).
pub enum Note {
    Len(u64, u64, bool),
    Pitch(u64),
}

/// `b` is an ASCII decimal digit.
pub open spec fn is_digit_byte(b: u8) -> bool {
    48 <= b <= 57
}

/// `s` is one or more ASCII digits.
pub open spec fn is_digits(s: Seq<u8>) -> bool {
    s.len() > 0 && forall|i: int| 0 <= i < s.len() ==> is_digit_byte(#[trigger] s[i])
}

/// The decimal value of a digit string.
pub open spec fn digits_val(s: Seq<u8>) -> int
    decreases s.len(),
{
    if s.len() == 0 {
        0
    } else {
        digits_val(s.drop_last()) * 10 + (s.last() - 48)
    }
}

/// Every byte is a digit or the tie joiner `+`.
pub open spec fn is_tie_shape(s: Seq<u8>) -> bool {
    s.len() > 0 && forall|i: int|
        0 <= i < s.len() ==> is_digit_byte(#[trigger] s[i]) || s[i] == 43
}

/// The `+`-separated groups of `s`, in order, empty groups included:
/// each byte extends the last group, each `+` opens a new one.
pub open spec fn split_plus(s: Seq<u8>) -> Seq<Seq<u8>>
    decreases s.len(),
{
    if s.len() == 0 {
        seq![Seq::empty()]
    } else if s.last() == 43 {
        split_plus(s.drop_last()).push(Seq::empty())
    } else {
        let r = split_plus(s.drop_last());
        r.update(r.len() - 1, r.last().push(s.last()))
    }
}

/// There is always at least one group.
pub proof fn lemma_split_plus_len(s: Seq<u8>)
    ensures
        split_plus(s).len() >= 1,
    decreases s.len(),
{
    if s.len() > 0 {
        lemma_split_plus_len(s.drop_last());
    }
}

/// Folds the `+`-separated groups into a beat fraction `num/den` by adding
/// `1/n` for each non-empty group of value `n`, keeping the fraction
/// unreduced.  A zero-valued group, or a numerator or denominator beyond
/// `u64::MAX`, yields nothing.
pub open spec fn tie_fold(groups: Seq<Seq<u8>>, num: int, den: int) -> Option<(int, int)>
    decreases groups.len(),
{
    if groups.len() == 0 {
        Some((num, den))
    } else if groups[0].len() == 0 {
        tie_fold(groups.drop_first(), num, den)
    } else {
        let n = digits_val(groups[0]);
        if n == 0 {
            None
        } else {
            let den2 = den * n;
            let num2 = num * n + den;
            if den2 > u64::MAX || num2 > u64::MAX {
                None
            } else {
                tie_fold(groups.drop_first(), num2, den2)
            }
        }
    }
}

/// The beat fraction of a length token: `Some((num, den, staccato))` when
/// the token is well formed and its fraction is representable and positive,
/// `None` otherwise.
pub open spec fn spec_length(s: Seq<u8>) -> Option<(int, int, bool)> {
    if is_digits(s) {
        let v = digits_val(s);
        if 1 <= v <= u64::MAX {
            Some((1, v, false))
        } else {
            None
        }
    } else if s.len() >= 2 && s.last() == 46 && is_digits(s.drop_last()) {
        let v = digits_val(s.drop_last());
        if 1 <= v && 2 * v <= u64::MAX {
            Some((3, 2 * v, false))
        } else {
            None
        }
    } else if s.len() >= 2 && s.last() == 42 && is_digits(s.drop_last()) {
        let v = digits_val(s.drop_last());
        if 1 <= v && 2 * v <= u64::MAX {
            Some((1, 2 * v, true))
        } else {
            None
        }
    } else if is_tie_shape(s) {
        match tie_fold(split_plus(s), 0, 1) {
            Some((num, den)) => if num >= 1 {
                Some((num, den, false))
            } else {
                None
            },
            None => None,
        }
    } else {
        None
    }
}

/// The interval of a tone name relative to G# of the same octave, from the
/// fixed seventeen-entry table (naturals plus sharp and flat spellings).
pub open spec fn interval_of(s: Seq<u8>) -> Option<int> {
    if s.len() == 1 {
        if s[0] == 99 {
            Some(-8)
        } else if s[0] == 100 {
            Some(-6)
        } else if s[0] == 101 {
            Some(-4)
        } else if s[0] == 102 {
            Some(-3)
        } else if s[0] == 103 {
            Some(-1)
        } else if s[0] == 97 {
            Some(1)
        } else if s[0] == 98 {
            Some(3)
        } else {
            None
        }
    } else if s.len() == 2 && s[1] == 35 {
        if s[0] == 99 {
            Some(-7)
        } else if s[0] == 100 {
            Some(-5)
        } else if s[0] == 102 {
            Some(-2)
        } else if s[0] == 103 {
            Some(0)
        } else if s[0] == 97 {
            Some(2)
        } else {
            None
        }
    } else if s.len() == 2 && s[1] == 98 {
        if s[0] == 100 {
            Some(-7)
        } else if s[0] == 101 {
            Some(-5)
        } else if s[0] == 103 {
            Some(-2)
        } else if s[0] == 97 {
            Some(0)
        } else if s[0] == 98 {
            Some(2)
        } else {
            None
        }
    } else {
        None
    }
}

/// The piano key number of a pitch token: a tone name followed by one
/// octave digit, so that `a4` is key `49`.
pub open spec fn pitch_key(s: Seq<u8>) -> Option<int> {
    if s.len() >= 2 && is_digit_byte(s.last()) {
        match interval_of(s.drop_last()) {
            Some(i) => Some(i + 12 * (s.last() - 48)),
            None => None,
        }
    } else {
        None
    }
}

/// Two to the power `e`.
pub open spec fn two_pow(e: nat) -> int
    decreases e,
{
    if e == 0 {
        1
    } else {
        2 * two_pow((e - 1) as nat)
    }
}

/// Millihertz of the twelve keys of the octave starting at A440: entry `r`
/// is `440000 * 2^(r/12)` rounded to the nearest whole millihertz.
pub open spec fn semitone_millis(r: int) -> int {
    if r == 0 {
        440000
    } else if r == 1 {
        466164
    } else if r == 2 {
        493883
    } else if r == 3 {
        523251
    } else if r == 4 {
        554365
    } else if r == 5 {
        587330
    } else if r == 6 {
        622254
    } else if r == 7 {
        659255
    } else if r == 8 {
        698456
    } else if r == 9 {
        739989
    } else if r == 10 {
        783991
    } else {
        830609
    }
}

/// The frequency of key `key` in millihertz under equal temperament with
/// A4 (key 49) at exactly 440 Hz: the semitone table entry shifted by whole
/// octaves, truncating to whole millihertz below A4's octave.
pub open spec fn freq_millis(key: int) -> int {
    let d = key - 49;
    let q = d / 12;
    let r = d % 12;
    if q >= 0 {
        semitone_millis(r) * two_pow(q as nat)
    } else {
        semitone_millis(r) / two_pow((-q) as nat)
    }
}

/// Classifying a token as a note, by the rules above: a token that starts
/// with a digit is a length or is invalid; a pitch-shaped token is a pitch;
/// a lone backslash is a rest; anything else is not a note.
pub open spec fn spec_note(s: Seq<u8>) -> Result<Option<Note>, ErrorKind> {
    if s.len() > 0 && is_digit_byte(s[0]) {
        match spec_length(s) {
            Some((num, den, st)) => Ok(Some(Note::Len(num as u64, den as u64, st))),
            None => Err(ErrorKind::InvalidLength),
        }
    } else {
        match pitch_key(s) {
            Some(k) => Ok(Some(Note::Pitch(freq_millis(k) as u64))),
            None => if s.len() == 1 && s[0] == 92 {
                Ok(Some(Note::Pitch(0)))
            } else {
                Ok(None)
            },
        }
    }
}

/// `s` is one or more digits: executable form of [`is_digits`].
pub fn all_digits(s: &[u8]) -> (r: bool)
    ensures
        r == is_digits(s@),
{
    if s.len() == 0 {
        return false;
    }
    let mut i: usize = 0;
    while i < s.len()
        invariant
            i <= s.len(),
            forall|j: int| 0 <= j < i ==> is_digit_byte(#[trigger] s@[j]),
        decreases s.len() - i,
    {
        let b = s[i];
        if !(48 <= b && b <= 57) {
            return false;
        }
        i += 1;
    }
    true
}

proof fn lemma_digits_val_nonneg(s: Seq<u8>)
    requires
        forall|i: int| 0 <= i < s.len() ==> is_digit_byte(#[trigger] s[i]),
    ensures
        digits_val(s) >= 0,
    decreases s.len(),
{
    if s.len() > 0 {
        lemma_digits_val_nonneg(s.drop_last());
    }
}

proof fn lemma_digits_val_extend_ge(s: Seq<u8>, t: Seq<u8>)
    requires
        forall|i: int| 0 <= i < t.len() ==> is_digit_byte(#[trigger] t[i]),
        s.is_prefix_of(t),
    ensures
        digits_val(t) >= digits_val(s),
    decreases t.len(),
{
    if s.len() == t.len() {
        assert(s =~= t);
    } else {
        assert(s.is_prefix_of(t.drop_last()));
        lemma_digits_val_extend_ge(s, t.drop_last());
        lemma_digits_val_nonneg(t.drop_last());
        assert(digits_val(t) == digits_val(t.drop_last()) * 10 + (t.last() - 48));
    }
}

/// The decimal value of a digit string, or nothing when the string is not
/// purely digits or its value does not fit.
pub fn parse_digits(s: &[u8]) -> (r: Option<u64>)
    ensures
        match r {
            Some(v) => is_digits(s@) && v == digits_val(s@),
            None => !is_digits(s@) || digits_val(s@) > u64::MAX,
        },
{
    if !all_digits(s) {
        return None;
    }
    let mut val: u64 = 0;
    let mut i: usize = 0;
    while i < s.len()
        invariant
            i <= s.len(),
            is_digits(s@),
            val == digits_val(s@.subrange(0, i as int)),
        decreases s.len() - i,
    {
        let d = s[i];
        let wide: u128 = (val as u128) * 10 + ((d - 48) as u128);
        proof {
            assert(s@.subrange(0, i + 1).drop_last() =~= s@.subrange(0, i as int));
            assert(digits_val(s@.subrange(0, i + 1)) == val * 10 + (d - 48));
        }
        if wide > u64::MAX as u128 {
            proof {
                assert(s@.subrange(0, i + 1).is_prefix_of(s@));
                lemma_digits_val_extend_ge(s@.subrange(0, i + 1), s@);
            }
            return None;
        }
        val = wide as u64;
        i += 1;
    }
    proof {
        assert(s@.subrange(0, s@.len() as int) =~= s@);
    }
    Some(val)
}

/// Every byte is a digit or `+`: executable form of [`is_tie_shape`].
fn tie_shaped(s: &[u8]) -> (r: bool)
    ensures
        r == is_tie_shape(s@),
{
    if s.len() == 0 {
        return false;
    }
    let mut i: usize = 0;
    while i < s.len()
        invariant
            i <= s.len(),
            forall|j: int| 0 <= j < i ==> is_digit_byte(#[trigger] s@[j]) || s@[j] == 43,
        decreases s.len() - i,
    {
        let b = s[i];
        if !((48 <= b && b <= 57) || b == 43) {
            return false;
        }
        i += 1;
    }
    true
}

/// In a tie-shaped token every group consists of digits only.
proof fn lemma_split_plus_digits(s: Seq<u8>)
    requires
        forall|i: int| 0 <= i < s.len() ==> is_digit_byte(#[trigger] s[i]) || s[i] == 43,
    ensures
        forall|g: int, j: int|
            0 <= g < split_plus(s).len() && 0 <= j < split_plus(s)[g].len() ==> is_digit_byte(
                #[trigger] split_plus(s)[g][j],
            ),
    decreases s.len(),
{
    if s.len() > 0 {
        lemma_split_plus_digits(s.drop_last());
        lemma_split_plus_len(s.drop_last());
    }
}

/// Parses a tie token into its beat fraction.
fn parse_tie(token: &[u8]) -> (r: Result<(u64, u64), ErrorKind>)
    requires
        is_tie_shape(token@),
    ensures
        match r {
            Ok((num, den)) => {
                &&& tie_fold(split_plus(token@), 0, 1) == Some((num as int, den as int))
                &&& num >= 1
                &&& den >= 1
            },
            Err(e) => {
                &&& e == ErrorKind::InvalidLength
                &&& match tie_fold(split_plus(token@), 0, 1) {
                    Some((num, _)) => num < 1,
                    None => true,
                }
            },
        },
{
    let ghost whole = split_plus(token@);
    let mut groups: Vec<Vec<u8>> = Vec::new();
    let mut cur: Vec<u8> = Vec::new();
    let mut i: usize = 0;
    while i < token.len()
        invariant
            i <= token.len(),
            groups@.map_values(|g: Vec<u8>| g@).push(cur@) =~= split_plus(
                token@.subrange(0, i as int),
            ),
        decreases token.len() - i,
    {
        let b = token[i];
        proof {
            assert(token@.subrange(0, i + 1).drop_last() =~= token@.subrange(0, i as int));
            assert(token@.subrange(0, i + 1).last() == token@[i as int]);
        }
        if b == 43 {
            groups.push(cur);
            cur = Vec::new();
            proof {
                assert(groups@.map_values(|g: Vec<u8>| g@).push(cur@) =~= split_plus(
                    token@.subrange(0, i + 1),
                ));
            }
        } else {
            cur.push(b);
            proof {
                let prev = split_plus(token@.subrange(0, i as int));
                assert(prev.last() == cur@.drop_last());
                assert(groups@.map_values(|g: Vec<u8>| g@).push(cur@) =~= prev.update(
                    prev.len() - 1,
                    prev.last().push(token@[i as int]),
                ));
                assert(groups@.map_values(|g: Vec<u8>| g@).push(cur@) =~= split_plus(
                    token@.subrange(0, i + 1),
                ));
            }
        }
        i += 1;
    }
    groups.push(cur);
    proof {
        assert(token@.subrange(0, token@.len() as int) =~= token@);
        assert(groups@.map_values(|g: Vec<u8>| g@) =~= whole);
        lemma_split_plus_digits(token@);
    }
    let mut num: u64 = 0;
    let mut den: u64 = 1;
    let mut gi: usize = 0;
    proof {
        assert(whole.subrange(0, whole.len() as int) =~= whole);
    }
    while gi < groups.len()
        invariant
            whole == split_plus(token@),
            gi <= groups.len(),
            den >= 1,
            groups@.map_values(|g: Vec<u8>| g@) =~= whole,
            forall|g: int, j: int|
                0 <= g < whole.len() && 0 <= j < whole[g].len() ==> is_digit_byte(
                    #[trigger] whole[g][j],
                ),
            tie_fold(whole.subrange(gi as int, whole.len() as int), num as int, den as int)
                == tie_fold(whole, 0, 1),
        decreases groups.len() - gi,
    {
        let ghost rest = whole.subrange(gi as int, whole.len() as int);
        proof {
            assert(rest.drop_first() =~= whole.subrange(gi + 1, whole.len() as int));
            assert(rest[0] == whole[gi as int]);
            assert(groups@[gi as int]@ == whole[gi as int]);
        }
        let g = &groups[gi];
        if g.len() == 0 {
            gi += 1;
            continue ;
        }
        proof {
            assert(is_digits(groups@[gi as int]@));
        }
        match parse_digits(g.as_slice()) {
            None => {
                proof {
                    let n = digits_val(whole[gi as int]);
                    assert(n > u64::MAX);
                    assert(den as int * n >= 1 * n) by (nonlinear_arith)
                        requires
                            den >= 1,
                            n >= 0,
                    ;
                    assert(tie_fold(rest, num as int, den as int) is None);
                }
                return Err(ErrorKind::InvalidLength);
            },
            Some(v) => {
                if v == 0 {
                    proof {
                        assert(digits_val(whole[gi as int]) == 0);
                        assert(tie_fold(rest, num as int, den as int) is None);
                    }
                    return Err(ErrorKind::InvalidLength);
                }
                proof {
                    assert((den as u128) * (v as u128) == (den as int) * (v as int)
                        && (den as int) * (v as int) < u128::MAX) by (nonlinear_arith)
                        requires
                            den <= u64::MAX,
                            v <= u64::MAX,
                    ;
                    assert((num as u128) * (v as u128) == (num as int) * (v as int)
                        && (num as int) * (v as int) + (den as int) < u128::MAX)
                        by (nonlinear_arith)
                        requires
                            num <= u64::MAX,
                            v <= u64::MAX,
                            den <= u64::MAX,
                    ;
                }
                let den2: u128 = (den as u128) * (v as u128);
                let num2: u128 = (num as u128) * (v as u128) + (den as u128);
                if den2 > u64::MAX as u128 || num2 > u64::MAX as u128 {
                    proof {
                        assert(tie_fold(rest, num as int, den as int) is None);
                    }
                    return Err(ErrorKind::InvalidLength);
                }
                proof {
                    assert((den as int) * (v as int) >= 1) by (nonlinear_arith)
                        requires
                            den >= 1,
                            v >= 1,
                    ;
                }
                num = num2 as u64;
                den = den2 as u64;
                proof {
                    assert(tie_fold(rest.drop_first(), num as int, den as int) == tie_fold(
                        whole,
                        0,
                        1,
                    ));
                }
            },
        }
        gi += 1;
    }
    proof {
        assert(whole.subrange(whole.len() as int, whole.len() as int) =~= Seq::<Seq<u8>>::empty());
    }
    if num >= 1 {
        Ok((num, den))
    } else {
        Err(ErrorKind::InvalidLength)
    }
}

/// Parses a length token into its beat fraction and staccato flag.
pub fn parse_length(token: &[u8]) -> (r: Result<(u64, u64, bool), ErrorKind>)
    ensures
        match r {
            Ok((num, den, st)) => spec_length(token@) == Some((num as int, den as int, st)) && num
                >= 1 && den >= 1,
            Err(e) => e == ErrorKind::InvalidLength && spec_length(token@) is None,
        },
{
    if all_digits(token) {
        match parse_digits(token) {
            Some(v) => {
                if v >= 1 {
                    Ok((1, v, false))
                } else {
                    Err(ErrorKind::InvalidLength)
                }
            },
            None => Err(ErrorKind::InvalidLength),
        }
    } else if token.len() >= 2 && token[token.len() - 1] == 46 && all_digits(
        &token[0..token.len() - 1],
    ) {
        proof {
            assert(token@.subrange(0, token@.len() - 1) =~= token@.drop_last());
        }
        match parse_digits(&token[0..token.len() - 1]) {
            Some(v) => {
                if v >= 1 && v <= u64::MAX / 2 {
                    Ok((3, 2 * v, false))
                } else {
                    Err(ErrorKind::InvalidLength)
                }
            },
            None => Err(ErrorKind::InvalidLength),
        }
    } else if token.len() >= 2 && token[token.len() - 1] == 42 && all_digits(
        &token[0..token.len() - 1],
    ) {
        proof {
            assert(token@.subrange(0, token@.len() - 1) =~= token@.drop_last());
        }
        match parse_digits(&token[0..token.len() - 1]) {
            Some(v) => {
                if v >= 1 && v <= u64::MAX / 2 {
                    Ok((1, 2 * v, true))
                } else {
                    Err(ErrorKind::InvalidLength)
                }
            },
            None => Err(ErrorKind::InvalidLength),
        }
    } else if tie_shaped(token) {
        match parse_tie(token) {
            Ok((num, den)) => Ok((num, den, false)),
            Err(e) => Err(e),
        }
    } else {
        Err(ErrorKind::InvalidLength)
    }
}

/// Parses a pitch token into its piano key number.
pub fn parse_pitch_key(token: &[u8]) -> (r: Option<i32>)
    ensures
        match r {
            Some(k) => pitch_key(token@) == Some(k as int) && -8 <= k <= 111,
            None => pitch_key(token@) is None,
        },
{
    if token.len() < 2 {
        return None;
    }
    let last = token[token.len() - 1];
    if !(48 <= last && last <= 57) {
        return None;
    }
    let octave: i32 = (last - 48) as i32;
    proof {
        assert(token@.drop_last().len() == token@.len() - 1);
        assert(forall|j: int|
            0 <= j < token@.len() - 1 ==> #[trigger] token@.drop_last()[j] == token@[j]);
    }
    let interval: i32 = if token.len() == 2 {
        let t = token[0];
        if t == 99 {
            -8
        } else if t == 100 {
            -6
        } else if t == 101 {
            -4
        } else if t == 102 {
            -3
        } else if t == 103 {
            -1
        } else if t == 97 {
            1
        } else if t == 98 {
            3
        } else {
            return None;
        }
    } else if token.len() == 3 && token[1] == 35 {
        let t = token[0];
        if t == 99 {
            -7
        } else if t == 100 {
            -5
        } else if t == 102 {
            -2
        } else if t == 103 {
            0
        } else if t == 97 {
            2
        } else {
            return None;
        }
    } else if token.len() == 3 && token[1] == 98 {
        let t = token[0];
        if t == 100 {
            -7
        } else if t == 101 {
            -5
        } else if t == 103 {
            -2
        } else if t == 97 {
            0
        } else if t == 98 {
            2
        } else {
            return None;
        }
    } else {
        return None;
    };
    Some(interval + 12 * octave)
}

proof fn lemma_two_pow_small()
    ensures
        two_pow(0) == 1,
        two_pow(1) == 2,
        two_pow(2) == 4,
        two_pow(3) == 8,
        two_pow(4) == 16,
        two_pow(5) == 32,
{
    assert(two_pow(0) == 1);
    assert(two_pow(1) == 2);
    assert(two_pow(2) == 4);
    assert(two_pow(3) == 8);
    assert(two_pow(4) == 16);
    assert(two_pow(5) == 32);
}

/// The frequency of a piano key in millihertz, computed from the semitone
/// table shifted by whole octaves.
pub fn key_frequency_millis(key: i32) -> (r: u64)
    requires
        -8 <= key <= 111,
    ensures
        r as int == freq_millis(key as int),
{
    let d: i32 = key - 49;
    let (q, rr): (i32, i32) = if d >= 0 {
        let du: u32 = d as u32;
        ((du / 12) as i32, (du % 12) as i32)
    } else {
        let m: u32 = (-d) as u32;
        let qm: i32 = ((m + 11) / 12) as i32;
        (-qm, d + 12 * qm)
    };
    proof {
        vstd::arithmetic::div_mod::lemma_fundamental_div_mod_converse(
            d as int,
            12,
            q as int,
            rr as int,
        );
        assert(q as int == (d as int) / 12);
        assert(rr as int == (d as int) % 12);
        lemma_two_pow_small();
    }
    let base: u64 = if rr == 0 {
        440000
    } else if rr == 1 {
        466164
    } else if rr == 2 {
        493883
    } else if rr == 3 {
        523251
    } else if rr == 4 {
        554365
    } else if rr == 5 {
        587330
    } else if rr == 6 {
        622254
    } else if rr == 7 {
        659255
    } else if rr == 8 {
        698456
    } else if rr == 9 {
        739989
    } else if rr == 10 {
        783991
    } else {
        830609
    };
    let qa: i32 = if q >= 0 {
        q
    } else {
        -q
    };
    let mut p: u64 = 1;
    let mut i: i32 = 0;
    while i < qa
        invariant
            0 <= i <= qa,
            qa <= 5,
            p == two_pow(i as nat),
            p <= 16 || i == qa,
        decreases qa - i,
    {
        proof {
            lemma_two_pow_small();
        }
        p = p * 2;
        i += 1;
        proof {
            if i < qa {
                assert(p <= 16);
            }
        }
    }
    if q >= 0 {
        base * p
    } else {
        base / p
    }
}

/// Parses note tokens and memoizes computed frequencies by key number.
pub struct NoteParser {
    notes: Vec<(i32, u64)>,
}

impl NoteParser {
    /// Every memoized entry agrees with [`freq_millis`].
    pub closed spec fn wf(&self) -> bool {
        forall|i: int|
            0 <= i < self.notes@.len() ==> (#[trigger] self.notes@[i]).1 as int == freq_millis(
                self.notes@[i].0 as int,
            )
    }

    pub fn new() -> (r: NoteParser)
        ensures
            r.wf(),
    {
        NoteParser { notes: Vec::new() }
    }

    /// The frequency of `key` in millihertz.  The result is determined by
    /// the key alone — `freq_millis(key)` — whether it is computed afresh
    /// or found in the memo table, and the table never contradicts it.
    pub fn frequency(&mut self, key: i32) -> (r: u64)
        requires
            old(self).wf(),
            -8 <= key <= 111,
        ensures
            final(self).wf(),
            r as int == freq_millis(key as int),
    {
        let mut i: usize = 0;
        while i < self.notes.len()
            invariant
                old(self).wf(),
                *self == *old(self),
                i <= self.notes.len(),
            decreases self.notes.len() - i,
        {
            if self.notes[i].0 == key {
                return self.notes[i].1;
            }
            i += 1;
        }
        let f = key_frequency_millis(key);
        self.notes.push((key, f));
        f
    }

    /// Classifies `token` as a note length, a pitch, a rest, or none of
    /// these, exactly as [`spec_note`] says.
    pub fn try_parse(&mut self, token: &[u8]) -> (r: Result<Option<Note>, ErrorKind>)
        requires
            old(self).wf(),
        ensures
            final(self).wf(),
            r == spec_note(token@),
            match r {
                Ok(opt) => match opt {
                    Some(n) => match n {
                        Note::Len(num, den, _) => num >= 1 && den >= 1,
                        Note::Pitch(_) => true,
                    },
                    None => true,
                },
                Err(_) => true,
            },
    {
        if token.len() == 0 {
            return Ok(None);
        }
        let b = token[0];
        if 48 <= b && b <= 57 {
            match parse_length(token) {
                Ok((num, den, st)) => Ok(Some(Note::Len(num, den, st))),
                Err(e) => Err(e),
            }
        } else {
            match parse_pitch_key(token) {
                Some(k) => {
                    let f = self.frequency(k);
                    Ok(Some(Note::Pitch(f)))
                },
                None => {
                    if token.len() == 1 && b == 92 {
                        Ok(Some(Note::Pitch(0)))
                    } else {
                        Ok(None)
                    }
                },
            }
        }
    }
}

} // verus!
