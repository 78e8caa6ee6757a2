//! Pitches and intervals.
//!
//! A [`Note`] is an absolute pitch: a non-negative count of semitones above
//! C in octave 0, so that `value % 12` is the pitch class and `value / 12`
//! the octave.  An [`Interval`] is a non-negative semitone distance.

use vstd::arithmetic::div_mod::lemma_fundamental_div_mod;
use vstd::arithmetic::div_mod::lemma_fundamental_div_mod_converse;
use vstd::prelude::*;
use vstd::string::StrSliceExecFns;
use vstd::string::StringExecFns;
use vstd::utf8::char_u32_cast;

verus! {

/// The failures the library can report: malformed note text, a pitch
/// arithmetic result that would fall below C0, and capo preconditions.
#[derive(Debug, PartialEq, Eq, Structural, Clone, Copy)]
pub enum MusicError {
    /// The text does not begin with a recognized note name.
    InvalidNoteName,
    /// The octave part is missing, non-numeric, has trailing characters,
    /// or yields a pitch value too large to represent.
    InvalidOctave,
    /// Subtracting an interval would produce a negative pitch.
    PitchOutOfRange,
    /// A capo was added before the instrument was strung.
    CapoBeforeTuning,
    /// A capo was placed above the instrument's last fret.
    CapoFretTooHigh,
}

/// An absolute pitch, as semitones above C0.
#[derive(Debug, PartialEq, Eq, Structural, Clone, Copy)]
pub struct Note {
    pub value: u32,
}

/// A non-negative distance between pitches, in semitones.
#[derive(Debug, PartialEq, Eq, Structural, Clone, Copy)]
pub struct Interval {
    pub semitones: u32,
}

impl Interval {
    /// Creates the interval of `semitones` semitones.
    pub fn new(semitones: u32) -> (r: Self)
        ensures
            r.semitones == semitones,
    {
        Interval { semitones }
    }

    /// The semitone: the unit step of one semitone.
    pub fn semitone() -> (r: Self)
        ensures
            r.semitones == 1,
    {
        Interval { semitones: 1 }
    }

    /// The whole tone: the step of two semitones.
    pub fn tone() -> (r: Self)
        ensures
            r.semitones == 2,
    {
        Interval { semitones: 2 }
    }
}

/// The absolute semitone distance between two pitch values.
pub open spec fn distance(a: int, b: int) -> int {
    if a >= b {
        a - b
    } else {
        b - a
    }
}

impl Note {
    /// Creates the pitch `value` semitones above C0.
    pub fn new(value: u32) -> (r: Self)
        ensures
            r.value == value,
    {
        Note { value }
    }

    /// Reduces this pitch to its pitch class (the same note in octave 0).
    pub fn disregard_octave(self) -> (r: Self)
        ensures
            r.value == self.value % 12,
    {
        Note { value: self.value % 12 }
    }

    /// Transposes this pitch up by `interval`.
    pub fn add_interval(self, interval: Interval) -> (r: Self)
        requires
            self.value + interval.semitones <= u32::MAX,
        ensures
            r.value == self.value + interval.semitones,
    {
        Note { value: self.value + interval.semitones }
    }

    /// Transposes this pitch down by `interval`; fails with
    /// [`MusicError::PitchOutOfRange`] when the result would be negative,
    /// since no pitch below C0 is representable.
    pub fn sub_interval(self, interval: Interval) -> (r: Result<Self, MusicError>)
        ensures
            interval.semitones <= self.value ==> r == Ok::<Note, MusicError>(
                Note { value: (self.value - interval.semitones) as u32 },
            ),
            interval.semitones > self.value ==> r == Err::<Note, MusicError>(
                MusicError::PitchOutOfRange,
            ),
    {
        if interval.semitones <= self.value {
            Ok(Note { value: self.value - interval.semitones })
        } else {
            Err(MusicError::PitchOutOfRange)
        }
    }

    /// The absolute semitone distance between `self` and `other`;
    /// symmetric in its two operands.
    pub fn interval_to(self, other: Note) -> (r: Interval)
        ensures
            r.semitones == distance(self.value as int, other.value as int),
    {
        if self.value >= other.value {
            Interval { semitones: self.value - other.value }
        } else {
            Interval { semitones: other.value - self.value }
        }
    }

    /// Starts the unbounded ascending chromatic sequence at this pitch.
    pub fn into_iter(self) -> (r: NoteIter)
        ensures
            r.note == self,
            r.first,
    {
        NoteIter { note: self, first: true }
    }
}

/// Distance between two pitches is symmetric: `a.interval_to(b)` and
/// `b.interval_to(a)` give the same interval.
pub proof fn lemma_distance_symmetric(a: Note, b: Note)
    ensures
        distance(a.value as int, b.value as int) == distance(b.value as int, a.value as int),
{
}

/// The ascending chromatic sequence from a starting pitch: yields the
/// start itself, then one semitone more at every step, without bound.
pub struct NoteIter {
    pub note: Note,
    pub first: bool,
}

impl NoteIter {
    /// Yields the next pitch of the sequence.  Never exhausted: the
    /// result is `Some` for every representable pitch.
    pub fn next(&mut self) -> (r: Option<Note>)
        requires
            old(self).first || old(self).note.value < u32::MAX,
        ensures
            old(self).first ==> r == Some(old(self).note) && final(self).note == old(self).note,
            !old(self).first ==> r == Some(Note { value: (old(self).note.value + 1) as u32 })
                && final(self).note.value == old(self).note.value + 1,
            !final(self).first,
    {
        if self.first {
            self.first = false;
            Some(self.note)
        } else {
            self.note.value = self.note.value + 1;
            Some(self.note)
        }
    }
}

/// Whether `c` is an ASCII decimal digit.
pub open spec fn is_digit(c: char) -> bool {
    48 <= c as u32 && c as u32 <= 57
}

/// The numeric value of an ASCII digit.
pub open spec fn digit_val(c: char) -> int {
    c as u32 - 48
}

/// The ASCII digit for a value below ten.
pub open spec fn digit_char(d: int) -> char
    recommends
        0 <= d < 10,
{
    if d == 0 {
        '0'
    } else if d == 1 {
        '1'
    } else if d == 2 {
        '2'
    } else if d == 3 {
        '3'
    } else if d == 4 {
        '4'
    } else if d == 5 {
        '5'
    } else if d == 6 {
        '6'
    } else if d == 7 {
        '7'
    } else if d == 8 {
        '8'
    } else {
        '9'
    }
}

/// Whether every character of `s` is an ASCII decimal digit.
pub open spec fn all_digits(s: Seq<char>) -> bool {
    forall|i: int| 0 <= i < s.len() ==> is_digit(#[trigger] s[i])
}

/// The value of a digit string read as a decimal number.
pub open spec fn digits_val(s: Seq<char>) -> int
    decreases s.len(),
{
    if s.len() == 0 {
        0
    } else {
        digits_val(s.drop_last()) * 10 + digit_val(s.last())
    }
}

/// The canonical decimal rendering of `n`: no sign, no leading zeros
/// (except for the single digit of zero itself).
pub open spec fn dec_str(n: nat) -> Seq<char>
    decreases n,
{
    if n < 10 {
        seq![digit_char(n as int)]
    } else {
        dec_str(n / 10) + seq![digit_char((n % 10) as int)]
    }
}

/// The canonical (flat-spelled) name of a pitch class: one of
/// C, Db, D, Eb, E, F, Gb, G, Ab, A, Bb, B.
pub open spec fn pc_name(pc: int) -> Seq<char>
    recommends
        0 <= pc < 12,
{
    if pc == 0 {
        seq!['C']
    } else if pc == 1 {
        seq!['D', 'b']
    } else if pc == 2 {
        seq!['D']
    } else if pc == 3 {
        seq!['E', 'b']
    } else if pc == 4 {
        seq!['E']
    } else if pc == 5 {
        seq!['F']
    } else if pc == 6 {
        seq!['G', 'b']
    } else if pc == 7 {
        seq!['G']
    } else if pc == 8 {
        seq!['A', 'b']
    } else if pc == 9 {
        seq!['A']
    } else if pc == 10 {
        seq!['B', 'b']
    } else {
        seq!['B']
    }
}

/// The canonical text of the pitch with value `v`: its pitch-class name
/// followed by its octave in decimal.
pub open spec fn note_str(v: nat) -> Seq<char> {
    pc_name((v % 12) as int) + dec_str(v / 12)
}

/// The pitch class of a natural (unflattened) note-name letter.
pub open spec fn natural_class(c: char) -> Option<int> {
    if c == 'C' {
        Some(0int)
    } else if c == 'D' {
        Some(2int)
    } else if c == 'E' {
        Some(4int)
    } else if c == 'F' {
        Some(5int)
    } else if c == 'G' {
        Some(7int)
    } else if c == 'A' {
        Some(9int)
    } else if c == 'B' {
        Some(11int)
    } else {
        None
    }
}

/// The pitch class of a flattened note-name letter, for the five letters
/// whose flat is a canonical name (Db, Eb, Gb, Ab, Bb).
pub open spec fn flat_class(c: char) -> Option<int> {
    if c == 'D' {
        Some(1int)
    } else if c == 'E' {
        Some(3int)
    } else if c == 'G' {
        Some(6int)
    } else if c == 'A' {
        Some(8int)
    } else if c == 'B' {
        Some(10int)
    } else {
        None
    }
}

/// Splits the leading note-name token off `s`, longest match first:
/// the pitch class it names and the number of characters it covers.
pub open spec fn name_split(s: Seq<char>) -> Option<(int, int)> {
    if s.len() == 0 {
        None
    } else if s.len() >= 2 && s[1] == 'b' && flat_class(s[0]) is Some {
        match flat_class(s[0]) {
            Some(pc) => Some((pc, 2int)),
            None => None,
        }
    } else {
        match natural_class(s[0]) {
            Some(pc) => Some((pc, 1int)),
            None => None,
        }
    }
}

/// The pitch value denoted by `s` under the grammar
/// `NoteName Octave` (whole-string match, octave in decimal),
/// or `None` when `s` is malformed.
pub open spec fn parse_val(s: Seq<char>) -> Option<int> {
    match name_split(s) {
        None => None,
        Some(split) => {
            let rest = s.subrange(split.1, s.len() as int);
            if rest.len() >= 1 && all_digits(rest) {
                Some(split.0 + 12 * digits_val(rest))
            } else {
                None
            }
        },
    }
}

proof fn lemma_digits_val_nonneg(s: Seq<char>)
    requires
        all_digits(s),
    ensures
        digits_val(s) >= 0,
    decreases s.len(),
{
    if s.len() > 0 {
        lemma_digits_val_nonneg(s.drop_last());
    }
}

/// A decimal value never shrinks as more digits are read.
proof fn lemma_digits_val_prefix(s: Seq<char>, m: int)
    requires
        all_digits(s),
        0 <= m <= s.len(),
    ensures
        digits_val(s) >= digits_val(s.take(m)),
    decreases s.len() - m,
{
    if m == s.len() {
        assert(s.take(m) =~= s);
    } else {
        lemma_digits_val_prefix(s, m + 1);
        assert(s.take(m + 1).drop_last() =~= s.take(m));
        assert(s.take(m + 1).last() == s[m]);
        lemma_digits_val_nonneg(s.take(m));
    }
}

impl Note {
    /// Parses note text of the form `NoteName Octave` (for example `Eb3`):
    /// a case-sensitive canonical flat-spelled name, then one or more
    /// decimal digits, with nothing before, between or after.  Reports
    /// [`MusicError::InvalidNoteName`] when no name token leads the text,
    /// and [`MusicError::InvalidOctave`] when the octave is missing,
    /// non-numeric, followed by trailing characters, or too large for the
    /// pitch to be representable.
    pub fn parse(s: &str) -> (r: Result<Note, MusicError>)
        ensures
            match parse_val(s@) {
                Some(v) => if v <= u32::MAX {
                    r == Ok::<Note, MusicError>(Note { value: v as u32 })
                } else {
                    r == Err::<Note, MusicError>(MusicError::InvalidOctave)
                },
                None => match name_split(s@) {
                    None => r == Err::<Note, MusicError>(MusicError::InvalidNoteName),
                    Some(_) => r == Err::<Note, MusicError>(MusicError::InvalidOctave),
                },
            },
    {
        let len = s.unicode_len();
        if len == 0 {
            return Err(MusicError::InvalidNoteName);
        }
        let c0 = s.get_char(0);
        let flat = len >= 2 && s.get_char(1) == 'b' && (c0 == 'D' || c0 == 'E' || c0 == 'G'
            || c0 == 'A' || c0 == 'B');
        let pc: u32;
        let k: usize;
        if flat {
            pc = if c0 == 'D' {
                1
            } else if c0 == 'E' {
                3
            } else if c0 == 'G' {
                6
            } else if c0 == 'A' {
                8
            } else {
                10
            };
            k = 2;
        } else {
            let natural: u32 = if c0 == 'C' {
                0
            } else if c0 == 'D' {
                2
            } else if c0 == 'E' {
                4
            } else if c0 == 'F' {
                5
            } else if c0 == 'G' {
                7
            } else if c0 == 'A' {
                9
            } else if c0 == 'B' {
                11
            } else {
                return Err(MusicError::InvalidNoteName);
            };
            pc = natural;
            k = 1;
        }
        if k >= len {
            // the name token fills the whole text: the octave is missing
            return Err(MusicError::InvalidOctave);
        }
        let ghost rest = s@.subrange(k as int, len as int);
        let mut acc: u64 = 0;
        let mut i: usize = k;
        while i < len
            invariant
                k <= i <= len,
                len == s@.len(),
                name_split(s@) == Some((pc as int, k as int)),
                rest == s@.subrange(k as int, len as int),
                all_digits(rest.take(i - k)),
                acc == digits_val(rest.take(i - k)),
                acc <= u32::MAX,
                pc < 12,
            decreases len - i,
        {
            let c = s.get_char(i);
            let cv = c as u32;
            if cv < 48 || cv > 57 {
                proof {
                    assert(rest[i - k] == c);
                    assert(!all_digits(rest));
                }
                return Err(MusicError::InvalidOctave);
            }
            let d = cv - 48;
            acc = acc * 10 + (d as u64);
            proof {
                assert(rest.take(i - k + 1).drop_last() =~= rest.take(i - k));
                assert(rest.take(i - k + 1).last() == rest[i - k]);
                assert(rest[i - k] == s@[i as int]);
            }
            if acc > u32::MAX as u64 {
                proof {
                    if all_digits(rest) {
                        lemma_digits_val_prefix(rest, i - k + 1);
                    }
                }
                return Err(MusicError::InvalidOctave);
            }
            i = i + 1;
        }
        proof {
            assert(rest.take(len - k) =~= rest);
        }
        let total: u64 = (pc as u64) + 12 * acc;
        if total > u32::MAX as u64 {
            return Err(MusicError::InvalidOctave);
        }
        Ok(Note { value: total as u32 })
    }
}

fn digit_literal(d: u32) -> (r: &'static str)
    requires
        d < 10,
    ensures
        r@ == seq![digit_char(d as int)],
{
    let r: &'static str = if d == 0 {
        "0"
    } else if d == 1 {
        "1"
    } else if d == 2 {
        "2"
    } else if d == 3 {
        "3"
    } else if d == 4 {
        "4"
    } else if d == 5 {
        "5"
    } else if d == 6 {
        "6"
    } else if d == 7 {
        "7"
    } else if d == 8 {
        "8"
    } else {
        "9"
    };
    proof {
        reveal_strlit("0");
        reveal_strlit("1");
        reveal_strlit("2");
        reveal_strlit("3");
        reveal_strlit("4");
        reveal_strlit("5");
        reveal_strlit("6");
        reveal_strlit("7");
        reveal_strlit("8");
        reveal_strlit("9");
        assert(r@ =~= seq![digit_char(d as int)]);
    }
    r
}

fn pc_literal(pc: u32) -> (r: &'static str)
    requires
        pc < 12,
    ensures
        r@ == pc_name(pc as int),
{
    let r: &'static str = if pc == 0 {
        "C"
    } else if pc == 1 {
        "Db"
    } else if pc == 2 {
        "D"
    } else if pc == 3 {
        "Eb"
    } else if pc == 4 {
        "E"
    } else if pc == 5 {
        "F"
    } else if pc == 6 {
        "Gb"
    } else if pc == 7 {
        "G"
    } else if pc == 8 {
        "Ab"
    } else if pc == 9 {
        "A"
    } else if pc == 10 {
        "Bb"
    } else {
        "B"
    };
    proof {
        reveal_strlit("C");
        reveal_strlit("Db");
        reveal_strlit("D");
        reveal_strlit("Eb");
        reveal_strlit("E");
        reveal_strlit("F");
        reveal_strlit("Gb");
        reveal_strlit("G");
        reveal_strlit("Ab");
        reveal_strlit("A");
        reveal_strlit("Bb");
        reveal_strlit("B");
        assert(r@ =~= pc_name(pc as int));
    }
    r
}

/// Appends the canonical decimal rendering of `n` to `out`.
pub(crate) fn push_dec(out: &mut String, n: u64)
    ensures
        final(out)@ == old(out)@ + dec_str(n as nat),
    decreases n,
{
    if n >= 10 {
        push_dec(out, n / 10);
    }
    out.append(digit_literal((n % 10) as u32));
    proof {
        assert(final(out)@ =~= old(out)@ + dec_str(n as nat));
    }
}

impl Note {
    /// The canonical flat-spelled name of this pitch's class, with no
    /// octave: one of C, Db, D, Eb, E, F, Gb, G, Ab, A, Bb, B.
    pub fn name_string(&self) -> (r: String)
        ensures
            r@ == pc_name((self.value % 12) as int),
    {
        String::from_str(pc_literal(self.value % 12))
    }

    /// The canonical text of this pitch: pitch-class name then octave,
    /// for example `Db3`.  Inverse of [`Note::parse`] on canonical text.
    pub fn note_string(&self) -> (r: String)
        ensures
            r@ == note_str(self.value as nat),
    {
        let mut out = String::from_str(pc_literal(self.value % 12));
        push_dec(&mut out, (self.value / 12) as u64);
        out
    }
}

proof fn lemma_dec_str_shape(n: nat)
    ensures
        dec_str(n).len() >= 1,
        all_digits(dec_str(n)),
        n > 0 ==> dec_str(n)[0] != '0',
        is_digit(dec_str(n)[0]),
    decreases n,
{
    if n >= 10 {
        lemma_dec_str_shape(n / 10);
        assert forall|i: int| 0 <= i < dec_str(n).len() implies is_digit(#[trigger] dec_str(n)[i]) by {
            if i < dec_str(n / 10).len() {
                assert(dec_str(n)[i] == dec_str(n / 10)[i]);
            } else {
                assert(dec_str(n)[i] == digit_char((n % 10) as int));
            }
        }
    }
}

/// Every ASCII digit is read back from the character that renders it.
proof fn lemma_digit_char_of_val(c: char)
    requires
        is_digit(c),
    ensures
        digit_char(digit_val(c)) == c,
        0 <= digit_val(c) < 10,
{
    char_u32_cast(c, c as u32);
    char_u32_cast('0', '0' as u32);
    char_u32_cast('1', '1' as u32);
    char_u32_cast('2', '2' as u32);
    char_u32_cast('3', '3' as u32);
    char_u32_cast('4', '4' as u32);
    char_u32_cast('5', '5' as u32);
    char_u32_cast('6', '6' as u32);
    char_u32_cast('7', '7' as u32);
    char_u32_cast('8', '8' as u32);
    char_u32_cast('9', '9' as u32);
}

proof fn lemma_dec_str_val(n: nat)
    ensures
        digits_val(dec_str(n)) == n,
    decreases n,
{
    if n < 10 {
        assert(dec_str(n).drop_last() =~= Seq::<char>::empty());
        assert(digits_val(Seq::<char>::empty()) == 0);
        assert(dec_str(n).last() == digit_char(n as int));
        assert(digit_val(digit_char(n as int)) == n as int);
    } else {
        lemma_dec_str_val(n / 10);
        assert(dec_str(n).drop_last() =~= dec_str(n / 10));
        assert(dec_str(n).last() == digit_char((n % 10) as int));
    }
}

proof fn lemma_digits_val_positive(s: Seq<char>)
    requires
        all_digits(s),
        s.len() >= 1,
        s[0] != '0',
    ensures
        digits_val(s) >= 1,
    decreases s.len(),
{
    if s.len() == 1 {
        assert(s.drop_last() =~= Seq::<char>::empty());
        assert(digits_val(Seq::<char>::empty()) == 0);
        assert(s.last() == s[0]);
        lemma_digit_char_of_val(s[0]);
        assert(digit_val(s[0]) >= 1) by {
            if digit_val(s[0]) == 0 {
                assert(digit_char(0) == '0');
            }
        }
    } else {
        lemma_digits_val_positive(s.drop_last());
    }
}

/// A nonempty digit string without a leading zero is the canonical
/// decimal rendering of its own value.
proof fn lemma_dec_str_unique(s: Seq<char>)
    requires
        all_digits(s),
        s.len() >= 1,
        s[0] != '0' || s.len() == 1,
    ensures
        digits_val(s) >= 0,
        dec_str(digits_val(s) as nat) == s,
    decreases s.len(),
{
    lemma_digits_val_nonneg(s);
    lemma_digit_char_of_val(s.last());
    if s.len() == 1 {
        assert(s.drop_last() =~= Seq::<char>::empty());
        assert(digits_val(Seq::<char>::empty()) == 0);
        assert(s.last() == s[0]);
        assert(dec_str(digits_val(s) as nat) =~= s);
    } else {
        let p = s.drop_last();
        lemma_dec_str_unique(p);
        lemma_digits_val_positive(p);
        let v = digits_val(s);
        assert(v == digits_val(p) * 10 + digit_val(s.last()));
        assert(v >= 10);
        lemma_fundamental_div_mod_converse(v, 10, digits_val(p), digit_val(s.last()));
        assert(v as nat / 10 == digits_val(p) && v as nat % 10 == digit_val(s.last()));
        assert(dec_str(v as nat) =~= s);
    }
}

/// The name token of canonical note text is read back as the same pitch
/// class it was written from, and the remainder is exactly the octave.
proof fn lemma_pc_name_split(pc: int, rest: Seq<char>)
    requires
        0 <= pc < 12,
        rest.len() >= 1,
        is_digit(rest[0]),
    ensures
        name_split(pc_name(pc) + rest) == Some((pc, pc_name(pc).len() as int)),
        (pc_name(pc) + rest).subrange(pc_name(pc).len() as int, (pc_name(pc) + rest).len() as int)
            == rest,
{
    let s = pc_name(pc) + rest;
    assert(s.subrange(pc_name(pc).len() as int, s.len() as int) =~= rest);
}

/// One direction of the round trip: the canonical text of any
/// representable pitch parses back to that pitch's value.
pub proof fn lemma_format_then_parse(v: nat)
    ensures
        parse_val(note_str(v)) == Some(v as int),
{
    let pc = (v % 12) as int;
    let oct = v / 12;
    lemma_dec_str_shape(oct);
    lemma_dec_str_val(oct);
    lemma_pc_name_split(pc, dec_str(oct));
    lemma_fundamental_div_mod(v as int, 12);
}

/// The other direction of the round trip: note text that parses, and
/// whose octave part is canonical (no leading zero), is exactly the
/// canonical text of the pitch it denotes.
pub proof fn lemma_parse_then_format(s: Seq<char>, v: int)
    requires
        parse_val(s) == Some(v),
        match name_split(s) {
            Some(split) => s[split.1] != '0' || split.1 + 1 == s.len(),
            None => false,
        },
    ensures
        v >= 0,
        note_str(v as nat) == s,
{
    let split = name_split(s)->Some_0;
    let pc = split.0;
    let k = split.1;
    let rest = s.subrange(k, s.len() as int);
    assert(0 <= pc < 12);
    assert(rest[0] == s[k]);
    lemma_digits_val_nonneg(rest);
    let dv = digits_val(rest);
    lemma_dec_str_unique(rest);
    assert(v == pc + 12 * dv);
    lemma_fundamental_div_mod_converse(v, 12, dv, pc);
    assert(v % 12 == pc && v / 12 == dv);
    assert(pc_name(pc) =~= s.subrange(0, k));
    assert(note_str(v as nat) =~= s.subrange(0, k) + s.subrange(k, s.len() as int));
    assert(s.subrange(0, k) + s.subrange(k, s.len() as int) =~= s);
}

} // verus!
