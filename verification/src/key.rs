//! Modes, keys, and key inference.
//!
//! A [`Mode`] is one of the seven church modes, each a fixed pattern of six
//! whole/half steps.  A [`Key`] is a mode anchored at a root pitch, expanded
//! eagerly into its seven notes.  [`guess_key`] searches all candidate keys
//! that contain a given set of pitch classes.

use vstd::prelude::*;

use crate::note::pc_name;
use crate::note::Interval;
use crate::note::Note;

verus! {

broadcast use vstd::array::group_array_axioms;

/// The seven church modes.
#[derive(Debug, PartialEq, Eq, Structural, Clone, Copy)]
pub enum Mode {
    Ionian,
    Dorian,
    Phrygian,
    Lydian,
    Mixolydian,
    Aeolian,
    Locrian,
}

/// The whole/half-step pattern of a mode: the six semitone steps that,
/// applied cumulatively to a root, yield the remaining six scale degrees.
pub open spec fn mode_pattern(m: Mode) -> Seq<int> {
    match m {
        Mode::Ionian => seq![2int, 2int, 1int, 2int, 2int, 2int],
        Mode::Dorian => seq![2int, 1int, 2int, 2int, 2int, 1int],
        Mode::Phrygian => seq![1int, 2int, 2int, 2int, 1int, 2int],
        Mode::Lydian => seq![2int, 2int, 1int, 2int, 2int, 1int],
        Mode::Mixolydian => seq![2int, 2int, 2int, 1int, 2int, 2int],
        Mode::Aeolian => seq![2int, 1int, 2int, 2int, 1int, 2int],
        Mode::Locrian => seq![1int, 2int, 2int, 1int, 2int, 2int],
    }
}

/// The `i`-th degree of the scale on `root` in mode `m`: the root plus
/// the first `i` steps of the mode's pattern.
pub open spec fn scale_note(root: int, m: Mode, i: int) -> int
    decreases i,
{
    if i <= 0 {
        root
    } else {
        scale_note(root, m, i - 1) + mode_pattern(m)[i - 1]
    }
}

/// Every scale degree lies within eleven semitones above its root.
pub proof fn lemma_scale_bound(root: int, m: Mode, i: int)
    requires
        0 <= i <= 6,
    ensures
        root <= scale_note(root, m, i) <= root + 11,
{
    reveal_with_fuel(scale_note, 8);
}

/// The modes in declaration order, the order key inference tries them.
pub open spec fn mode_seq() -> Seq<Mode> {
    seq![
        Mode::Ionian,
        Mode::Dorian,
        Mode::Phrygian,
        Mode::Lydian,
        Mode::Mixolydian,
        Mode::Aeolian,
        Mode::Locrian,
    ]
}

/// Yields a mode's six steps in order, as [`Interval`] values.
pub struct ModeIntervalIter {
    pub intervals: [Interval; 6],
    pub index: usize,
}

impl Mode {
    /// Starts iteration over this mode's six steps.
    pub fn into_iter(self) -> (r: ModeIntervalIter)
        ensures
            r.index == 0,
            forall|i: int|
                0 <= i < 6 ==> (#[trigger] r.intervals@[i]).semitones == mode_pattern(self)[i],
    {
        let t = Interval::tone();
        let s = Interval::semitone();
        ModeIntervalIter {
            intervals: match self {
                Mode::Ionian => [t, t, s, t, t, t],
                Mode::Dorian => [t, s, t, t, t, s],
                Mode::Phrygian => [s, t, t, t, s, t],
                Mode::Lydian => [t, t, s, t, t, s],
                Mode::Mixolydian => [t, t, t, s, t, t],
                Mode::Aeolian => [t, s, t, t, s, t],
                Mode::Locrian => [s, t, t, s, t, t],
            },
            index: 0,
        }
    }
}

impl ModeIntervalIter {
    /// Yields the next step of the pattern, or `None` past the sixth.
    pub fn next(&mut self) -> (r: Option<Interval>)
        requires
            old(self).index < usize::MAX,
        ensures
            final(self).intervals == old(self).intervals,
            final(self).index == old(self).index + 1,
            old(self).index < 6 ==> r == Some(old(self).intervals@[old(self).index as int]),
            old(self).index >= 6 ==> r is None,
    {
        let r = if self.index < 6 {
            Some(self.intervals[self.index])
        } else {
            None
        };
        self.index = self.index + 1;
        r
    }
}

/// Declares `arrayvec::ArrayVec`, the fixed-capacity vector the key
/// builder collects scale degrees into, so it can appear in signatures.
#[verifier::external_type_specification]
#[verifier::external_body]
#[verifier::reject_recursive_types(T)]
pub struct ExArrayVec<T, const CAP: usize>(arrayvec::ArrayVec<T, CAP>);

/// The elements a seven-slot `ArrayVec` of pitch values holds, in order.
pub uninterp spec fn av_contents(v: arrayvec::ArrayVec<u32, 7>) -> Seq<u32>;

/// Relies on `arrayvec::ArrayVec::new`: creates an empty vector.
#[verifier::external_body]
fn av_new() -> (r: arrayvec::ArrayVec<u32, 7>)
    ensures
        av_contents(r) == Seq::<u32>::empty(),
{
    arrayvec::ArrayVec::new()
}

/// Relies on `arrayvec::ArrayVec::push`: appends one element at the end.
/// `push` panics only when the vector is full, which the precondition
/// rules out.
#[verifier::external_body]
fn av_push(v: &mut arrayvec::ArrayVec<u32, 7>, x: u32)
    requires
        av_contents(*old(v)).len() < 7,
    ensures
        av_contents(*final(v)) == av_contents(*old(v)).push(x),
{
    v.push(x)
}

/// Relies on `arrayvec::ArrayVec::into_inner`: returns the backing array,
/// `Ok` exactly when the vector is full to capacity.
#[verifier::external_body]
fn av_into_inner(v: arrayvec::ArrayVec<u32, 7>) -> (r: [u32; 7])
    requires
        av_contents(v).len() == 7,
    ensures
        r@ == av_contents(v),
{
    v.into_inner().unwrap()
}

/// A mode anchored at a root pitch, expanded into its seven notes:
/// the root and six cumulative transpositions by the mode's pattern.
#[derive(Debug, Clone, Copy)]
pub struct Key {
    pub notes: [Note; 7],
    pub mode: Mode,
}

/// Whether `k` is exactly the key built on `root` in mode `m`: its notes
/// are the seven scale degrees in order.
pub open spec fn is_key_of(k: Key, root: Note, m: Mode) -> bool {
    &&& k.mode == m
    &&& forall|i: int|
        0 <= i < 7 ==> (#[trigger] k.notes@[i]).value == scale_note(root.value as int, m, i)
}

/// A key is well formed when its notes are the scale degrees on its own
/// first note.
pub open spec fn key_wf(k: Key) -> bool {
    is_key_of(k, k.notes@[0], k.mode)
}

impl Key {
    /// Builds the key on `root_note` in `mode`: note 0 is the root, and
    /// each following note is the previous one transposed by the mode's
    /// next step.  Total for every root a scale can be built on without
    /// leaving the representable pitch range.
    pub fn new(root_note: Note, mode: Mode) -> (k: Key)
        requires
            root_note.value + 11 <= u32::MAX,
        ensures
            is_key_of(k, root_note, mode),
            key_wf(k),
            k.mode == mode,
            k.notes@[0] == root_note,
            forall|i: int|
                1 <= i < 7 ==> (#[trigger] k.notes@[i]).value == k.notes@[i - 1].value
                    + mode_pattern(mode)[i - 1],
    {
        let mut vals = av_new();
        av_push(&mut vals, root_note.value);
        let it = mode.into_iter();
        let mut prev: u32 = root_note.value;
        let mut i: usize = 0;
        while i < 6
            invariant
                0 <= i <= 6,
                root_note.value + 11 <= u32::MAX,
                prev == scale_note(root_note.value as int, mode, i as int),
                av_contents(vals).len() == i + 1,
                forall|j: int|
                    0 <= j <= i ==> av_contents(vals)[j] == scale_note(
                        root_note.value as int,
                        mode,
                        j,
                    ),
                forall|j: int|
                    0 <= j < 6 ==> (#[trigger] it.intervals@[j]).semitones == mode_pattern(
                        mode,
                    )[j],
            decreases 6 - i,
        {
            proof {
                lemma_scale_bound(root_note.value as int, mode, i as int + 1);
            }
            let step = it.intervals[i];
            prev = prev + step.semitones;
            av_push(&mut vals, prev);
            i = i + 1;
        }
        let arr = av_into_inner(vals);
        let k = Key {
            notes: [
                Note { value: arr[0] },
                Note { value: arr[1] },
                Note { value: arr[2] },
                Note { value: arr[3] },
                Note { value: arr[4] },
                Note { value: arr[5] },
                Note { value: arr[6] },
            ],
            mode,
        };
        k
    }
}

/// Whether the scale on `root` in mode `m` contains the pitch class of
/// value `v`, disregarding octaves.
pub open spec fn scale_contains(root: int, m: Mode, v: int) -> bool {
    exists|i: int| 0 <= i < 7 && #[trigger] scale_note(root, m, i) % 12 == v % 12
}

/// Whether the scale on `root` in mode `m` contains the pitch class of
/// every note of `notes`.
pub open spec fn scale_contains_all(root: int, m: Mode, notes: Seq<Note>) -> bool {
    forall|i: int| 0 <= i < notes.len() ==> scale_contains(root, m, (#[trigger] notes[i]).value as int)
}

impl Key {
    /// This key's seven notes with their octaves disregarded: each note
    /// reduced to its pitch class.
    pub fn notes_disregarding_octave(self) -> (r: [Note; 7])
        ensures
            forall|i: int| 0 <= i < 7 ==> (#[trigger] r@[i]).value == self.notes@[i].value % 12,
    {
        [
            self.notes[0].disregard_octave(),
            self.notes[1].disregard_octave(),
            self.notes[2].disregard_octave(),
            self.notes[3].disregard_octave(),
            self.notes[4].disregard_octave(),
            self.notes[5].disregard_octave(),
            self.notes[6].disregard_octave(),
        ]
    }

    /// Whether `note`'s pitch class equals the pitch class of one of this
    /// key's seven notes.
    pub fn contains_disregarding_octave(&self, note: Note) -> (r: bool)
        ensures
            r == exists|i: int|
                0 <= i < 7 && (#[trigger] self.notes@[i]).value % 12 == note.value % 12,
    {
        let pc = note.value % 12;
        let mut i: usize = 0;
        while i < 7
            invariant
                0 <= i <= 7,
                pc == note.value % 12,
                forall|j: int| 0 <= j < i ==> (#[trigger] self.notes@[j]).value % 12 != pc,
            decreases 7 - i,
        {
            if self.notes[i].value % 12 == pc {
                return true;
            }
            i = i + 1;
        }
        false
    }
}

/// Whether every note of `notes` lies in `key`, disregarding octaves.
fn key_matches_all(key: &Key, notes: &Vec<Note>) -> (r: bool)
    requires
        key_wf(*key),
    ensures
        r == scale_contains_all(key.notes@[0].value as int, key.mode, notes@),
{
    let ghost root = key.notes@[0].value as int;
    let mut i: usize = 0;
    while i < notes.len()
        invariant
            0 <= i <= notes@.len(),
            key_wf(*key),
            root == key.notes@[0].value as int,
            forall|p: int|
                0 <= p < i ==> scale_contains(root, key.mode, (#[trigger] notes@[p]).value as int),
        decreases notes@.len() - i,
    {
        let found = key.contains_disregarding_octave(notes[i]);
        proof {
            let v = notes@[i as int].value as int;
            if found {
                let j = choose|j: int|
                    0 <= j < 7 && (#[trigger] key.notes@[j]).value % 12 == notes@[i as int].value
                        % 12;
                assert(key.notes@[j].value == scale_note(root, key.mode, j));
                assert(scale_note(root, key.mode, j) % 12 == v % 12);
                assert(scale_contains(root, key.mode, v));
            } else {
                if scale_contains(root, key.mode, v) {
                    let j = choose|j: int|
                        0 <= j < 7 && #[trigger] scale_note(root, key.mode, j) % 12 == v % 12;
                    assert(key.notes@[j].value % 12 == notes@[i as int].value % 12);
                }
                assert(!scale_contains(root, key.mode, v));
            }
        }
        if !found {
            return false;
        }
        i = i + 1;
    }
    true
}

/// The candidate keys tried for one root: the seven modes in order.
pub open spec fn root_cands(root: Note) -> Seq<(Note, Mode)> {
    Seq::new(7, |i: int| (root, mode_seq()[i]))
}

/// The candidates tried for the first `n` chromatic roots, root ascending
/// from pitch 0, then mode in declaration order.
pub open spec fn roots_upto(n: nat) -> Seq<(Note, Mode)>
    decreases n,
{
    if n == 0 {
        Seq::empty()
    } else {
        roots_upto((n - 1) as nat) + root_cands(Note { value: (n - 1) as u32 })
    }
}

/// All candidates the key search tries: the hinted root alone, or the
/// twelve chromatic roots.
pub open spec fn cand_seq(hint: Option<Note>) -> Seq<(Note, Mode)> {
    match hint {
        Some(root) => root_cands(root),
        None => roots_upto(12),
    }
}

/// The candidates of `cands`, in order, whose scale contains the pitch
/// class of every note of `notes`.
pub open spec fn matching_cands(notes: Seq<Note>, cands: Seq<(Note, Mode)>) -> Seq<(Note, Mode)>
    decreases cands.len(),
{
    if cands.len() == 0 {
        Seq::empty()
    } else {
        let rest = matching_cands(notes, cands.drop_last());
        if scale_contains_all(cands.last().0.value as int, cands.last().1, notes) {
            rest.push(cands.last())
        } else {
            rest
        }
    }
}

/// Filtering candidates distributes over concatenation.
proof fn lemma_matching_cands_concat(notes: Seq<Note>, a: Seq<(Note, Mode)>, b: Seq<(Note, Mode)>)
    ensures
        matching_cands(notes, a + b) == matching_cands(notes, a) + matching_cands(notes, b),
    decreases b.len(),
{
    if b.len() == 0 {
        assert(a + b =~= a);
        assert(matching_cands(notes, a) + matching_cands(notes, b) =~= matching_cands(notes, a));
    } else {
        lemma_matching_cands_concat(notes, a, b.drop_last());
        assert((a + b).drop_last() =~= a + b.drop_last());
        assert((a + b).last() == b.last());
        assert(matching_cands(notes, a) + matching_cands(notes, b.drop_last()).push(b.last())
            =~= (matching_cands(notes, a) + matching_cands(notes, b.drop_last())).push(b.last()));
    }
}

/// The keys, in search order, whose scale contains every note of `notes`
/// (disregarding octaves): for each candidate root (the hinted root, or
/// all twelve chromatic roots ascending from pitch 0) and each mode in
/// declaration order, the key on that root in that mode is kept exactly
/// when every input note's pitch class is among its notes.  An empty
/// result is a legitimate outcome, not an error.
pub fn guess_key(notes: Vec<Note>, root_note: Option<Note>) -> (r: Vec<Key>)
    requires
        match root_note {
            Some(root) => root.value + 11 <= u32::MAX,
            None => true,
        },
    ensures
        ({
            let m = matching_cands(notes@, cand_seq(root_note));
            &&& r@.len() == m.len()
            &&& forall|i: int| 0 <= i < m.len() ==> is_key_of(#[trigger] r@[i], m[i].0, m[i].1)
        }),
{
    let mut out: Vec<Key> = Vec::new();
    match root_note {
        Some(root) => {
            key_filter(&mut out, root, &notes);
            proof {
                let m = matching_cands(notes@, root_cands(root));
                assert forall|i: int| 0 <= i < m.len() implies is_key_of(
                    #[trigger] out@[i],
                    m[i].0,
                    m[i].1,
                ) by {
                    assert(is_key_of(out@[0 + i], m[i].0, m[i].1));
                }
            }
        },
        None => {
            let mut ri: u32 = 0;
            while ri < 12
                invariant
                    0 <= ri <= 12,
                    out@.len() == matching_cands(notes@, roots_upto(ri as nat)).len(),
                    forall|i: int|
                        0 <= i < out@.len() ==> is_key_of(
                            #[trigger] out@[i],
                            matching_cands(notes@, roots_upto(ri as nat))[i].0,
                            matching_cands(notes@, roots_upto(ri as nat))[i].1,
                        ),
                decreases 12 - ri,
            {
                let ghost pre = roots_upto(ri as nat);
                let ghost prev_out = out@;
                key_filter(&mut out, Note { value: ri }, &notes);
                proof {
                    lemma_matching_cands_concat(notes@, pre, root_cands(Note { value: ri }));
                    assert(roots_upto((ri + 1) as nat) =~= pre + root_cands(Note { value: ri }));
                    let mpre = matching_cands(notes@, pre);
                    let mrc = matching_cands(notes@, root_cands(Note { value: ri }));
                    let mall = matching_cands(notes@, roots_upto((ri + 1) as nat));
                    assert(mall == mpre + mrc);
                    assert forall|i: int| 0 <= i < mall.len() implies is_key_of(
                        #[trigger] out@[i],
                        mall[i].0,
                        mall[i].1,
                    ) by {
                        if i < mpre.len() {
                            assert(out@.take(prev_out.len() as int)[i] == out@[i]);
                            assert(prev_out[i] == out@[i]);
                            assert(mall[i] == mpre[i]);
                        } else {
                            assert(mall[i] == mrc[i - mpre.len()]);
                            assert(is_key_of(
                                out@[prev_out.len() + (i - mpre.len())],
                                mrc[i - mpre.len()].0,
                                mrc[i - mpre.len()].1,
                            ));
                        }
                    }
                }
                ri = ri + 1;
            }
        },
    }
    out
}

/// Appends to `out` the keys on `root`, one mode at a time in declaration
/// order, that contain every note of `notes` disregarding octaves.
fn key_filter(out: &mut Vec<Key>, root: Note, notes: &Vec<Note>)
    requires
        root.value + 11 <= u32::MAX,
    ensures
        ({
            let m = matching_cands(notes@, root_cands(root));
            &&& final(out)@.len() == old(out)@.len() + m.len()
            &&& final(out)@.take(old(out)@.len() as int) == old(out)@
            &&& forall|i: int|
                0 <= i < m.len() ==> is_key_of(
                    #[trigger] final(out)@[old(out)@.len() + i],
                    m[i].0,
                    m[i].1,
                )
        }),
{
    let ghost base = out@;
    let mut mi: usize = 0;
    while mi < 7
        invariant
            0 <= mi <= 7,
            root.value + 11 <= u32::MAX,
            out@.len() == base.len() + matching_cands(notes@, root_cands(root).take(mi as int)).len(),
            out@.take(base.len() as int) == base,
            forall|i: int|
                0 <= i < matching_cands(notes@, root_cands(root).take(mi as int)).len()
                    ==> is_key_of(
                    #[trigger] out@[base.len() + i],
                    matching_cands(notes@, root_cands(root).take(mi as int))[i].0,
                    matching_cands(notes@, root_cands(root).take(mi as int))[i].1,
                ),
        decreases 7 - mi,
    {
        let ghost prefix = root_cands(root).take(mi as int);
        let mode = mode_at(mi);
        let key = Key::new(root, mode);
        let keep = key_matches_all(&key, notes);
        proof {
            assert(root_cands(root).take(mi as int + 1).drop_last() =~= prefix);
            assert(root_cands(root).take(mi as int + 1).last() == (root, mode));
            assert(keep == scale_contains_all(root.value as int, mode, notes@));
        }
        if keep {
            out.push(key);
        }
        mi = mi + 1;
    }
    proof {
        assert(root_cands(root).take(7) =~= root_cands(root));
        assert(out@.take(base.len() as int) =~= base);
    }
}

/// The mode at position `i` of the declaration order.
fn mode_at(i: usize) -> (r: Mode)
    requires
        i < 7,
    ensures
        r == mode_seq()[i as int],
{
    if i == 0 {
        Mode::Ionian
    } else if i == 1 {
        Mode::Dorian
    } else if i == 2 {
        Mode::Phrygian
    } else if i == 3 {
        Mode::Lydian
    } else if i == 4 {
        Mode::Mixolydian
    } else if i == 5 {
        Mode::Aeolian
    } else {
        Mode::Locrian
    }
}

/// The English name of a mode.
pub open spec fn mode_name(m: Mode) -> Seq<char> {
    match m {
        Mode::Ionian => "Ionian"@,
        Mode::Dorian => "Dorian"@,
        Mode::Phrygian => "Phrygian"@,
        Mode::Lydian => "Lydian"@,
        Mode::Mixolydian => "Mixolydian"@,
        Mode::Aeolian => "Aeolian"@,
        Mode::Locrian => "Locrian"@,
    }
}

impl Mode {
    /// The English name of this mode.
    pub fn name_string(self) -> (r: String)
        ensures
            r@ == mode_name(self),
    {
        String::from_str(
            match self {
                Mode::Ionian => "Ionian",
                Mode::Dorian => "Dorian",
                Mode::Phrygian => "Phrygian",
                Mode::Lydian => "Lydian",
                Mode::Mixolydian => "Mixolydian",
                Mode::Aeolian => "Aeolian",
                Mode::Locrian => "Locrian",
            },
        )
    }
}

/// The space-separated octave-disregarding names of a note sequence.
pub open spec fn names_join(notes: Seq<Note>) -> Seq<char>
    decreases notes.len(),
{
    if notes.len() == 0 {
        Seq::empty()
    } else if notes.len() == 1 {
        pc_name((notes[0].value % 12) as int)
    } else {
        names_join(notes.drop_last()) + seq![' '] + pc_name((notes.last().value % 12) as int)
    }
}

impl Key {
    /// The names of this key's seven notes, octave disregarded, separated
    /// by single spaces: for example `D E F G A B C`.
    pub fn notes_string(&self) -> (r: String)
        ensures
            r@ == names_join(self.notes@),
    {
        let mut out = String::new();
        let mut i: usize = 0;
        while i < 7
            invariant
                0 <= i <= 7,
                out@ == names_join(self.notes@.take(i as int)),
            decreases 7 - i,
        {
            if i > 0 {
                out.append(" ");
            }
            let name = self.notes[i].name_string();
            out.append(name.as_str());
            proof {
                reveal_strlit(" ");
                assert(self.notes@.take(i as int + 1).drop_last() =~= self.notes@.take(i as int));
                assert(self.notes@.take(i as int + 1).last() == self.notes@[i as int]);
                assert(out@ =~= names_join(self.notes@.take(i as int + 1)));
            }
            i = i + 1;
        }
        proof {
            assert(self.notes@.take(7) =~= self.notes@);
        }
        out
    }

    /// The summary form of this key: its root's octave-disregarding name,
    /// a space, and its mode's name, for example `C Ionian`.
    pub fn summary_string(&self) -> (r: String)
        ensures
            r@ == pc_name((self.notes@[0].value % 12) as int) + seq![' '] + mode_name(self.mode),
    {
        let mut out = self.notes[0].name_string();
        out.append(" ");
        let mode = self.mode.name_string();
        out.append(mode.as_str());
        proof {
            reveal_strlit(" ");
            assert(out@ =~= pc_name((self.notes@[0].value % 12) as int) + seq![' ']
                + mode_name(self.mode));
        }
        out
    }
}

/// Key inference is deterministic: any two results that satisfy
/// [`guess_key`]'s contract for the same notes and the same root hint are
/// equal, element for element.
pub proof fn lemma_guess_key_deterministic(
    notes: Seq<Note>,
    hint: Option<Note>,
    r1: Seq<Key>,
    r2: Seq<Key>,
)
    requires
        r1.len() == matching_cands(notes, cand_seq(hint)).len(),
        r2.len() == matching_cands(notes, cand_seq(hint)).len(),
        forall|i: int|
            0 <= i < r1.len() ==> is_key_of(
                #[trigger] r1[i],
                matching_cands(notes, cand_seq(hint))[i].0,
                matching_cands(notes, cand_seq(hint))[i].1,
            ),
        forall|i: int|
            0 <= i < r2.len() ==> is_key_of(
                #[trigger] r2[i],
                matching_cands(notes, cand_seq(hint))[i].0,
                matching_cands(notes, cand_seq(hint))[i].1,
            ),
    ensures
        r1 == r2,
{
    assert forall|i: int| 0 <= i < r1.len() implies r1[i] == r2[i] by {
        assert(r1[i].notes@ =~= r2[i].notes@) by {
            assert forall|j: int| 0 <= j < 7 implies r1[i].notes@[j] == r2[i].notes@[j] by {
                assert(r1[i].notes@[j].value == r2[i].notes@[j].value);
            }
        }
        assert(r1[i].notes == r2[i].notes);
    }
    assert(r1 =~= r2);
}

} // verus!
