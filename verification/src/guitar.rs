//! Fretboard geometry: strings, instruments, location search, and the
//! ASCII fretboard diagram.
//!
//! String numbering follows tablature convention: string 1 is the last
//! entry of the tuning (the highest string), so internal storage order is
//! the reverse of the tuning as supplied.

use vstd::prelude::*;
use vstd::string::StringExecFns;

use crate::note::dec_str;
use crate::note::push_dec;
use crate::note::Note;

verus! {

/// A single guitar string: the note of each of its fret positions, fret 0
/// being the open string.
#[derive(Debug)]
pub struct GuitarString {
    pub frets: Vec<Note>,
}

/// Whether string `s` is the chromatic run of `num_frets + 1` notes
/// ascending one semitone per fret from the open note `open`.
pub open spec fn string_spans(s: GuitarString, open: int, num_frets: int) -> bool {
    &&& s.frets@.len() == num_frets + 1
    &&& forall|f: int| 0 <= f <= num_frets ==> (#[trigger] s.frets@[f]).value == open + f
}

impl GuitarString {
    /// Builds a string with `num_frets` frets on the open note
    /// `open_note`: fret `f` sounds `f` semitones above the open note.
    pub fn new(open_note: Note, num_frets: usize) -> (r: GuitarString)
        requires
            open_note.value + num_frets <= u32::MAX,
            num_frets < usize::MAX,
        ensures
            string_spans(r, open_note.value as int, num_frets as int),
    {
        let mut frets: Vec<Note> = Vec::new();
        let mut f: usize = 0;
        while f <= num_frets
            invariant
                0 <= f <= num_frets + 1,
                num_frets < usize::MAX,
                open_note.value + num_frets <= u32::MAX,
                frets@.len() == f,
                forall|j: int|
                    0 <= j < f ==> (#[trigger] frets@[j]).value == open_note.value + j,
            decreases num_frets + 1 - f,
        {
            frets.push(Note { value: open_note.value + (f as u32) });
            f = f + 1;
        }
        GuitarString { frets }
    }
}

/// A fretted instrument: its strings in display order (index 0 holds
/// string number 1) and its shared fret count.
#[derive(Debug)]
pub struct Guitar {
    pub num_frets: usize,
    pub strings: Vec<GuitarString>,
}

impl Guitar {
    /// All strings hold one note per fret position, 0 through `num_frets`.
    pub open spec fn wf(self) -> bool {
        forall|s: int|
            0 <= s < self.strings@.len() ==> (#[trigger] self.strings@[s]).frets@.len()
                == self.num_frets + 1
    }
}

/// A position on the fretboard: a string number (1 and up) and a fret
/// number, fret 0 meaning the open string.
#[derive(Debug, PartialEq, Eq, Structural, Clone, Copy)]
pub struct FretboardLocation {
    pub string_number: usize,
    pub fret_number: usize,
}

impl FretboardLocation {
    /// Creates the location at `string_number`, `fret_number`.
    pub fn new(string_number: usize, fret_number: usize) -> (r: Self)
        ensures
            r.string_number == string_number,
            r.fret_number == fret_number,
    {
        FretboardLocation { string_number, fret_number }
    }
}

/// The locations of `target` on one string, fret ascending: one location
/// per fret position of `frets` (a prefix of a string) holding `target`.
pub open spec fn string_locs(frets: Seq<Note>, snum: usize, target: Note) -> Seq<
    FretboardLocation,
>
    decreases frets.len(),
{
    if frets.len() == 0 {
        Seq::empty()
    } else {
        let rest = string_locs(frets.drop_last(), snum, target);
        if frets.last() == target {
            rest.push(
                FretboardLocation {
                    string_number: snum,
                    fret_number: (frets.len() - 1) as usize,
                },
            )
        } else {
            rest
        }
    }
}

/// The locations of `target` on strings 1 through `n`, string number
/// ascending, fret ascending within each string.
pub open spec fn locs_upto(strings: Seq<GuitarString>, n: int, target: Note) -> Seq<
    FretboardLocation,
>
    decreases n,
{
    if n <= 0 {
        Seq::empty()
    } else {
        locs_upto(strings, n - 1, target) + string_locs(strings[n - 1].frets@, n as usize, target)
    }
}

/// Every location of `target` on `g`, in scan order: string number
/// ascending, then fret number ascending.
pub open spec fn locations_spec(g: Guitar, target: Note) -> Seq<FretboardLocation> {
    locs_upto(g.strings@, g.strings@.len() as int, target)
}

impl Guitar {
    /// Returns the fretboard locations sounding exactly `note` (octave
    /// sensitive), scanning strings in display order and frets from the
    /// open string up.  An empty result means the note does not occur on
    /// the instrument; it is not an error.
    pub fn locations(&self, note: Note) -> (r: Vec<FretboardLocation>)
        ensures
            r@ == locations_spec(*self, note),
    {
        let mut r: Vec<FretboardLocation> = Vec::new();
        let mut s: usize = 0;
        while s < self.strings.len()
            invariant
                0 <= s <= self.strings@.len(),
                r@ == locs_upto(self.strings@, s as int, note),
            decreases self.strings@.len() - s,
        {
            let frets_len = self.strings[s].frets.len();
            let mut f: usize = 0;
            while f < frets_len
                invariant
                    0 <= f <= frets_len,
                    s < self.strings@.len(),
                    s < usize::MAX,
                    frets_len == self.strings@[s as int].frets@.len(),
                    r@ == locs_upto(self.strings@, s as int, note) + string_locs(
                        self.strings@[s as int].frets@.take(f as int),
                        (s + 1) as usize,
                        note,
                    ),
                decreases frets_len - f,
            {
                let ghost frets = self.strings@[s as int].frets@;
                if self.strings[s].frets[f] == note {
                    r.push(FretboardLocation { string_number: s + 1, fret_number: f });
                }
                proof {
                    assert(frets.take(f as int + 1).drop_last() =~= frets.take(f as int));
                    assert(frets.take(f as int + 1).last() == frets[f as int]);
                }
                f = f + 1;
            }
            proof {
                assert(self.strings@[s as int].frets@.take(frets_len as int) =~= self.strings@[s
                    as int].frets@);
            }
            s = s + 1;
        }
        r
    }
}

proof fn lemma_string_locs_membership(
    frets: Seq<Note>,
    snum: usize,
    target: Note,
    loc: FretboardLocation,
)
    requires
        frets.len() <= usize::MAX,
    ensures
        string_locs(frets, snum, target).contains(loc) <==> (loc.string_number == snum
            && loc.fret_number < frets.len() && frets[loc.fret_number as int] == target),
    decreases frets.len(),
{
    if frets.len() > 0 {
        lemma_string_locs_membership(frets.drop_last(), snum, target, loc);
        let rest = string_locs(frets.drop_last(), snum, target);
        if frets.last() == target {
            let l = FretboardLocation {
                string_number: snum,
                fret_number: (frets.len() - 1) as usize,
            };
            assert(string_locs(frets, snum, target) == rest.push(l));
            assert(rest.push(l).contains(loc) <==> (rest.contains(loc) || loc == l)) by {
                if rest.push(l).contains(loc) {
                    let i = choose|i: int| 0 <= i < rest.push(l).len() && rest.push(l)[i] == loc;
                    if i < rest.len() {
                        assert(rest[i] == loc);
                    }
                }
                if rest.contains(loc) {
                    let i = choose|i: int| 0 <= i < rest.len() && rest[i] == loc;
                    assert(rest.push(l)[i] == loc);
                }
                if loc == l {
                    assert(rest.push(l)[rest.len() as int] == loc);
                }
            }
        }
    }
}

proof fn lemma_locs_upto_membership(
    strings: Seq<GuitarString>,
    n: int,
    target: Note,
    loc: FretboardLocation,
)
    requires
        0 <= n <= strings.len(),
        strings.len() <= usize::MAX,
        forall|i: int| 0 <= i < n ==> (#[trigger] strings[i]).frets@.len() <= usize::MAX,
    ensures
        locs_upto(strings, n, target).contains(loc) <==> (1 <= loc.string_number <= n
            && loc.fret_number < strings[loc.string_number - 1].frets@.len()
            && strings[loc.string_number - 1].frets@[loc.fret_number as int] == target),
    decreases n,
{
    if n > 0 {
        lemma_locs_upto_membership(strings, n - 1, target, loc);
        lemma_string_locs_membership(strings[n - 1].frets@, n as usize, target, loc);
        let a = locs_upto(strings, n - 1, target);
        let b = string_locs(strings[n - 1].frets@, n as usize, target);
        assert((a + b).contains(loc) <==> (a.contains(loc) || b.contains(loc))) by {
            if (a + b).contains(loc) {
                let i = choose|i: int| 0 <= i < (a + b).len() && (a + b)[i] == loc;
                if i < a.len() {
                    assert(a[i] == loc);
                } else {
                    assert(b[i - a.len()] == loc);
                }
            }
            if a.contains(loc) {
                let i = choose|i: int| 0 <= i < a.len() && a[i] == loc;
                assert((a + b)[i] == loc);
            }
            if b.contains(loc) {
                let i = choose|i: int| 0 <= i < b.len() && b[i] == loc;
                assert((a + b)[a.len() + i] == loc);
            }
        }
    }
}

/// A location is reported for `target` on `g` exactly when it names a
/// real string and fret of `g` whose note is `target`: in particular no
/// out-of-range string or fret ever appears.
pub proof fn lemma_locations_membership(g: Guitar, target: Note, loc: FretboardLocation)
    ensures
        locations_spec(g, target).contains(loc) <==> (1 <= loc.string_number
            <= g.strings@.len() && loc.fret_number < g.strings@[loc.string_number
            - 1].frets@.len() && g.strings@[loc.string_number - 1].frets@[loc.fret_number as int]
            == target),
{
    assert forall|i: int|
        0 <= i < g.strings@.len() implies (#[trigger] g.strings@[i]).frets@.len()
        <= usize::MAX by {
        assert(g.strings@[i].frets.len() == g.strings@[i].frets@.len());
    }
    assert(g.strings.len() == g.strings@.len());
    lemma_locs_upto_membership(g.strings@, g.strings@.len() as int, target, loc);
}

/// Location search is deterministic: any two results that satisfy
/// [`Guitar::locations`]'s contract for the same instrument and note are
/// equal, element for element and in the same order.
pub proof fn lemma_locations_deterministic(
    g: Guitar,
    target: Note,
    r1: Seq<FretboardLocation>,
    r2: Seq<FretboardLocation>,
)
    requires
        r1 == locations_spec(g, target),
        r2 == locations_spec(g, target),
    ensures
        r1 == r2,
{
}

/// Standard six-string guitar tuning, low to high:
/// E2 A2 D3 G3 B3 E4.
pub fn standard_tuning() -> (r: Vec<Note>)
    ensures
        r@ == seq![
            Note { value: 28 },
            Note { value: 33 },
            Note { value: 38 },
            Note { value: 43 },
            Note { value: 47 },
            Note { value: 52 },
        ],
{
    let mut r: Vec<Note> = Vec::new();
    r.push(Note { value: 28 });
    r.push(Note { value: 33 });
    r.push(Note { value: 38 });
    r.push(Note { value: 43 });
    r.push(Note { value: 47 });
    r.push(Note { value: 52 });
    proof {
        assert(r@ =~= seq![
            Note { value: 28 },
            Note { value: 33 },
            Note { value: 38 },
            Note { value: 43 },
            Note { value: 47 },
            Note { value: 52 },
        ]);
    }
    r
}

/// The human description of a location: `Open N string` for fret 0,
/// `String N, fret F` otherwise.
pub open spec fn loc_str(loc: FretboardLocation) -> Seq<char> {
    if loc.fret_number == 0 {
        "Open "@ + dec_str(loc.string_number as nat) + " string"@
    } else {
        "String "@ + dec_str(loc.string_number as nat) + ", fret "@ + dec_str(
            loc.fret_number as nat,
        )
    }
}

impl FretboardLocation {
    /// Describes this location in words: `Open N string` for an open
    /// string, else `String N, fret F`.
    pub fn describe(&self) -> (r: String)
        ensures
            r@ == loc_str(*self),
    {
        let mut out = String::new();
        if self.fret_number == 0 {
            out.append("Open ");
            push_dec(&mut out, self.string_number as u64);
            out.append(" string");
            proof {
                assert(out@ =~= loc_str(*self));
            }
        } else {
            out.append("String ");
            push_dec(&mut out, self.string_number as u64);
            out.append(", fret ");
            push_dec(&mut out, self.fret_number as u64);
            proof {
                assert(out@ =~= loc_str(*self));
            }
        }
        out
    }
}

/// The lowest fret number among `locs` (0 for an empty sequence, which
/// the diagram never sees).
pub open spec fn min_fret(locs: Seq<FretboardLocation>) -> int
    decreases locs.len(),
{
    if locs.len() == 0 {
        0
    } else if locs.len() == 1 {
        locs[0].fret_number as int
    } else {
        let m = min_fret(locs.drop_last());
        if locs.last().fret_number < m {
            locs.last().fret_number as int
        } else {
            m
        }
    }
}

/// The highest fret number among `locs` (0 for an empty sequence, which
/// the diagram never sees).
pub open spec fn max_fret(locs: Seq<FretboardLocation>) -> int
    decreases locs.len(),
{
    if locs.len() == 0 {
        0
    } else if locs.len() == 1 {
        locs[0].fret_number as int
    } else {
        let m = max_fret(locs.drop_last());
        if locs.last().fret_number > m {
            locs.last().fret_number as int
        } else {
            m
        }
    }
}

/// The glyph drawn at one string/fret cell: a marker when the cell is a
/// reported location, the open-string filler at fret 0, the fretwire
/// filler elsewhere.
pub open spec fn cell_char(locs: Seq<FretboardLocation>, snum: usize, fret: usize) -> char {
    if locs.contains(FretboardLocation { string_number: snum, fret_number: fret }) {
        '∗'
    } else if fret == 0 {
        '-'
    } else {
        '│'
    }
}

/// One diagram row without its label: the cells of strings `ns` down
/// to 1 at fret `fret`.
pub open spec fn row_cells(locs: Seq<FretboardLocation>, ns: int, fret: usize) -> Seq<char> {
    Seq::new(
        if ns < 0 {
            0
        } else {
            ns as nat
        },
        |j: int| cell_char(locs, (ns - j) as usize, fret),
    )
}

/// One full diagram row: the cells, a space, the fret number, a newline.
pub open spec fn row_str(locs: Seq<FretboardLocation>, ns: int, fret: usize) -> Seq<char> {
    row_cells(locs, ns, fret) + seq![' '] + dec_str(fret as nat) + seq!['\n']
}

/// The rows for frets `lo` through `hi` inclusive, top to bottom.
pub open spec fn grid_str(locs: Seq<FretboardLocation>, ns: int, lo: int, hi: int) -> Seq<char>
    decreases hi + 1 - lo,
{
    if lo > hi || lo < 0 {
        Seq::empty()
    } else {
        row_str(locs, ns, lo as usize) + grid_str(locs, ns, lo + 1, hi)
    }
}

/// A grid grows at the bottom one row at a time.
proof fn lemma_grid_snoc(locs: Seq<FretboardLocation>, ns: int, lo: int, hi: int)
    requires
        0 <= lo <= hi,
    ensures
        grid_str(locs, ns, lo, hi) == grid_str(locs, ns, lo, hi - 1) + row_str(
            locs,
            ns,
            hi as usize,
        ),
    decreases hi + 1 - lo,
{
    if lo == hi {
        assert(grid_str(locs, ns, lo + 1, hi) =~= Seq::<char>::empty());
        assert(grid_str(locs, ns, lo, hi - 1) =~= Seq::<char>::empty());
        assert(grid_str(locs, ns, lo, hi) =~= grid_str(locs, ns, lo, hi - 1) + row_str(
            locs,
            ns,
            hi as usize,
        ));
    } else {
        lemma_grid_snoc(locs, ns, lo + 1, hi);
        assert(grid_str(locs, ns, lo, hi) =~= grid_str(locs, ns, lo, hi - 1) + row_str(
            locs,
            ns,
            hi as usize,
        ));
    }
}

/// Whether `locs` holds `loc`.
fn contains_loc(locs: &Vec<FretboardLocation>, loc: FretboardLocation) -> (r: bool)
    ensures
        r == locs@.contains(loc),
{
    let mut i: usize = 0;
    while i < locs.len()
        invariant
            0 <= i <= locs@.len(),
            forall|j: int| 0 <= j < i ==> locs@[j] != loc,
        decreases locs@.len() - i,
    {
        if locs[i] == loc {
            return true;
        }
        i = i + 1;
    }
    proof {
        if locs@.contains(loc) {
            let j = choose|j: int| 0 <= j < locs@.len() && locs@[j] == loc;
        }
    }
    false
}

/// The glyph for one cell, as text.
fn cell_literal(locs: &Vec<FretboardLocation>, snum: usize, fret: usize) -> (r: &'static str)
    ensures
        r@ == seq![cell_char(locs@, snum, fret)],
{
    let r: &'static str = if contains_loc(locs, FretboardLocation { string_number: snum, fret_number: fret }) {
        "∗"
    } else if fret == 0 {
        "-"
    } else {
        "│"
    };
    proof {
        reveal_strlit("∗");
        reveal_strlit("-");
        reveal_strlit("│");
        assert(r@ =~= seq![cell_char(locs@, snum, fret)]);
    }
    r
}

/// Appends one diagram row for `fret` to `out`.
fn push_row(out: &mut String, locs: &Vec<FretboardLocation>, ns: usize, fret: usize)
    ensures
        final(out)@ == old(out)@ + row_str(locs@, ns as int, fret),
{
    let ghost base = out@;
    let mut j: usize = 0;
    while j < ns
        invariant
            0 <= j <= ns,
            out@ == base + row_cells(locs@, ns as int, fret).take(j as int),
        decreases ns - j,
    {
        let cell = cell_literal(locs, ns - j, fret);
        out.append(cell);
        proof {
            assert(row_cells(locs@, ns as int, fret).take(j as int + 1) =~= row_cells(
                locs@,
                ns as int,
                fret,
            ).take(j as int).push(cell_char(locs@, (ns - j) as usize, fret)));
            assert(out@ =~= base + row_cells(locs@, ns as int, fret).take(j as int + 1));
        }
        j = j + 1;
    }
    out.append(" ");
    push_dec(out, fret as u64);
    out.append("\n");
    proof {
        reveal_strlit(" ");
        reveal_strlit("\n");
        assert(row_cells(locs@, ns as int, fret).take(ns as int) =~= row_cells(
            locs@,
            ns as int,
            fret,
        ));
        assert(out@ =~= base + row_str(locs@, ns as int, fret));
    }
}

/// A diagram of a guitar's fretboard depicting a set of locations: one
/// row per fret between the lowest and highest located fret, strings
/// drawn highest-numbered first, each row labelled with its fret number.
pub struct FretboardDiagram<'g> {
    pub guitar: &'g Guitar,
    pub locations: Vec<FretboardLocation>,
}

impl<'g> FretboardDiagram<'g> {
    /// Creates a diagram of `locations` on `guitar`.  The renderer
    /// requires at least one location; callers handle the empty case.
    pub fn new(guitar: &'g Guitar, locations: Vec<FretboardLocation>) -> (r: Self)
        ensures
            r.guitar == guitar,
            r.locations == locations,
    {
        FretboardDiagram { guitar, locations }
    }

    /// Draws the diagram: for every fret from the lowest to the highest
    /// present in the locations, one row of glyphs over all strings
    /// (highest string number leftmost) followed by the fret number.
    pub fn render(&self) -> (r: String)
        requires
            self.locations@.len() >= 1,
        ensures
            r@ == grid_str(
                self.locations@,
                self.guitar.strings@.len() as int,
                min_fret(self.locations@),
                max_fret(self.locations@),
            ),
    {
        let n = self.locations.len();
        let mut lo = self.locations[0].fret_number;
        let mut hi = lo;
        let mut i: usize = 1;
        while i < n
            invariant
                1 <= i <= n,
                n == self.locations@.len(),
                lo as int == min_fret(self.locations@.take(i as int)),
                hi as int == max_fret(self.locations@.take(i as int)),
            decreases n - i,
        {
            let f = self.locations[i].fret_number;
            proof {
                assert(self.locations@.take(i as int + 1).drop_last() =~= self.locations@.take(
                    i as int,
                ));
                assert(self.locations@.take(i as int + 1).last() == self.locations@[i as int]);
            }
            if f < lo {
                lo = f;
            }
            if f > hi {
                hi = f;
            }
            i = i + 1;
        }
        proof {
            assert(self.locations@.take(n as int) =~= self.locations@);
        }
        let ns = self.guitar.strings.len();
        let mut out = String::new();
        let mut fret = lo;
        while fret < hi
            invariant
                lo <= fret <= hi,
                lo as int == min_fret(self.locations@),
                hi as int == max_fret(self.locations@),
                ns == self.guitar.strings@.len(),
                out@ == grid_str(self.locations@, ns as int, lo as int, fret as int - 1),
            decreases hi - fret,
        {
            push_row(&mut out, &self.locations, ns, fret);
            proof {
                lemma_grid_snoc(self.locations@, ns as int, lo as int, fret as int);
            }
            fret = fret + 1;
        }
        push_row(&mut out, &self.locations, ns, hi);
        proof {
            lemma_grid_snoc(self.locations@, ns as int, lo as int, hi as int);
        }
        out
    }
}

} // verus!
