//! The instrument builder: fret count, tuning, capo, and finalization.

use vstd::prelude::*;

use crate::guitar::string_spans;
use crate::guitar::Guitar;
use crate::guitar::GuitarString;
use crate::note::MusicError;
use crate::note::Note;

verus! {

/// A [`Guitar`] builder: collects a fret count and a tuning, applies
/// capos, and finally builds the instrument.
#[derive(Debug)]
pub struct Luthier {
    pub num_frets: usize,
    pub tuning: Vec<Note>,
    pub strings: Vec<GuitarString>,
}

impl Luthier {
    /// The builder's strings mirror its tuning in reverse order (string
    /// number 1 is the last tuning entry), each spanning the current fret
    /// count, and every open note leaves the whole span representable.
    pub open spec fn wf(self) -> bool {
        &&& self.num_frets < usize::MAX
        &&& self.strings@.len() == self.tuning@.len()
        &&& forall|i: int|
            0 <= i < self.tuning@.len() ==> (#[trigger] self.tuning@[i]).value + self.num_frets
                <= u32::MAX
        &&& forall|i: int|
            0 <= i < self.strings@.len() ==> string_spans(
                #[trigger] self.strings@[i],
                self.tuning@[self.tuning@.len() - 1 - i].value as int,
                self.num_frets as int,
            )
    }

    /// Starts building a guitar with `num_frets` frets and no strings.
    pub fn new(num_frets: usize) -> (r: Luthier)
        requires
            num_frets < usize::MAX,
        ensures
            r.wf(),
            r.num_frets == num_frets,
            r.tuning@.len() == 0,
            r.strings@.len() == 0,
    {
        Luthier { num_frets, tuning: Vec::new(), strings: Vec::new() }
    }

    /// Strings the guitar with `tuning`, the open notes low to high;
    /// replaces any previous tuning.  One string is built per open note,
    /// in reverse order, so that string number 1 is the highest.
    pub fn string(self, tuning: Vec<Note>) -> (r: Luthier)
        requires
            forall|i: int|
                0 <= i < tuning@.len() ==> (#[trigger] tuning@[i]).value + self.num_frets
                    <= u32::MAX,
            self.num_frets < usize::MAX,
        ensures
            r.wf(),
            r.num_frets == self.num_frets,
            r.tuning == tuning,
    {
        let num_frets = self.num_frets;
        let mut strings: Vec<GuitarString> = Vec::new();
        let n = tuning.len();
        let mut i: usize = 0;
        while i < n
            invariant
                0 <= i <= n,
                n == tuning@.len(),
                num_frets < usize::MAX,
                forall|j: int|
                    0 <= j < n ==> (#[trigger] tuning@[j]).value + num_frets <= u32::MAX,
                strings@.len() == i,
                forall|j: int|
                    0 <= j < i ==> string_spans(
                        #[trigger] strings@[j],
                        tuning@[n - 1 - j].value as int,
                        num_frets as int,
                    ),
            decreases n - i,
        {
            strings.push(GuitarString::new(tuning[n - 1 - i], num_frets));
            i = i + 1;
        }
        Luthier { num_frets, tuning, strings }
    }

    /// Puts a capo at `fret_number`: every open note rises by that many
    /// semitones and the same number of frets stops being addressable.
    /// Fails with [`MusicError::CapoFretTooHigh`] when `fret_number`
    /// exceeds the current fret count, and with
    /// [`MusicError::CapoBeforeTuning`] when the guitar has not been
    /// strung.  Capos compound: adding a capo at `a` and then at `b` ends
    /// in the same tuning and fret count as one capo at `a + b`.
    pub fn add_capo(self, fret_number: usize) -> (r: Result<Luthier, MusicError>)
        requires
            self.wf(),
        ensures
            fret_number > self.num_frets ==> r == Err::<Luthier, MusicError>(
                MusicError::CapoFretTooHigh,
            ),
            fret_number <= self.num_frets && self.tuning@.len() == 0 ==> r == Err::<
                Luthier,
                MusicError,
            >(MusicError::CapoBeforeTuning),
            fret_number <= self.num_frets && self.tuning@.len() > 0 ==> match r {
                Ok(l) => {
                    &&& l.wf()
                    &&& l.num_frets == self.num_frets - fret_number
                    &&& l.tuning@.len() == self.tuning@.len()
                    &&& forall|i: int|
                        0 <= i < self.tuning@.len() ==> (#[trigger] l.tuning@[i]).value
                            == self.tuning@[i].value + fret_number
                },
                Err(e) => false,
            },
    {
        if fret_number > self.num_frets {
            return Err(MusicError::CapoFretTooHigh);
        }
        if self.tuning.len() == 0 {
            return Err(MusicError::CapoBeforeTuning);
        }
        let num_frets = self.num_frets - fret_number;
        let n = self.tuning.len();
        let mut tuning: Vec<Note> = Vec::new();
        let mut i: usize = 0;
        while i < n
            invariant
                0 <= i <= n,
                n == self.tuning@.len(),
                fret_number <= self.num_frets,
                self.wf(),
                tuning@.len() == i,
                forall|j: int|
                    0 <= j < i ==> (#[trigger] tuning@[j]).value == self.tuning@[j].value
                        + fret_number,
            decreases n - i,
        {
            let open = self.tuning[i];
            tuning.push(Note { value: open.value + (fret_number as u32) });
            i = i + 1;
        }
        let base = Luthier { num_frets, tuning: Vec::new(), strings: Vec::new() };
        Ok(base.string(tuning))
    }

    /// Returns the finished guitar, consuming the builder.
    pub fn build(self) -> (g: Guitar)
        requires
            self.wf(),
        ensures
            g.wf(),
            g.num_frets == self.num_frets,
            g.strings == self.strings,
            g.strings@.len() == self.tuning@.len(),
            forall|i: int|
                0 <= i < g.strings@.len() ==> string_spans(
                    #[trigger] g.strings@[i],
                    self.tuning@[self.tuning@.len() - 1 - i].value as int,
                    self.num_frets as int,
                ),
    {
        Guitar { num_frets: self.num_frets, strings: self.strings }
    }
}

} // verus!
