//! A music-theory library for fretted instruments: pitch parsing and
//! arithmetic, church-mode scale construction, key inference, and
//! fretboard geometry (string/fret mapping, capo, location search,
//! diagram rendering).

pub mod guitar;
pub mod key;
pub mod luthier;
pub mod note;
