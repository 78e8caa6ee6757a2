use minstrel::note::Interval;
use minstrel::note::MusicError;
use minstrel::note::Note;

#[test]
fn from_str() {
    assert_eq!(Note::parse("C0").unwrap(), Note::new(0));
    assert_eq!(Note::parse("Db3").unwrap(), Note::new(37));
    assert_eq!(Note::parse("Bb10").unwrap(), Note::new(130));
    assert!(Note::parse("Ab").is_err()); // No octave
    assert!(Note::parse("Cb2").is_err()); // Invalid note name
    assert!(Note::parse("Gb-2").is_err()); // Invalid octave
}

#[test]
fn to_str() {
    assert_eq!(Note::new(0).note_string(), "C0");
    assert_eq!(Note::new(37).note_string(), "Db3");
    assert_eq!(Note::new(76).note_string(), "E6");
}

#[test]
fn transpose() {
    assert_eq!(Note::new(10).add_interval(Interval::new(5)), Note::new(15));
    assert_eq!(Note::new(42).add_interval(Interval::new(12)), Note::new(54));
    assert_eq!(Note::new(10).sub_interval(Interval::new(5)).unwrap(), Note::new(5));
    assert_eq!(Note::new(42).sub_interval(Interval::new(12)).unwrap(), Note::new(30));
}

#[test]
fn interval() {
    assert_eq!(Note::new(10).interval_to(Note::new(5)), Interval::new(5));
    assert_eq!(Note::new(21).interval_to(Note::new(27)), Interval::new(6));
    assert_eq!(Note::new(37).interval_to(Note::new(37)), Interval::new(0));
}

#[test]
fn round_trip_format_of_parse() {
    // canonical note text survives a parse-then-format round trip
    for s in ["C0", "Db3", "Bb10", "Gb7", "B12", "E6", "A0", "Eb1", "F100"] {
        let n = Note::parse(s).unwrap();
        assert_eq!(n.note_string(), s);
    }
}

#[test]
fn round_trip_parse_of_format() {
    for v in [0u32, 1, 11, 12, 37, 130, 144, 4_000_000_000] {
        let n = Note::new(v);
        assert_eq!(Note::parse(&n.note_string()).unwrap(), n);
    }
}

#[test]
fn parse_error_kinds() {
    assert_eq!(Note::parse("Xb2"), Err(MusicError::InvalidNoteName));
    assert_eq!(Note::parse(""), Err(MusicError::InvalidNoteName));
    assert_eq!(Note::parse("c3"), Err(MusicError::InvalidNoteName));
    assert_eq!(Note::parse("Ab"), Err(MusicError::InvalidOctave));
    assert_eq!(Note::parse("Cb2"), Err(MusicError::InvalidOctave));
    assert_eq!(Note::parse("Gb-2"), Err(MusicError::InvalidOctave));
    assert_eq!(Note::parse("C1x"), Err(MusicError::InvalidOctave));
    // an octave so large the pitch value cannot be represented
    assert_eq!(Note::parse("C99999999999"), Err(MusicError::InvalidOctave));
}

#[test]
fn transpose_c0_by_octave_is_c1() {
    let c0 = Note::parse("C0").unwrap();
    let c1 = Note::parse("C1").unwrap();
    assert_eq!(c0.add_interval(Interval::new(12)), c1);
}

#[test]
fn interval_is_symmetric() {
    let a = Note::parse("E3").unwrap();
    let b = Note::parse("Bb10").unwrap();
    assert_eq!(a.interval_to(b), b.interval_to(a));
}

#[test]
fn subtract_below_zero_is_out_of_range() {
    assert_eq!(
        Note::new(5).sub_interval(Interval::new(10)),
        Err(MusicError::PitchOutOfRange)
    );
}

#[test]
fn ascending_sequence_from_a_note() {
    let mut it = Note::new(40).into_iter();
    assert_eq!(it.next(), Some(Note::new(40)));
    assert_eq!(it.next(), Some(Note::new(41)));
    assert_eq!(it.next(), Some(Note::new(42)));
}

#[test]
fn pitch_class_names() {
    assert_eq!(Note::new(0).name_string(), "C");
    assert_eq!(Note::new(13).name_string(), "Db");
    assert_eq!(Note::new(23).name_string(), "B");
    assert_eq!(Note::new(40).disregard_octave(), Note::new(4));
}
