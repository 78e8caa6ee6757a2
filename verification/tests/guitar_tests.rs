use minstrel::guitar::standard_tuning;
use minstrel::guitar::FretboardDiagram;
use minstrel::guitar::FretboardLocation;
use minstrel::luthier::Luthier;
use minstrel::note::MusicError;
use minstrel::note::Note;

#[test]
fn standard_tuning_notes() {
    let tuning = standard_tuning();
    let names: Vec<String> = tuning.iter().map(|n| n.note_string()).collect();
    assert_eq!(names, vec!["E2", "A2", "D3", "G3", "B3", "E4"]);
}

#[test]
fn locate_e3_on_standard_guitar() {
    let guitar = Luthier::new(21).string(standard_tuning()).build();
    let locations = guitar.locations(Note::parse("E3").unwrap());
    assert_eq!(
        locations,
        vec![
            FretboardLocation::new(4, 2),
            FretboardLocation::new(5, 7),
            FretboardLocation::new(6, 12)
        ]
    );
    // no out-of-range string or fret appears
    for loc in &locations {
        assert!(1 <= loc.string_number && loc.string_number <= 6);
        assert!(loc.fret_number <= 21);
    }
}

#[test]
fn locate_missing_note_is_empty() {
    let guitar = Luthier::new(5).string(standard_tuning()).build();
    // E6 is far above the five reachable frets of every string
    assert!(guitar.locations(Note::parse("E6").unwrap()).is_empty());
}

#[test]
fn locate_is_octave_sensitive() {
    let guitar = Luthier::new(21).string(standard_tuning()).build();
    let e3 = guitar.locations(Note::parse("E3").unwrap());
    let e4 = guitar.locations(Note::parse("E4").unwrap());
    assert_ne!(e3, e4);
    assert!(e4.contains(&FretboardLocation::new(1, 0)));
}

#[test]
fn locate_is_idempotent() {
    let guitar = Luthier::new(21).string(standard_tuning()).build();
    let note = Note::parse("E3").unwrap();
    assert_eq!(guitar.locations(note), guitar.locations(note));
}

#[test]
fn capo_raises_tuning_and_removes_frets() {
    let plain = Luthier::new(22).string(standard_tuning());
    let before: Vec<Note> = plain.tuning.clone();
    let capoed = plain.add_capo(4).unwrap();
    assert_eq!(capoed.num_frets, 18);
    assert_eq!(capoed.tuning.len(), before.len());
    for (old, new) in before.iter().zip(capoed.tuning.iter()) {
        assert_eq!(new.value, old.value + 4);
    }
}

#[test]
fn capo_errors() {
    assert_eq!(
        Luthier::new(21).add_capo(2).err(),
        Some(MusicError::CapoBeforeTuning)
    );
    assert_eq!(
        Luthier::new(21)
            .string(standard_tuning())
            .add_capo(22)
            .err(),
        Some(MusicError::CapoFretTooHigh)
    );
}

#[test]
fn capos_compound() {
    let twice = Luthier::new(21)
        .string(standard_tuning())
        .add_capo(2)
        .unwrap()
        .add_capo(3)
        .unwrap();
    let once = Luthier::new(21).string(standard_tuning()).add_capo(5).unwrap();
    assert_eq!(twice.num_frets, once.num_frets);
    assert_eq!(twice.tuning, once.tuning);
    // a second capo is checked against the already-reduced fret count
    assert_eq!(
        Luthier::new(21)
            .string(standard_tuning())
            .add_capo(20)
            .unwrap()
            .add_capo(2)
            .err(),
        Some(MusicError::CapoFretTooHigh)
    );
}

#[test]
fn describe_locations() {
    assert_eq!(FretboardLocation::new(3, 0).describe(), "Open 3 string");
    assert_eq!(FretboardLocation::new(2, 5).describe(), "String 2, fret 5");
}

#[test]
fn render_single_marker_row() {
    // two strings: string 1 is the higher open note (20), string 2 the lower (10)
    let guitar = Luthier::new(3)
        .string(vec![Note::new(10), Note::new(20)])
        .build();
    let locations = guitar.locations(Note::new(11));
    assert_eq!(locations, vec![FretboardLocation::new(2, 1)]);
    let diagram = FretboardDiagram::new(&guitar, locations);
    assert_eq!(diagram.render(), "∗│ 1\n");
}

#[test]
fn render_spans_fret_range() {
    let guitar = Luthier::new(3)
        .string(vec![Note::new(10), Note::new(12)])
        .build();
    // 12 sounds open on string 1 and at fret 2 on string 2
    let locations = guitar.locations(Note::new(12));
    assert_eq!(
        locations,
        vec![FretboardLocation::new(1, 0), FretboardLocation::new(2, 2)]
    );
    let diagram = FretboardDiagram::new(&guitar, locations);
    assert_eq!(diagram.render(), "-∗ 0\n││ 1\n∗│ 2\n");
}
