use minstrel::key::guess_key;
use minstrel::key::Key;
use minstrel::key::Mode;
use minstrel::note::Note;

#[test]
fn construction() {
    assert_eq!(
        Key::new(Note::new(0), Mode::Ionian).notes,
        [
            Note::new(0),
            Note::new(2),
            Note::new(4),
            Note::new(5),
            Note::new(7),
            Note::new(9),
            Note::new(11)
        ]
    );

    assert_eq!(
        Key::new(Note::new(3), Mode::Aeolian).notes,
        [
            Note::new(3),
            Note::new(5),
            Note::new(6),
            Note::new(8),
            Note::new(10),
            Note::new(11),
            Note::new(13)
        ]
    );
}

#[test]
fn display() {
    // D Dorian
    assert_eq!(
        Key::new(Note::new(2), Mode::Dorian).notes_string(),
        "D E F G A B C"
    );

    // Ab Mixolydian
    assert_eq!(
        Key::new(Note::new(8), Mode::Mixolydian).notes_string(),
        "Ab Bb C D Eb F G"
    );
}

#[test]
fn display_d2_dorian() {
    let root = Note::parse("D2").unwrap();
    assert_eq!(Key::new(root, Mode::Dorian).notes_string(), "D E F G A B C");
}

#[test]
fn summary_display() {
    assert_eq!(
        Key::new(Note::new(0), Mode::Ionian).summary_string(),
        "C Ionian"
    );
    assert_eq!(
        Key::new(Note::new(8), Mode::Mixolydian).summary_string(),
        "Ab Mixolydian"
    );
}

#[test]
fn scale_shape_for_every_root_and_mode() {
    let modes = [
        Mode::Ionian,
        Mode::Dorian,
        Mode::Phrygian,
        Mode::Lydian,
        Mode::Mixolydian,
        Mode::Aeolian,
        Mode::Locrian,
    ];
    for root in 0u32..24 {
        for mode in modes {
            let key = Key::new(Note::new(root), mode);
            assert_eq!(key.notes.len(), 7);
            assert_eq!(key.notes[0], Note::new(root));
            let mut pattern = mode.into_iter();
            for i in 1..7 {
                let step = pattern.next().unwrap();
                assert_eq!(
                    key.notes[i],
                    key.notes[i - 1].add_interval(step),
                    "degree step mismatch"
                );
            }
            assert!(pattern.next().is_none());
        }
    }
}

#[test]
fn mode_patterns() {
    let semis = |m: Mode| -> Vec<u32> {
        let mut it = m.into_iter();
        let mut v = Vec::new();
        while let Some(step) = it.next() {
            v.push(step.semitones);
        }
        v
    };
    assert_eq!(semis(Mode::Ionian), vec![2, 2, 1, 2, 2, 2]);
    assert_eq!(semis(Mode::Dorian), vec![2, 1, 2, 2, 2, 1]);
    assert_eq!(semis(Mode::Phrygian), vec![1, 2, 2, 2, 1, 2]);
    assert_eq!(semis(Mode::Lydian), vec![2, 2, 1, 2, 2, 1]);
    assert_eq!(semis(Mode::Mixolydian), vec![2, 2, 2, 1, 2, 2]);
    assert_eq!(semis(Mode::Aeolian), vec![2, 1, 2, 2, 1, 2]);
    assert_eq!(semis(Mode::Locrian), vec![1, 2, 2, 1, 2, 2]);
}

#[test]
fn contains_disregarding_octave() {
    let key = Key::new(Note::new(0), Mode::Ionian);
    assert!(key.contains_disregarding_octave(Note::new(24))); // C2
    assert!(key.contains_disregarding_octave(Note::new(16))); // E1
    assert!(!key.contains_disregarding_octave(Note::new(13))); // Db1
    let pcs = key.notes_disregarding_octave();
    assert_eq!(
        pcs,
        [
            Note::new(0),
            Note::new(2),
            Note::new(4),
            Note::new(5),
            Note::new(7),
            Note::new(9),
            Note::new(11)
        ]
    );
}

fn c_major_pitch_classes() -> Vec<Note> {
    vec![
        Note::new(0),
        Note::new(2),
        Note::new(4),
        Note::new(5),
        Note::new(7),
        Note::new(9),
        Note::new(11),
    ]
}

#[test]
fn guess_key_c_major_notes() {
    let result = guess_key(c_major_pitch_classes(), None);
    assert!(!result.is_empty());
    // includes C Ionian
    assert!(result
        .iter()
        .any(|k| k.notes[0].disregard_octave() == Note::new(0) && matches!(k.mode, Mode::Ionian)));
    // includes A Aeolian, the relative minor
    assert!(result
        .iter()
        .any(|k| k.notes[0].disregard_octave() == Note::new(9) && matches!(k.mode, Mode::Aeolian)));
    // every reported key contains all seven input pitch classes
    for key in &result {
        for note in c_major_pitch_classes() {
            assert!(key.contains_disregarding_octave(note));
        }
    }
}

#[test]
fn guess_key_with_root_hint() {
    let result = guess_key(c_major_pitch_classes(), Some(Note::new(0)));
    assert!(!result.is_empty());
    for key in &result {
        assert_eq!(key.notes[0], Note::new(0));
        for note in c_major_pitch_classes() {
            assert!(key.contains_disregarding_octave(note));
        }
    }
    assert!(result.iter().any(|k| matches!(k.mode, Mode::Ionian)));
    assert!(!result.iter().any(|k| matches!(k.mode, Mode::Dorian)));
}

#[test]
fn guess_key_no_candidates() {
    // the chromatic scale's first eight pitch classes fit no church mode
    let notes: Vec<Note> = (0u32..8).map(Note::new).collect();
    assert!(guess_key(notes, None).is_empty());
}

#[test]
fn guess_key_is_idempotent() {
    let r1 = guess_key(c_major_pitch_classes(), None);
    let r2 = guess_key(c_major_pitch_classes(), None);
    assert_eq!(r1.len(), r2.len());
    for (a, b) in r1.iter().zip(r2.iter()) {
        assert_eq!(a.notes, b.notes);
        assert_eq!(a.mode, b.mode);
    }
}
