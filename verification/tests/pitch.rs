use gpro::pitch::{semitone_steps, PitchClass};

const ALL: [PitchClass; 12] = [
    PitchClass::C,
    PitchClass::Cs,
    PitchClass::D,
    PitchClass::Ds,
    PitchClass::E,
    PitchClass::F,
    PitchClass::Fs,
    PitchClass::G,
    PitchClass::Gs,
    PitchClass::A,
    PitchClass::As,
    PitchClass::B,
];

#[test]
fn natural_names_are_read() {
    assert_eq!(PitchClass::from_name("C"), Some(PitchClass::C));
    assert_eq!(PitchClass::from_name("D"), Some(PitchClass::D));
    assert_eq!(PitchClass::from_name("E"), Some(PitchClass::E));
    assert_eq!(PitchClass::from_name("F"), Some(PitchClass::F));
    assert_eq!(PitchClass::from_name("G"), Some(PitchClass::G));
    assert_eq!(PitchClass::from_name("A"), Some(PitchClass::A));
    assert_eq!(PitchClass::from_name("B"), Some(PitchClass::B));
}

#[test]
fn sharp_names_are_read() {
    assert_eq!(PitchClass::from_name("C#"), Some(PitchClass::Cs));
    assert_eq!(PitchClass::from_name("D#"), Some(PitchClass::Ds));
    assert_eq!(PitchClass::from_name("E#"), Some(PitchClass::F));
    assert_eq!(PitchClass::from_name("F#"), Some(PitchClass::Fs));
    assert_eq!(PitchClass::from_name("G#"), Some(PitchClass::Gs));
    assert_eq!(PitchClass::from_name("A#"), Some(PitchClass::As));
    assert_eq!(PitchClass::from_name("B#"), Some(PitchClass::C));
}

#[test]
fn flat_names_are_read() {
    assert_eq!(PitchClass::from_name("Cb"), Some(PitchClass::B));
    assert_eq!(PitchClass::from_name("Db"), Some(PitchClass::Cs));
    assert_eq!(PitchClass::from_name("Eb"), Some(PitchClass::Ds));
    assert_eq!(PitchClass::from_name("Fb"), Some(PitchClass::E));
    assert_eq!(PitchClass::from_name("Gb"), Some(PitchClass::Fs));
    assert_eq!(PitchClass::from_name("Ab"), Some(PitchClass::Gs));
    assert_eq!(PitchClass::from_name("Bb"), Some(PitchClass::As));
}

#[test]
fn other_texts_name_no_pitch() {
    for text in [
        "", "H", "c", "a", "C##", "Cbb", "Cs", "CS", "Cx", "#", "b", "Am", "maj7", "sus4", " C",
        "C ", "C\u{266f}", "D\u{266d}", "1", "C#m",
    ] {
        assert_eq!(PitchClass::from_name(text), None, "{:?}", text);
    }
}

#[test]
fn index_and_from_index_agree() {
    for (i, p) in ALL.iter().enumerate() {
        assert_eq!(p.index() as usize, i);
        assert_eq!(PitchClass::from_index(i as u8), *p);
        assert_eq!(PitchClass::from_index(i as u8 + 12), *p);
        assert_eq!(PitchClass::from_index(i as u8 + 240), *p);
    }
}

#[test]
fn names_are_spelled_with_sharps() {
    let names = ["C", "C#", "D", "D#", "E", "F", "F#", "G", "G#", "A", "A#", "B"];
    for (i, p) in ALL.iter().enumerate() {
        assert_eq!(p.name(), names[i]);
    }
}

#[test]
fn transposition_moves_up_and_around() {
    assert_eq!(PitchClass::C.transposed_by(2), PitchClass::D);
    assert_eq!(PitchClass::G.transposed_by(2), PitchClass::A);
    assert_eq!(PitchClass::B.transposed_by(1), PitchClass::C);
    assert_eq!(PitchClass::A.transposed_by(7), PitchClass::E);
    assert_eq!(PitchClass::C.transposed_by(0), PitchClass::C);
    assert_eq!(PitchClass::C.transposed_by(11), PitchClass::B);
}

#[test]
fn transposition_moves_down() {
    assert_eq!(PitchClass::C.transposed_by(-1), PitchClass::B);
    assert_eq!(PitchClass::D.transposed_by(-2), PitchClass::C);
    assert_eq!(PitchClass::E.transposed_by(-12), PitchClass::E);
    assert_eq!(PitchClass::E.transposed_by(-13), PitchClass::Ds);
    assert_eq!(PitchClass::C.transposed_by(-25), PitchClass::B);
}

#[test]
fn an_octave_changes_nothing() {
    for name in [
        "C", "C#", "Db", "D", "D#", "Eb", "E", "E#", "Fb", "F", "F#", "Gb", "G", "G#", "Ab", "A",
        "A#", "Bb", "B", "B#", "Cb",
    ] {
        let p = PitchClass::from_name(name).unwrap();
        assert_eq!(p.transposed_by(12), p);
        assert_eq!(p.transposed_by(-12), p);
        assert_eq!(p.transposed_by(24), p);
        for n in -30..30 {
            assert_eq!(p.transposed_by(n + 12), p.transposed_by(n));
        }
    }
}

#[test]
fn transposition_matches_the_index_sum() {
    for p in ALL {
        for n in -40i32..40 {
            let expected = (p.index() as i32 + n).rem_euclid(12) as u8;
            assert_eq!(p.transposed_by(n).index(), expected);
        }
    }
}

#[test]
fn extreme_amounts_are_reduced() {
    assert_eq!(semitone_steps(i32::MAX), (i32::MAX as i64).rem_euclid(12) as u8);
    assert_eq!(semitone_steps(i32::MIN), (i32::MIN as i64).rem_euclid(12) as u8);
    assert_eq!(semitone_steps(-1), 11);
    assert_eq!(semitone_steps(12), 0);
    assert_eq!(semitone_steps(-12), 0);
    assert_eq!(PitchClass::C.transposed_by(i32::MAX), PitchClass::G);
    assert_eq!(PitchClass::C.transposed_by(i32::MIN), PitchClass::E);
}
