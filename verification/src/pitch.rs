//! The twelve chromatic pitch classes and their transposition.

use vstd::prelude::*;
use rust_music_theory::interval::Interval;
use rust_music_theory::note::PitchClass as NotePitch;

verus! {

/// One of the twelve chromatic pitch classes, spelled with sharps.
#[derive(Debug, Clone, Copy, PartialEq, Eq, Structural)]
pub enum PitchClass {
    C,
    Cs,
    D,
    Ds,
    E,
    F,
    Fs,
    G,
    Gs,
    A,
    As,
    B,
}

/// The semitone offset from C of a natural note letter.
pub open spec fn letter_index(c: char) -> Option<int> {
    if c == 'C' {
        Some(0)
    } else if c == 'D' {
        Some(2)
    } else if c == 'E' {
        Some(4)
    } else if c == 'F' {
        Some(5)
    } else if c == 'G' {
        Some(7)
    } else if c == 'A' {
        Some(9)
    } else if c == 'B' {
        Some(11)
    } else {
        None
    }
}

/// A pitch name is a letter from `A` to `G`, alone or followed by one `#` or `b`.
pub open spec fn is_pitch_name(s: Seq<char>) -> bool {
    &&& 1 <= s.len() <= 2
    &&& letter_index(s[0]) is Some
    &&& s.len() == 2 ==> s[1] == '#' || s[1] == 'b'
}

/// The semitone offset from C, in `0..12`, that a pitch name stands for.
pub open spec fn name_index(s: Seq<char>) -> int
    recommends
        is_pitch_name(s),
{
    let base = letter_index(s[0]).unwrap();
    if s.len() == 1 {
        base
    } else if s[1] == '#' {
        (base + 1) % 12
    } else {
        (base + 11) % 12
    }
}

/// The sharp spelling of the pitch class at a semitone offset from C.
pub open spec fn index_name(i: int) -> Seq<char> {
    if i == 0 {
        seq!['C']
    } else if i == 1 {
        seq!['C', '#']
    } else if i == 2 {
        seq!['D']
    } else if i == 3 {
        seq!['D', '#']
    } else if i == 4 {
        seq!['E']
    } else if i == 5 {
        seq!['F']
    } else if i == 6 {
        seq!['F', '#']
    } else if i == 7 {
        seq!['G']
    } else if i == 8 {
        seq!['G', '#']
    } else if i == 9 {
        seq!['A']
    } else if i == 10 {
        seq!['A', '#']
    } else {
        seq!['B']
    }
}

/// Calls `PitchClass::from_str` of rust_music_theory and `into_u8` on what it
/// finds. Claimed without proof: a letter from `A` to `G` gives that note's
/// offset from C, a following `#` moves it one semitone up and a following `b`
/// one semitone down, around the octave.
#[verifier::external_body]
fn parse_name_index(name: &str) -> (r: Option<u8>)
    requires
        is_pitch_name(name@),
    ensures
        r == Some(name_index(name@) as u8),
{
    match NotePitch::from_str(name) {
        Some(p) => Some(p.into_u8()),
        None => None,
    }
}

/// Calls `Interval::from_semitone` and `PitchClass::from_interval` of
/// rust_music_theory on the pitch class that `PitchClass::from_u8` gives for
/// `index`, and `into_u8` on the result. Claimed without proof: the result is
/// the offset `semitones` above `index`, around the octave.
#[verifier::external_body]
fn shift_index(index: u8, semitones: u8) -> (r: u8)
    requires
        index < 12,
        semitones <= 12,
    ensures
        r == (index + semitones) % 12,
{
    let interval = Interval::from_semitone(semitones).unwrap();
    NotePitch::from_interval(NotePitch::from_u8(index), interval).into_u8()
}

/// Calls `to_string` of rust_music_theory's `PitchClass` on the pitch class
/// that `PitchClass::from_u8` gives for `index`. Claimed without proof: the
/// result is the note's letter, followed by `#` for the five raised notes.
#[verifier::external_body]
fn format_index(index: u8) -> (r: String)
    requires
        index < 12,
    ensures
        r@ == index_name(index as int),
{
    NotePitch::from_u8(index).to_string()
}

impl PitchClass {
    /// The semitone offset from C, in `0..12`.
    pub open spec fn spec_index(self) -> int {
        match self {
            PitchClass::C => 0,
            PitchClass::Cs => 1,
            PitchClass::D => 2,
            PitchClass::Ds => 3,
            PitchClass::E => 4,
            PitchClass::F => 5,
            PitchClass::Fs => 6,
            PitchClass::G => 7,
            PitchClass::Gs => 8,
            PitchClass::A => 9,
            PitchClass::As => 10,
            PitchClass::B => 11,
        }
    }

    /// The pitch class at a semitone offset from C, taken around the octave.
    pub open spec fn spec_from_index(i: int) -> PitchClass {
        let m = i % 12;
        if m == 0 {
            PitchClass::C
        } else if m == 1 {
            PitchClass::Cs
        } else if m == 2 {
            PitchClass::D
        } else if m == 3 {
            PitchClass::Ds
        } else if m == 4 {
            PitchClass::E
        } else if m == 5 {
            PitchClass::F
        } else if m == 6 {
            PitchClass::Fs
        } else if m == 7 {
            PitchClass::G
        } else if m == 8 {
            PitchClass::Gs
        } else if m == 9 {
            PitchClass::A
        } else if m == 10 {
            PitchClass::As
        } else {
            PitchClass::B
        }
    }

    /// What a name denotes: a pitch class for a pitch name, nothing otherwise.
    pub open spec fn spec_from_name(s: Seq<char>) -> Option<PitchClass> {
        if is_pitch_name(s) {
            Some(PitchClass::spec_from_index(name_index(s)))
        } else {
            None
        }
    }

    /// This pitch class moved up by `semitones`, which may be negative or
    /// larger than an octave.
    pub open spec fn spec_transposed_by(self, semitones: int) -> PitchClass {
        PitchClass::spec_from_index(self.spec_index() + semitones)
    }

    /// The semitone offset from C.
    pub fn index(self) -> (r: u8)
        ensures
            r == self.spec_index(),
    {
        match self {
            PitchClass::C => 0,
            PitchClass::Cs => 1,
            PitchClass::D => 2,
            PitchClass::Ds => 3,
            PitchClass::E => 4,
            PitchClass::F => 5,
            PitchClass::Fs => 6,
            PitchClass::G => 7,
            PitchClass::Gs => 8,
            PitchClass::A => 9,
            PitchClass::As => 10,
            PitchClass::B => 11,
        }
    }

    /// The pitch class at a semitone offset from C, taken around the octave.
    pub fn from_index(i: u8) -> (r: PitchClass)
        ensures
            r == PitchClass::spec_from_index(i as int),
    {
        let m: u8 = i % 12;
        if m == 0 {
            PitchClass::C
        } else if m == 1 {
            PitchClass::Cs
        } else if m == 2 {
            PitchClass::D
        } else if m == 3 {
            PitchClass::Ds
        } else if m == 4 {
            PitchClass::E
        } else if m == 5 {
            PitchClass::F
        } else if m == 6 {
            PitchClass::Fs
        } else if m == 7 {
            PitchClass::G
        } else if m == 8 {
            PitchClass::Gs
        } else if m == 9 {
            PitchClass::A
        } else if m == 10 {
            PitchClass::As
        } else {
            PitchClass::B
        }
    }

    /// Reads a pitch name: a letter from `A` to `G`, alone or followed by one
    /// `#` or `b`. Any other text names no pitch class.
    pub fn from_name(name: &str) -> (r: Option<PitchClass>)
        ensures
            r == PitchClass::spec_from_name(name@),
    {
        let n = name.unicode_len();
        if n == 0 || n > 2 {
            return None;
        }
        let first = name.get_char(0);
        if !(first == 'A' || first == 'B' || first == 'C' || first == 'D' || first == 'E'
            || first == 'F' || first == 'G') {
            return None;
        }
        if n == 2 {
            let second = name.get_char(1);
            if !(second == '#' || second == 'b') {
                return None;
            }
        }
        match parse_name_index(name) {
            Some(i) => Some(PitchClass::from_index(i)),
            None => None,
        }
    }

    /// This pitch class moved up by `semitones`. The amount is first brought
    /// into `0..12`, so moving by a whole octave changes nothing.
    pub fn transposed_by(self, semitones: i32) -> (r: PitchClass)
        ensures
            r == self.spec_transposed_by(semitones as int),
    {
        let steps = semitone_steps(semitones);
        let moved = shift_index(self.index(), steps);
        assert((self.spec_index() + steps as int) % 12 == (self.spec_index() + semitones as int)
            % 12) by {
            assert(steps as int == semitones as int % 12);
            vstd::arithmetic::div_mod::lemma_add_mod_noop_right(
                self.spec_index(),
                semitones as int,
                12,
            );
        }
        PitchClass::from_index(moved)
    }

    /// The sharp spelling of this pitch class, such as `C#`.
    pub fn name(self) -> (r: String)
        ensures
            r@ == index_name(self.spec_index()),
    {
        format_index(self.index())
    }
}

/// A signed number of semitones brought into `0..12`.
pub fn semitone_steps(semitones: i32) -> (r: u8)
    ensures
        r as int == (semitones as int) % 12,
{
    let m: i32 = semitones % 12;
    if m < 0 {
        (m + 12) as u8
    } else {
        m as u8
    }
}

/// Moving by twelve semitones more moves to the same pitch class; moving by
/// exactly twelve leaves a pitch class as it is.
pub proof fn lemma_transpose_octave(p: PitchClass, semitones: int)
    ensures
        p.spec_transposed_by(semitones + 12) == p.spec_transposed_by(semitones),
        p.spec_transposed_by(12) == p,
        p.spec_transposed_by(0) == p,
{
    assert((p.spec_index() + semitones + 12) % 12 == (p.spec_index() + semitones) % 12) by {
        vstd::arithmetic::div_mod::lemma_mod_add_multiples_vanish(p.spec_index() + semitones, 12);
    }
}

/// Every pitch name denotes a pitch class, and an octave leaves it unchanged.
pub proof fn lemma_name_transpose_octave(name: Seq<char>)
    requires
        is_pitch_name(name),
    ensures
        PitchClass::spec_from_name(name) is Some,
        PitchClass::spec_from_name(name).unwrap().spec_transposed_by(12)
            == PitchClass::spec_from_name(name).unwrap(),
{
    lemma_transpose_octave(PitchClass::spec_from_name(name).unwrap(), 0);
}

} // verus!
