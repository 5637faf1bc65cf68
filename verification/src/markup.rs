//! The grammar of the markup: tags in curly braces, chords in square
//! brackets, words, and the names of the directives.

use vstd::prelude::*;
use crate::pitch::{index_name, is_pitch_name, lemma_transpose_octave, letter_index, PitchClass};
use crate::text::{
    copy_range, has_class, is_word, lemma_run_end, run_end, same_word, scan_run, string_of,
    CharClass,
};

verus! {

/// The two bracketed forms of the markup.
#[derive(Debug, Clone, Copy, PartialEq, Eq, Structural)]
pub enum Mark {
    /// A directive between `{` and `}`.
    Tag,
    /// A chord between `[` and `]`.
    Chord,
}

/// The character that opens a mark.
pub open spec fn mark_open(m: Mark) -> char {
    match m {
        Mark::Tag => '{',
        Mark::Chord => '[',
    }
}

/// The character that closes a mark.
pub open spec fn mark_close(m: Mark) -> char {
    match m {
        Mark::Tag => '}',
        Mark::Chord => ']',
    }
}

/// The class of the characters that may stand inside a mark.
pub open spec fn mark_class(m: Mark) -> CharClass {
    match m {
        Mark::Tag => CharClass::TagText,
        Mark::Chord => CharClass::ChordText,
    }
}

/// What a mark asks of its content `s[a..b]`: a tag needs a name, so its
/// content is not empty and does not begin with a colon; a chord may hold
/// anything, and nothing.
pub open spec fn mark_content_ok(s: Seq<char>, a: int, b: int, m: Mark) -> bool {
    match m {
        Mark::Tag => a < b && s[a] != ':',
        Mark::Chord => true,
    }
}

/// The length of the mark that starts at `i`, brackets included, or 0 where
/// none starts: a mark is an opening bracket, a content without brackets of
/// its kind, and the closing bracket.
pub open spec fn mark_len(s: Seq<char>, i: int, m: Mark) -> int {
    if 0 <= i < s.len() && s[i] == mark_open(m) {
        let j = run_end(s, i + 1, mark_class(m));
        if i < j < s.len() && s[j] == mark_close(m) && mark_content_ok(s, i + 1, j, m) {
            j + 1 - i
        } else {
            0
        }
    } else {
        0
    }
}

/// The first position from `i` on where a mark starts, or the end of the
/// text where none does.
pub open spec fn mark_start(s: Seq<char>, i: int, m: Mark) -> int
    decreases s.len() - i,
{
    if 0 <= i < s.len() && mark_len(s, i, m) == 0 {
        mark_start(s, i + 1, m)
    } else {
        i
    }
}

/// A piece of a text that was split at its marks.
pub enum Part {
    /// Text outside any mark.
    Plain(Seq<char>),
    /// The content of a mark, without its brackets.
    Marked(Seq<char>),
}

/// The plain part `s[i..a]`, unless it is empty.
pub open spec fn plain_part(s: Seq<char>, i: int, a: int) -> Seq<Part> {
    if 0 <= i < a <= s.len() {
        seq![Part::Plain(s.subrange(i, a))]
    } else {
        Seq::empty()
    }
}

/// The parts of the text from `i` on: the marks found from left to right,
/// and between them the text that belongs to none.
pub open spec fn parts_from(s: Seq<char>, i: int, m: Mark) -> Seq<Part>
    decreases s.len() - i,
{
    if 0 <= i < s.len() {
        let a = mark_start(s, i, m);
        let n = mark_len(s, a, m);
        if i <= a < s.len() && 2 <= n <= s.len() - a {
            plain_part(s, i, a) + seq![Part::Marked(s.subrange(a + 1, a + n - 1))] + parts_from(
                s,
                a + n,
                m,
            )
        } else {
            plain_part(s, i, s.len() as int)
        }
    } else {
        Seq::empty()
    }
}

/// The parts of a text split at its marks of kind `m`.
pub open spec fn parts_of(s: Seq<char>, m: Mark) -> Seq<Part> {
    parts_from(s, 0, m)
}

/// The first mark from `i` on starts inside the text or at its end, and a
/// mark does start there unless it is the end.
pub proof fn lemma_mark_start(s: Seq<char>, i: int, m: Mark)
    requires
        0 <= i <= s.len(),
    ensures
        i <= mark_start(s, i, m) <= s.len(),
        mark_start(s, i, m) < s.len() ==> mark_len(s, mark_start(s, i, m), m) > 0,
        forall|j: int| i <= j < mark_start(s, i, m) ==> mark_len(s, j, m) == 0,
    decreases s.len() - i,
{
    if i < s.len() && mark_len(s, i, m) == 0 {
        lemma_mark_start(s, i + 1, m);
    }
}

/// A piece of a text that was split at its marks.
#[derive(Debug, PartialEq, Eq)]
pub enum Piece {
    /// Text outside any mark.
    Plain(Vec<char>),
    /// The content of a mark, without its brackets.
    Marked(Vec<char>),
}

impl DeepView for Piece {
    type V = Part;

    open spec fn deep_view(&self) -> Part {
        match self {
            Piece::Plain(t) => Part::Plain(t@),
            Piece::Marked(t) => Part::Marked(t@),
        }
    }
}

/// The class of the characters that may stand inside a mark.
fn class_of(m: Mark) -> (k: CharClass)
    ensures
        k == mark_class(m),
{
    match m {
        Mark::Tag => CharClass::TagText,
        Mark::Chord => CharClass::ChordText,
    }
}

/// The length of the mark that starts at `i`, or 0 where none starts.
pub fn mark_length(v: &Vec<char>, i: usize, m: Mark) -> (n: usize)
    requires
        i < v.len(),
    ensures
        n == mark_len(v@, i as int, m),
        n == 0 || 2 <= n <= v.len() - i,
{
    let open = match m {
        Mark::Tag => '{',
        Mark::Chord => '[',
    };
    let close = match m {
        Mark::Tag => '}',
        Mark::Chord => ']',
    };
    if v[i] != open {
        return 0;
    }
    let j = scan_run(v, i + 1, class_of(m));
    if j >= v.len() || v[j] != close {
        return 0;
    }
    let ok = match m {
        Mark::Tag => i + 1 < j && v[i + 1] != ':',
        Mark::Chord => true,
    };
    if ok {
        j + 1 - i
    } else {
        0
    }
}

/// Splits a text at its marks of kind `m`.
pub fn split_marks(v: &Vec<char>, m: Mark) -> (r: Vec<Piece>)
    ensures
        r.deep_view() == parts_of(v@, m),
{
    let mut r: Vec<Piece> = Vec::new();
    let mut i: usize = 0;
    assert(r.deep_view() =~= Seq::<Part>::empty());
    assert(Seq::<Part>::empty() + parts_from(v@, 0, m) == parts_from(v@, 0, m));
    while i < v.len()
        invariant
            i <= v.len(),
            parts_of(v@, m) == r.deep_view() + parts_from(v@, i as int, m),
        decreases v.len() - i,
    {
        let ghost before = r.deep_view();
        let ghost rest = parts_from(v@, i as int, m);
        let mut a: usize = i;
        let mut n: usize = mark_length(v, a, m);
        while n == 0 && a + 1 < v.len()
            invariant
                i <= a < v.len(),
                n == mark_len(v@, a as int, m),
                n == 0 || 2 <= n <= v.len() - a,
                mark_start(v@, i as int, m) == mark_start(v@, a as int, m),
            decreases v.len() - a,
        {
            a += 1;
            n = mark_length(v, a, m);
        }
        if n == 0 {
            proof {
                assert(mark_start(v@, a as int, m) == mark_start(v@, a + 1, m));
                assert(mark_start(v@, a + 1, m) == a + 1);
                assert(rest == plain_part(v@, i as int, v@.len() as int));
            }
            r.push(Piece::Plain(copy_range(v, i, v.len())));
            proof {
                assert(r.deep_view() =~= before + rest);
                assert(parts_from(v@, v@.len() as int, m) == Seq::<Part>::empty());
                assert(before + rest + Seq::<Part>::empty() == before + rest);
            }
            i = v.len();
        } else {
            proof {
                assert(mark_start(v@, a as int, m) == a);
                assert(rest == plain_part(v@, i as int, a as int) + seq![
                    Part::Marked(v@.subrange(a + 1, a + n - 1)),
                ] + parts_from(v@, a + n, m));
            }
            if a > i {
                r.push(Piece::Plain(copy_range(v, i, a)));
            }
            r.push(Piece::Marked(copy_range(v, a + 1, a + n - 1)));
            proof {
                let mid = plain_part(v@, i as int, a as int) + seq![
                    Part::Marked(v@.subrange(a + 1, a + n - 1)),
                ];
                assert(r.deep_view() =~= before + mid);
                assert(before + (mid + parts_from(v@, a + n, m)) == before + mid + parts_from(
                    v@,
                    a + n,
                    m,
                ));
            }
            i = a + n;
        }
    }
    proof {
        assert(parts_from(v@, i as int, m) == Seq::<Part>::empty());
        assert(r.deep_view() + Seq::<Part>::empty() == r.deep_view());
    }
    r
}

/// Where the name of a tag ends in its content: at the first colon that has
/// something on both sides, or at the end of the content where there is none.
pub open spec fn name_end(content: Seq<char>) -> int {
    let k = run_end(content, 1, CharClass::NameText);
    if 1 <= k < content.len() - 1 {
        k
    } else {
        content.len() as int
    }
}

/// The name of a tag: its content up to the colon that parts name and value.
pub open spec fn tag_name(content: Seq<char>) -> Seq<char> {
    content.take(name_end(content))
}

/// The value of a tag: what follows the colon that parts name and value, or
/// nothing where the tag has none.
pub open spec fn tag_value(content: Seq<char>) -> Option<Seq<char>> {
    if name_end(content) < content.len() {
        Some(content.skip(name_end(content) + 1))
    } else {
        None
    }
}

/// The value of a tag, empty where the tag has none.
pub open spec fn tag_text(content: Seq<char>) -> Seq<char> {
    match tag_value(content) {
        Some(v) => v,
        None => Seq::empty(),
    }
}

/// Parts the content of a tag into its name and its value, which is empty
/// where the tag has none.
pub fn split_tag(content: &Vec<char>) -> (r: (Vec<char>, Vec<char>))
    ensures
        r.0@ == tag_name(content@),
        r.1@ == tag_text(content@),
{
    let n = content.len();
    if n < 3 {
        proof {
            if n >= 1 {
                lemma_run_end(content@, 1, CharClass::NameText);
            }
            assert(content@.take(n as int) == content@);
        }
        return (copy_range(content, 0, n), Vec::new());
    }
    let k = scan_run(content, 1, CharClass::NameText);
    if k < n - 1 {
        (copy_range(content, 0, k), copy_range(content, k + 1, n))
    } else {
        proof {
            assert(content@.take(n as int) == content@);
        }
        (copy_range(content, 0, n), Vec::new())
    }
}

/// What a tag asks for.
#[derive(Debug, Clone, Copy, PartialEq, Eq, Structural)]
pub enum Directive {
    /// `t` or `title`: the title of the song.
    Title,
    /// `st` or `subtitle`: its subtitle.
    Subtitle,
    /// `key`: the key the song is written in.
    Key,
    /// `Capo-Bass_Guitar`: the fret of the capo.
    Capo,
    /// `c`: a comment to show.
    Comment,
    /// `soc` or `start_of_chorus`.
    ChorusStart,
    /// `eoc` or `end_of_chorus`.
    ChorusEnd,
    /// `soh`: the start of a passage shown as comment.
    HeaderStart,
    /// `eoh`: its end.
    HeaderEnd,
    /// Any other name.
    Other,
}

/// The directive that a tag's name stands for. The case of letters does not
/// matter, and a name that is not known is `Other`.
pub open spec fn directive_of(name: Seq<char>) -> Directive {
    if same_word(name, "t"@) || same_word(name, "title"@) {
        Directive::Title
    } else if same_word(name, "st"@) || same_word(name, "subtitle"@) {
        Directive::Subtitle
    } else if same_word(name, "key"@) {
        Directive::Key
    } else if same_word(name, "capo-bass_guitar"@) {
        Directive::Capo
    } else if same_word(name, "c"@) {
        Directive::Comment
    } else if same_word(name, "soc"@) || same_word(name, "start_of_chorus"@) {
        Directive::ChorusStart
    } else if same_word(name, "eoc"@) || same_word(name, "end_of_chorus"@) {
        Directive::ChorusEnd
    } else if same_word(name, "soh"@) {
        Directive::HeaderStart
    } else if same_word(name, "eoh"@) {
        Directive::HeaderEnd
    } else {
        Directive::Other
    }
}

/// Finds the directive that a tag's name stands for.
pub fn classify(name: &Vec<char>) -> (d: Directive)
    ensures
        d == directive_of(name@),
{
    if is_word(name, "t") || is_word(name, "title") {
        Directive::Title
    } else if is_word(name, "st") || is_word(name, "subtitle") {
        Directive::Subtitle
    } else if is_word(name, "key") {
        Directive::Key
    } else if is_word(name, "capo-bass_guitar") {
        Directive::Capo
    } else if is_word(name, "c") {
        Directive::Comment
    } else if is_word(name, "soc") || is_word(name, "start_of_chorus") {
        Directive::ChorusStart
    } else if is_word(name, "eoc") || is_word(name, "end_of_chorus") {
        Directive::ChorusEnd
    } else if is_word(name, "soh") {
        Directive::HeaderStart
    } else if is_word(name, "eoh") {
        Directive::HeaderEnd
    } else {
        Directive::Other
    }
}

/// The words of the text from `i` on. A word is a run of characters that are
/// not white space, together with the white space that follows it; white
/// space before the first word belongs to none.
pub open spec fn words_from(s: Seq<char>, i: int) -> Seq<Seq<char>>
    decreases s.len() - i,
{
    if 0 <= i < s.len() {
        let a = run_end(s, i, CharClass::Blank);
        let b = run_end(s, a, CharClass::Word);
        let c = run_end(s, b, CharClass::Blank);
        if i <= a < b <= c <= s.len() {
            seq![s.subrange(a, c)] + words_from(s, c)
        } else {
            Seq::empty()
        }
    } else {
        Seq::empty()
    }
}

/// The words of a text.
pub open spec fn words_of(s: Seq<char>) -> Seq<Seq<char>> {
    words_from(s, 0)
}

/// Splits a text into its words.
pub fn split_words(v: &Vec<char>) -> (r: Vec<Vec<char>>)
    ensures
        r.deep_view() == words_of(v@),
{
    let mut r: Vec<Vec<char>> = Vec::new();
    let mut i: usize = 0;
    assert(r.deep_view() =~= Seq::<Seq<char>>::empty());
    assert(Seq::<Seq<char>>::empty() + words_from(v@, 0) == words_from(v@, 0));
    while i < v.len()
        invariant
            i <= v.len(),
            words_of(v@) == r.deep_view() + words_from(v@, i as int),
        decreases v.len() - i,
    {
        let ghost before = r.deep_view();
        let a = scan_run(v, i, CharClass::Blank);
        let b = scan_run(v, a, CharClass::Word);
        let c = scan_run(v, b, CharClass::Blank);
        if a < b {
            r.push(copy_range(v, a, c));
            proof {
                let word = v@.subrange(a as int, c as int);
                assert(r.deep_view() =~~= before.push(word));
                assert(before + (seq![word] + words_from(v@, c as int)) == before.push(word)
                    + words_from(v@, c as int));
            }
            i = c;
        } else {
            proof {
                assert(words_from(v@, i as int) == Seq::<Seq<char>>::empty());
                assert(words_from(v@, v@.len() as int) == Seq::<Seq<char>>::empty());
            }
            i = v.len();
        }
    }
    proof {
        assert(words_from(v@, i as int) == Seq::<Seq<char>>::empty());
        assert(r.deep_view() + Seq::<Seq<char>>::empty() == r.deep_view());
    }
    r
}

/// The length of the root note that starts at `i`: a letter from `A` to `G`
/// and the `#` or `b` that may follow it; 0 where no such letter stands.
pub open spec fn root_len(s: Seq<char>, i: int) -> int {
    if 0 <= i < s.len() && letter_index(s[i]) is Some {
        if i + 1 < s.len() && (s[i + 1] == '#' || s[i + 1] == 'b') {
            2
        } else {
            1
        }
    } else {
        0
    }
}

/// The name of the pitch class that the pitch name `name` becomes when it is
/// moved up by `semitones`.
pub open spec fn moved_name(name: Seq<char>, semitones: int) -> Seq<char> {
    match PitchClass::spec_from_name(name) {
        Some(p) => index_name(p.spec_transposed_by(semitones).spec_index()),
        None => name,
    }
}

/// The chord text from `i` on with every root note moved up by `semitones`.
/// What stands between the root notes stays as it is.
pub open spec fn transposed_from(s: Seq<char>, i: int, semitones: int) -> Seq<char>
    decreases s.len() - i,
{
    if 0 <= i < s.len() {
        let n = root_len(s, i);
        if n > 0 {
            moved_name(s.subrange(i, i + n), semitones) + transposed_from(s, i + n, semitones)
        } else {
            seq![s[i]] + transposed_from(s, i + 1, semitones)
        }
    } else {
        Seq::empty()
    }
}

/// A chord text with every root note moved up by `semitones`.
pub open spec fn transposed(s: Seq<char>, semitones: int) -> Seq<char> {
    transposed_from(s, 0, semitones)
}

/// Moves every root note of a chord text up by `semitones`.
pub fn transpose_chord(v: &Vec<char>, semitones: i32) -> (r: String)
    ensures
        r@ == transposed(v@, semitones as int),
{
    let mut r = String::new();
    let mut i: usize = 0;
    assert(Seq::<char>::empty() + transposed_from(v@, 0, semitones as int) == transposed_from(
        v@,
        0,
        semitones as int,
    ));
    while i < v.len()
        invariant
            i <= v.len(),
            transposed(v@, semitones as int) == r@ + transposed_from(
                v@,
                i as int,
                semitones as int,
            ),
        decreases v.len() - i,
    {
        let ghost before = r@;
        let c = v[i];
        if c == 'A' || c == 'B' || c == 'C' || c == 'D' || c == 'E' || c == 'F' || c == 'G' {
            let n: usize = if i + 1 < v.len() && (v[i + 1] == '#' || v[i + 1] == 'b') {
                2
            } else {
                1
            };
            let root = string_of(v, i, i + n);
            assert(is_pitch_name(root@));
            match PitchClass::from_name(root.as_str()) {
                Some(p) => {
                    let name = p.transposed_by(semitones).name();
                    r.append(name.as_str());
                    proof {
                        let rest = transposed_from(v@, i + n, semitones as int);
                        assert(before + (name@ + rest) == before + name@ + rest);
                    }
                },
                None => {},
            }
            i = i + n;
        } else {
            r.push(c);
            proof {
                let rest = transposed_from(v@, i + 1, semitones as int);
                assert(before + (seq![c] + rest) == before.push(c) + rest);
            }
            i = i + 1;
        }
    }
    proof {
        assert(transposed_from(v@, i as int, semitones as int) == Seq::<char>::empty());
        assert(r@ + Seq::<char>::empty() == r@);
    }
    r
}

/// A chord text in which no letter from `A` to `G` stands has no root note,
/// and moving it leaves it as it is.
pub proof fn lemma_transposed_without_root(s: Seq<char>, semitones: int)
    requires
        forall|i: int| 0 <= i < s.len() ==> letter_index(#[trigger] s[i]) is None,
    ensures
        transposed(s, semitones) == s,
{
    lemma_transposed_tail(s, 0, semitones);
    assert(s.skip(0) == s);
}

/// Without a root note from `i` on, the text from `i` on stays as it is.
proof fn lemma_transposed_tail(s: Seq<char>, i: int, semitones: int)
    requires
        0 <= i <= s.len(),
        forall|j: int| i <= j < s.len() ==> letter_index(#[trigger] s[j]) is None,
    ensures
        transposed_from(s, i, semitones) == s.skip(i),
    decreases s.len() - i,
{
    if i < s.len() {
        lemma_transposed_tail(s, i + 1, semitones);
        assert(seq![s[i]] + s.skip(i + 1) == s.skip(i));
    } else {
        assert(s.skip(i) == Seq::<char>::empty());
    }
}

/// Moving a chord text by an octave more gives the same text.
pub proof fn lemma_transposed_octave(s: Seq<char>, semitones: int)
    ensures
        transposed(s, semitones + 12) == transposed(s, semitones),
{
    lemma_transposed_octave_from(s, 0, semitones);
}

/// Moving a chord text by an octave more gives the same text, from `i` on.
proof fn lemma_transposed_octave_from(s: Seq<char>, i: int, semitones: int)
    ensures
        transposed_from(s, i, semitones + 12) == transposed_from(s, i, semitones),
    decreases s.len() - i,
{
    if 0 <= i < s.len() {
        let n = root_len(s, i);
        if n > 0 {
            lemma_transposed_octave_from(s, i + n, semitones);
            match PitchClass::spec_from_name(s.subrange(i, i + n)) {
                Some(p) => {
                    lemma_transpose_octave(p, semitones);
                },
                None => {},
            }
        } else {
            lemma_transposed_octave_from(s, i + 1, semitones);
        }
    }
}

/// A part as it stood in the text: plain text as it is, the content of a
/// mark between its brackets.
pub open spec fn part_text(part: Part, m: Mark) -> Seq<char> {
    match part {
        Part::Plain(t) => t,
        Part::Marked(c) => seq![mark_open(m)] + c + seq![mark_close(m)],
    }
}

/// Some parts as they stood in the text, one after the other.
pub open spec fn parts_text(parts: Seq<Part>, m: Mark) -> Seq<char>
    decreases parts.len(),
{
    if parts.len() == 0 {
        Seq::empty()
    } else {
        parts_text(parts.drop_last(), m) + part_text(parts.last(), m)
    }
}

/// The text of two runs of parts joined is the text of the one followed by
/// the text of the other.
proof fn lemma_parts_text_add(a: Seq<Part>, b: Seq<Part>, m: Mark)
    ensures
        parts_text(a + b, m) == parts_text(a, m) + parts_text(b, m),
    decreases b.len(),
{
    if b.len() == 0 {
        assert(a + b =~= a);
        assert(parts_text(a, m) + parts_text(b, m) =~= parts_text(a, m));
    } else {
        lemma_parts_text_add(a, b.drop_last(), m);
        assert((a + b).drop_last() =~= a + b.drop_last());
        assert((a + b).last() == b.last());
        assert(parts_text(a, m) + (parts_text(b.drop_last(), m) + part_text(b.last(), m))
            =~= (parts_text(a, m) + parts_text(b.drop_last(), m)) + part_text(b.last(), m));
    }
}

/// The text of one part.
proof fn lemma_parts_text_one(part: Part, m: Mark)
    ensures
        parts_text(seq![part], m) == part_text(part, m),
{
    let one = seq![part];
    assert(one.drop_last() == Seq::<Part>::empty());
    assert(parts_text(one.drop_last(), m) == Seq::<char>::empty());
    assert(one.last() == part);
    assert(Seq::<char>::empty() + part_text(part, m) =~= part_text(part, m));
}

/// Splitting a text at its marks loses nothing and moves nothing: the parts
/// from `i` on, put one after the other with the brackets around the
/// marks, are the text from `i` on.
pub proof fn lemma_parts_rebuild(s: Seq<char>, i: int, m: Mark)
    requires
        0 <= i <= s.len(),
    ensures
        parts_text(parts_from(s, i, m), m) == s.skip(i),
    decreases s.len() - i,
{
    if i < s.len() {
        lemma_mark_start(s, i, m);
        let a = mark_start(s, i, m);
        let n = mark_len(s, a, m);
        if a < s.len() {
            lemma_run_end(s, a + 1, mark_class(m));
        }
        if a < s.len() && 2 <= n <= s.len() - a {
            let content = s.subrange(a + 1, a + n - 1);
            let mark = seq![Part::Marked(content)];
            let head = plain_part(s, i, a);
            let rest = parts_from(s, a + n, m);
            lemma_parts_rebuild(s, a + n, m);
            lemma_parts_text_add(head + mark, rest, m);
            lemma_parts_text_add(head, mark, m);
            lemma_parts_text_one(Part::Marked(content), m);
            if a > i {
                lemma_parts_text_one(Part::Plain(s.subrange(i, a)), m);
            }
            assert(parts_text(head, m) =~= s.subrange(i, a));
            assert(part_text(Part::Marked(content), m) =~= s.subrange(a, a + n));
            assert(s.subrange(i, a) + s.subrange(a, a + n) + s.skip(a + n) =~= s.skip(i));
        } else {
            lemma_parts_text_one(Part::Plain(s.subrange(i, s.len() as int)), m);
            assert(s.subrange(i, s.len() as int) =~= s.skip(i));
        }
    } else {
        assert(s.skip(i) =~= Seq::<char>::empty());
    }
}

/// Some words, one after the other.
pub open spec fn words_text(words: Seq<Seq<char>>) -> Seq<char>
    decreases words.len(),
{
    if words.len() == 0 {
        Seq::empty()
    } else {
        words_text(words.drop_last()) + words.last()
    }
}

/// The text of a word followed by more words.
proof fn lemma_words_text_front(word: Seq<char>, rest: Seq<Seq<char>>)
    ensures
        words_text(seq![word] + rest) == word + words_text(rest),
    decreases rest.len(),
{
    let all = seq![word] + rest;
    if rest.len() == 0 {
        assert(all.drop_last() =~= Seq::<Seq<char>>::empty());
        assert(words_text(all.drop_last()) == Seq::<char>::empty());
        assert(all.last() == word);
        assert(Seq::<char>::empty() + word =~= word + words_text(rest));
    } else {
        lemma_words_text_front(word, rest.drop_last());
        assert(all.drop_last() =~= seq![word] + rest.drop_last());
        assert(all.last() == rest.last());
        assert((word + words_text(rest.drop_last())) + rest.last() =~= word + (words_text(
            rest.drop_last(),
        ) + rest.last()));
    }
}

/// Splitting a text into words loses nothing but the white space before the
/// first word: the words from `i` on, put one after the other, are the text
/// from the first character on that is not white space.
pub proof fn lemma_words_rebuild(s: Seq<char>, i: int)
    requires
        0 <= i <= s.len(),
    ensures
        words_text(words_from(s, i)) == s.skip(run_end(s, i, CharClass::Blank)),
        forall|n: int|
            0 <= n < words_from(s, i).len() ==> (#[trigger] words_from(s, i)[n]).len() > 0,
    decreases s.len() - i,
{
    lemma_run_end(s, i, CharClass::Blank);
    let a = run_end(s, i, CharClass::Blank);
    if i < s.len() {
        lemma_run_end(s, a, CharClass::Word);
        let b = run_end(s, a, CharClass::Word);
        lemma_run_end(s, b, CharClass::Blank);
        let c = run_end(s, b, CharClass::Blank);
        if a < b {
            lemma_words_rebuild(s, c);
            lemma_words_text_front(s.subrange(a, c), words_from(s, c));
            lemma_run_end(s, c, CharClass::Blank);
            if c < s.len() {
                assert(!has_class(s[c], CharClass::Blank));
            }
            assert(run_end(s, c, CharClass::Blank) == c);
            assert(s.subrange(a, c) + s.skip(c) =~= s.skip(a));
        } else {
            assert(s.skip(a) =~= Seq::<char>::empty());
        }
    } else {
        assert(s.skip(a) =~= Seq::<char>::empty());
    }
}

/// A text that is not empty has at least one part.
pub proof fn lemma_parts_not_empty(s: Seq<char>, m: Mark)
    requires
        s.len() > 0,
    ensures
        parts_of(s, m).len() > 0,
{
    lemma_mark_start(s, 0, m);
}

} // verus!
