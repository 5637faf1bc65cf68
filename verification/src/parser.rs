//! Reading a song from its markup: the document is taken line by line, the
//! directives in curly braces set the title, the key and the chorus, and
//! what stands between them becomes the words of the song's lines.

use vstd::prelude::*;
use crate::line::{chord_block, Fragment, LineView, SongBlock, SongLine, SongString};
use crate::markup::{
    classify, directive_of, lemma_mark_start, lemma_parts_not_empty, lemma_words_rebuild,
    mark_len, mark_start, parts_of, split_marks, split_tag, split_words, tag_name, tag_text,
    words_of, Directive, Mark, Part, Piece,
};
use crate::pitch::{letter_index, semitone_steps, PitchClass};
use crate::text::{
    chars_of, is_white, lemma_deep_append, lemma_deep_push, lemma_run_end_is, lines_of,
    number_of, parse_number, split_lines, string_of, tidy_lines, trim, trimmed, CharClass,
};

verus! {

/// A song: its title and subtitle, the key it declares, the number of
/// semitones by which its chords were moved, and its lines.
#[derive(Debug, PartialEq, Eq)]
pub struct Song {
    pub title: String,
    pub subtitle: String,
    pub transposition: i32,
    pub key: Option<PitchClass>,
    pub content: Vec<SongLine>,
}

/// What a song holds.
pub struct SongView {
    pub title: Seq<char>,
    pub subtitle: Seq<char>,
    pub transposition: int,
    pub key: Option<PitchClass>,
    pub content: Seq<LineView>,
}

impl View for Song {
    type V = SongView;

    open spec fn view(&self) -> SongView {
        SongView {
            title: self.title@,
            subtitle: self.subtitle@,
            transposition: self.transposition as int,
            key: self.key,
            content: self.content.deep_view(),
        }
    }
}

/// A song while its document is read: what is known of it so far, and
/// whether the reader is inside a chorus and inside a header.
pub struct Reading {
    pub song: SongView,
    pub chorus: bool,
    pub header: bool,
}

/// A line while it is read: the reading, the words found on the line so
/// far, whether a directive was found on it, whether the rest of the line
/// is passed over, and whether the line is left out of the song.
pub struct Scan {
    pub reading: Reading,
    pub blocks: Seq<Seq<Fragment>>,
    pub tag: bool,
    pub stopped: bool,
    pub dropped: bool,
}

/// The words of a text, each one comment.
pub open spec fn comment_blocks(text: Seq<char>) -> Seq<Seq<Fragment>> {
    Seq::new(words_of(text).len(), |i: int| seq![Fragment::Comment(words_of(text)[i])])
}

/// The words of a text with chords in square brackets, their root notes
/// moved up by `semitones`.
pub open spec fn chord_blocks(text: Seq<char>, semitones: int) -> Seq<Seq<Fragment>> {
    Seq::new(words_of(text).len(), |i: int| chord_block(words_of(text)[i], semitones))
}

/// The words that a text outside the tags stands for: comments inside a
/// header, chords and lyrics elsewhere.
pub open spec fn text_blocks(text: Seq<char>, header: bool, semitones: int) -> Seq<
    Seq<Fragment>,
> {
    if header {
        comment_blocks(text)
    } else {
        chord_blocks(text, semitones)
    }
}

/// The distance `d` in semitones brought to the nearest of the distances
/// that lead to the same pitch class: a number from -5 to 6.
pub open spec fn shortest(d: int) -> int {
    if d % 12 > 6 {
        d % 12 - 12
    } else {
        d % 12
    }
}

/// The transposition `t` changed by `d`, or left as it is where the sum is
/// no 32-bit integer.
pub open spec fn shifted(t: int, d: int) -> int {
    if i32::MIN <= t + d <= i32::MAX {
        t + d
    } else {
        t
    }
}

/// The song after a `key` directive. A value that names no pitch class
/// changes nothing. Else the chords that follow are moved by the shortest
/// way from the declared key to the target, where there is a target, and
/// the declared key is kept as the song's key unless it already has one.
pub open spec fn key_step(
    song: SongView,
    declared: Option<PitchClass>,
    target: Option<PitchClass>,
) -> SongView {
    match declared {
        None => song,
        Some(k) => SongView {
            transposition: match target {
                Some(t) => shifted(
                    song.transposition,
                    shortest(t.spec_index() - k.spec_index()),
                ),
                None => song.transposition,
            },
            key: if song.key is None {
                Some(k)
            } else {
                song.key
            },
            ..song
        },
    }
}

/// The song after a capo directive: the chords that follow are moved down
/// by the number of frets. A value that is no plain number changes nothing.
pub open spec fn capo_step(song: SongView, frets: Option<i32>) -> SongView {
    match frets {
        None => song,
        Some(n) => SongView { transposition: shifted(song.transposition, -(n as int)), ..song },
    }
}

/// The line in which a subtitle is shown in its place: one heading.
pub open spec fn heading_line(text: Seq<char>) -> LineView {
    LineView { blocks: seq![seq![Fragment::Title(text)]], chorus: false }
}

/// The scan after a directive with the given value.
///
/// - A title sets the song's title to the trimmed value; nothing of its
///   line is shown, neither what stands before it nor what follows.
/// - A subtitle sets the song's subtitle to the trimmed value and adds a
///   heading to the song at once; the rest of the line is passed over.
/// - A key and a capo change the transposition of what follows, as
///   `key_step` and `capo_step` say; the rest of the line is passed over.
/// - A comment adds the words of its value to the line, and the line goes
///   on.
/// - The start of a chorus, and the start and the end of a header, set
///   their flag; the rest of the line is passed over.
/// - The end of a chorus clears its flag, and the line goes on.
/// - Any other directive is left out, and the line goes on.
pub open spec fn directive_step(
    s: Scan,
    d: Directive,
    value: Seq<char>,
    target: Option<PitchClass>,
) -> Scan {
    let r = s.reading;
    match d {
        Directive::Title => Scan {
            reading: Reading { song: SongView { title: trimmed(value), ..r.song }, ..r },
            tag: true,
            stopped: true,
            dropped: true,
            ..s
        },
        Directive::Subtitle => Scan {
            reading: Reading {
                song: SongView {
                    subtitle: trimmed(value),
                    content: r.song.content.push(heading_line(trimmed(value))),
                    ..r.song
                },
                ..r
            },
            tag: true,
            stopped: true,
            ..s
        },
        Directive::Key => Scan {
            reading: Reading {
                song: key_step(r.song, PitchClass::spec_from_name(trimmed(value)), target),
                ..r
            },
            tag: true,
            stopped: true,
            ..s
        },
        Directive::Capo => Scan {
            reading: Reading { song: capo_step(r.song, number_of(trimmed(value))), ..r },
            tag: true,
            stopped: true,
            ..s
        },
        Directive::Comment => Scan { blocks: s.blocks + comment_blocks(value), tag: true, ..s },
        Directive::ChorusStart => Scan {
            reading: Reading { chorus: true, ..r },
            tag: true,
            stopped: true,
            ..s
        },
        Directive::ChorusEnd => Scan { reading: Reading { chorus: false, ..r }, tag: true, ..s },
        Directive::HeaderStart => Scan {
            reading: Reading { header: true, ..r },
            tag: true,
            stopped: true,
            ..s
        },
        Directive::HeaderEnd => Scan {
            reading: Reading { header: false, ..r },
            tag: true,
            stopped: true,
            ..s
        },
        Directive::Other => Scan { tag: true, ..s },
    }
}

/// The scan after one more part of the line. Once the rest of the line is
/// passed over, nothing changes. Text adds its words; a tag acts as the
/// directive that its name stands for.
pub open spec fn scan_part(s: Scan, part: Part, target: Option<PitchClass>) -> Scan {
    if s.stopped {
        s
    } else {
        match part {
            Part::Plain(text) => Scan {
                blocks: s.blocks + text_blocks(
                    text,
                    s.reading.header,
                    s.reading.song.transposition,
                ),
                ..s
            },
            Part::Marked(content) => directive_step(
                s,
                directive_of(tag_name(content)),
                tag_text(content),
                target,
            ),
        }
    }
}

/// The scan after the given parts of a line, taken from left to right.
pub open spec fn scan_parts(s: Scan, parts: Seq<Part>, target: Option<PitchClass>) -> Scan
    decreases parts.len(),
{
    if parts.len() == 0 {
        s
    } else {
        scan_part(scan_parts(s, parts.drop_last(), target), parts.last(), target)
    }
}

/// The scan at the start of a line.
pub open spec fn scan_start(r: Reading) -> Scan {
    Scan { reading: r, blocks: Seq::empty(), tag: false, stopped: false, dropped: false }
}

/// The reading at the end of a line. The line joins the song with the words
/// found on it, where it has any or held no directive at all; it does not
/// where it held a title.
pub open spec fn scan_close(s: Scan) -> Reading {
    if !s.dropped && (s.blocks.len() > 0 || !s.tag) {
        Reading {
            song: SongView {
                content: s.reading.song.content.push(
                    LineView { blocks: s.blocks, chorus: s.reading.chorus },
                ),
                ..s.reading.song
            },
            ..s.reading
        }
    } else {
        s.reading
    }
}

/// The reading after one more line.
pub open spec fn read_line(r: Reading, line: Seq<char>, target: Option<PitchClass>) -> Reading {
    scan_close(scan_parts(scan_start(r), parts_of(line, Mark::Tag), target))
}

/// The reading after the given lines, taken in their order.
pub open spec fn read_lines(r: Reading, lines: Seq<Seq<char>>, target: Option<PitchClass>)
    -> Reading
    decreases lines.len(),
{
    if lines.len() == 0 {
        r
    } else {
        read_line(read_lines(r, lines.drop_last(), target), lines.last(), target)
    }
}

/// The reading before the first line.
pub open spec fn reading_start() -> Reading {
    Reading {
        song: SongView {
            title: Seq::empty(),
            subtitle: Seq::empty(),
            transposition: 0,
            key: None,
            content: Seq::empty(),
        },
        chorus: false,
        header: false,
    }
}

/// The song that a document stands for when it is shown in the key
/// `target`, or as it is written where there is no target.
pub open spec fn parsed(document: Seq<char>, target: Option<PitchClass>) -> SongView {
    read_lines(reading_start(), tidy_lines(document, true), target).song
}

/// A song while its document is read.
struct Reader {
    song: Song,
    chorus: bool,
    header: bool,
}

impl View for Reader {
    type V = Reading;

    closed spec fn view(&self) -> Reading {
        Reading { song: self.song@, chorus: self.chorus, header: self.header }
    }
}

/// A line while it is read.
struct Scanner {
    reader: Reader,
    blocks: Vec<SongBlock>,
    tag: bool,
    stopped: bool,
    dropped: bool,
}

impl View for Scanner {
    type V = Scan;

    closed spec fn view(&self) -> Scan {
        Scan {
            reading: self.reader@,
            blocks: self.blocks.deep_view(),
            tag: self.tag,
            stopped: self.stopped,
            dropped: self.dropped,
        }
    }
}

/// The words of a text, each one comment.
fn comment_words(text: &Vec<char>) -> (r: Vec<SongBlock>)
    ensures
        r.deep_view() == comment_blocks(text@),
{
    let words = split_words(text);
    let mut r: Vec<SongBlock> = Vec::new();
    let mut i: usize = 0;
    assert(r.deep_view() =~= comment_blocks(text@).take(0));
    assert(words.deep_view().len() == words.len());
    while i < words.len()
        invariant
            i <= words.len(),
            words.len() == words_of(text@).len(),
            words.deep_view() == words_of(text@),
            r.deep_view() == comment_blocks(text@).take(i as int),
        decreases words.len() - i,
    {
        assert(words.deep_view()[i as int] == words[i as int].deep_view());
        assert(words[i as int].deep_view() =~= words[i as int]@);
        let word = string_of(&words[i], 0, words[i].len());
        assert(word@ == words[i as int]@) by {
            assert(words[i as int]@.subrange(0, words[i as int]@.len() as int) == words[i as int]@);
        }
        let block = SongBlock::from_comment(word.as_str());
        let ghost before = r;
        r.push(block);
        proof {
            lemma_deep_push(before, r, block);
            let all = comment_blocks(text@);
            assert(all.take(i + 1) =~= all.take(i as int).push(all[i as int]));
        }
        i += 1;
    }
    assert(comment_blocks(text@).take(i as int) == comment_blocks(text@));
    r
}

/// The words of a text with chords in square brackets, their root notes
/// moved up by `semitones`.
fn chord_words(text: &Vec<char>, semitones: i32) -> (r: Vec<SongBlock>)
    ensures
        r.deep_view() == chord_blocks(text@, semitones as int),
{
    let words = split_words(text);
    let mut r: Vec<SongBlock> = Vec::new();
    let mut i: usize = 0;
    assert(r.deep_view() =~= chord_blocks(text@, semitones as int).take(0));
    assert(words.deep_view().len() == words.len());
    while i < words.len()
        invariant
            i <= words.len(),
            words.len() == words_of(text@).len(),
            words.deep_view() == words_of(text@),
            r.deep_view() == chord_blocks(text@, semitones as int).take(i as int),
        decreases words.len() - i,
    {
        assert(words.deep_view()[i as int] == words[i as int].deep_view());
        assert(words[i as int].deep_view() =~= words[i as int]@);
        let block = SongBlock::from_chars(&words[i], semitones);
        let ghost before = r;
        r.push(block);
        proof {
            lemma_deep_push(before, r, block);
            let all = chord_blocks(text@, semitones as int);
            assert(all.take(i + 1) =~= all.take(i as int).push(all[i as int]));
        }
        i += 1;
    }
    assert(chord_blocks(text@, semitones as int).take(i as int) == chord_blocks(
        text@,
        semitones as int,
    ));
    r
}

/// Puts the words `more` behind the words `blocks`.
fn join_blocks(blocks: Vec<SongBlock>, more: Vec<SongBlock>) -> (r: Vec<SongBlock>)
    ensures
        r.deep_view() == blocks.deep_view() + more.deep_view(),
{
    let mut r = blocks;
    let mut more = more;
    let ghost a = r;
    let ghost b = more;
    r.append(&mut more);
    proof {
        lemma_deep_append(a, b, r);
    }
    r
}

/// The transposition `t` changed by `d`, or left as it is where the sum is
/// no 32-bit integer.
fn shift(t: i32, d: i32) -> (r: i32)
    ensures
        r == shifted(t as int, d as int),
{
    match t.checked_add(d) {
        Some(n) => n,
        None => t,
    }
}

/// The shortest way in semitones from the key `from` to the key `to`.
fn shortest_way(from: PitchClass, to: PitchClass) -> (r: i32)
    ensures
        r == shortest(to.spec_index() - from.spec_index()),
        -5 <= r <= 6,
{
    let d: i32 = to.index() as i32 - from.index() as i32;
    let m: i32 = semitone_steps(d) as i32;
    if m > 6 {
        m - 12
    } else {
        m
    }
}

impl Scanner {
    /// Takes one more part of the line.
    fn take(self, piece: &Piece, target: Option<PitchClass>) -> (r: Scanner)
        ensures
            r@ == scan_part(self@, piece.deep_view(), target),
    {
        let mut s = self;
        if s.stopped {
            return s;
        }
        match piece {
            Piece::Plain(text) => {
                let more = if s.reader.header {
                    comment_words(text)
                } else {
                    chord_words(text, s.reader.song.transposition)
                };
                s.blocks = join_blocks(s.blocks, more);
                s
            },
            Piece::Marked(content) => {
                let (name, value) = split_tag(content);
                s.tag = true;
                match classify(&name) {
                    Directive::Title => {
                        let t = trim(&value);
                        s.reader.song.title = string_of(&t, 0, t.len());
                        assert(t@.subrange(0, t@.len() as int) == t@);
                        s.stopped = true;
                        s.dropped = true;
                    },
                    Directive::Subtitle => {
                        let t = trim(&value);
                        assert(t@.subrange(0, t@.len() as int) == t@);
                        s.reader.song.subtitle = string_of(&t, 0, t.len());
                        let mut strings: Vec<SongString> = Vec::new();
                        strings.push(SongString::Title(string_of(&t, 0, t.len())));
                        assert(strings.deep_view() =~= seq![Fragment::Title(t@)]);
                        let block = SongBlock::new(strings);
                        let mut blocks: Vec<SongBlock> = Vec::new();
                        let ghost none = blocks;
                        blocks.push(block);
                        proof {
                            lemma_deep_push(none, blocks, block);
                            assert(blocks.deep_view() =~= seq![seq![Fragment::Title(t@)]]);
                        }
                        let line = SongLine::from(blocks, false);
                        let ghost before = s.reader.song.content;
                        s.reader.song.content.push(line);
                        proof {
                            lemma_deep_push(before, s.reader.song.content, line);
                        }
                        s.stopped = true;
                    },
                    Directive::Key => {
                        let t = trim(&value);
                        assert(t@.subrange(0, t@.len() as int) == t@);
                        let name = string_of(&t, 0, t.len());
                        match PitchClass::from_name(name.as_str()) {
                            Some(k) => {
                                match target {
                                    Some(to) => {
                                        s.reader.song.transposition = shift(
                                            s.reader.song.transposition,
                                            shortest_way(k, to),
                                        );
                                    },
                                    None => {},
                                }
                                if s.reader.song.key.is_none() {
                                    s.reader.song.key = Some(k);
                                }
                            },
                            None => {},
                        }
                        s.stopped = true;
                    },
                    Directive::Capo => {
                        let t = trim(&value);
                        match parse_number(&t) {
                            Some(n) => {
                                s.reader.song.transposition = shift(
                                    s.reader.song.transposition,
                                    -n,
                                );
                            },
                            None => {},
                        }
                        s.stopped = true;
                    },
                    Directive::Comment => {
                        let more = comment_words(&value);
                        s.blocks = join_blocks(s.blocks, more);
                    },
                    Directive::ChorusStart => {
                        s.reader.chorus = true;
                        s.stopped = true;
                    },
                    Directive::ChorusEnd => {
                        s.reader.chorus = false;
                    },
                    Directive::HeaderStart => {
                        s.reader.header = true;
                        s.stopped = true;
                    },
                    Directive::HeaderEnd => {
                        s.reader.header = false;
                        s.stopped = true;
                    },
                    Directive::Other => {},
                }
                s
            },
        }
    }
}

impl Reader {
    /// Reads one more line.
    fn read(self, line: &Vec<char>, target: Option<PitchClass>) -> (r: Reader)
        ensures
            r@ == read_line(self@, line@, target),
    {
        let pieces = split_marks(line, Mark::Tag);
        let blocks: Vec<SongBlock> = Vec::new();
        assert(blocks.deep_view() =~= Seq::<Seq<Fragment>>::empty());
        let mut s = Scanner { reader: self, blocks, tag: false, stopped: false, dropped: false };
        let ghost start = s@;
        let ghost parts = parts_of(line@, Mark::Tag);
        let mut i: usize = 0;
        assert(parts.take(0) == Seq::<Part>::empty());
        assert(pieces.deep_view().len() == pieces.len());
        while i < pieces.len()
            invariant
                i <= pieces.len(),
                pieces.len() == parts.len(),
                pieces.deep_view() == parts,
                s@ == scan_parts(start, parts.take(i as int), target),
            decreases pieces.len() - i,
        {
            proof {
                assert(parts.take(i + 1).drop_last() == parts.take(i as int));
                assert(parts[i as int] == pieces[i as int].deep_view());
            }
            s = s.take(&pieces[i], target);
            i += 1;
        }
        assert(parts.take(i as int) == parts);
        let Scanner { reader, blocks, tag, stopped, dropped } = s;
        let mut reader = reader;
        if !dropped && (blocks.len() > 0 || !tag) {
            assert(blocks.deep_view().len() == blocks.len());
            let line = SongLine::from(blocks, reader.chorus);
            let ghost before = reader.song.content;
            reader.song.content.push(line);
            proof {
                lemma_deep_push(before, reader.song.content, line);
            }
        } else {
            assert(blocks.deep_view().len() == blocks.len());
        }
        reader
    }
}

impl Default for Song {
    fn default() -> (r: Self)
        ensures
            r@ == reading_start().song,
    {
        let content: Vec<SongLine> = Vec::new();
        assert(content.deep_view() =~= Seq::<LineView>::empty());
        Song {
            title: String::new(),
            subtitle: String::new(),
            transposition: 0,
            key: None,
            content,
        }
    }
}

impl Song {
    /// Reads a song from its document. Where `key` is given, the chords are
    /// moved so that the song stands in that key.
    pub fn new(songstring: String, key: Option<PitchClass>) -> (song: Song)
        ensures
            song@ == parsed(songstring@, key),
    {
        let document = chars_of(songstring.as_str());
        let lines = split_lines(&document, true);
        let ghost all = tidy_lines(document@, true);
        let mut reader = Reader { song: Song::default(), chorus: false, header: false };
        let mut i: usize = 0;
        assert(all.take(0) == Seq::<Seq<char>>::empty());
        assert(lines.deep_view().len() == lines.len());
        while i < lines.len()
            invariant
                i <= lines.len(),
                lines.len() == all.len(),
                lines.deep_view() == all,
                reader@ == read_lines(reading_start(), all.take(i as int), key),
            decreases lines.len() - i,
        {
            proof {
                assert(all.take(i + 1).drop_last() == all.take(i as int));
                assert(all[i as int] == lines[i as int].deep_view());
                assert(lines[i as int].deep_view() =~= lines[i as int]@);
            }
            reader = reader.read(&lines[i], key);
            i += 1;
        }
        assert(all.take(i as int) == all);
        reader.song
    }

    /// Reads a song from its document, as it is written.
    pub fn from(songstring: String) -> (song: Song)
        ensures
            song@ == parsed(songstring@, None),
    {
        Song::new(songstring, None)
    }

    /// Reads a song from its document and moves its chords so that it
    /// stands in the key `key`.
    pub fn in_key(songstring: String, key: PitchClass) -> (song: Song)
        ensures
            song@ == parsed(songstring@, Some(key)),
    {
        Song::new(songstring, Some(key))
    }
}

/// What is known of a song's name while its document is searched: the title
/// and the subtitle found so far, and whether the rest of the line is passed
/// over.
pub struct Naming {
    pub title: Option<Seq<char>>,
    pub subtitle: Seq<char>,
    pub stopped: bool,
}

/// The naming after one more part of a line: a title or a subtitle is
/// taken, and the rest of its line passed over; anything else is left.
pub open spec fn name_part(n: Naming, part: Part) -> Naming {
    if n.stopped {
        n
    } else {
        match part {
            Part::Plain(_) => n,
            Part::Marked(content) => match directive_of(tag_name(content)) {
                Directive::Title => Naming {
                    title: Some(trimmed(tag_text(content))),
                    stopped: true,
                    ..n
                },
                Directive::Subtitle => Naming {
                    subtitle: trimmed(tag_text(content)),
                    stopped: true,
                    ..n
                },
                _ => n,
            },
        }
    }
}

/// The naming after the given parts of a line, taken from left to right.
pub open spec fn name_parts(n: Naming, parts: Seq<Part>) -> Naming
    decreases parts.len(),
{
    if parts.len() == 0 {
        n
    } else {
        name_part(name_parts(n, parts.drop_last()), parts.last())
    }
}

/// The naming after one more line.
pub open spec fn name_line(n: Naming, line: Seq<char>) -> Naming {
    name_parts(Naming { stopped: false, ..n }, parts_of(line, Mark::Tag))
}

/// The naming after the given lines, taken in their order.
pub open spec fn name_lines(n: Naming, lines: Seq<Seq<char>>) -> Naming
    decreases lines.len(),
{
    if lines.len() == 0 {
        n
    } else {
        name_line(name_lines(n, lines.drop_last()), lines.last())
    }
}

/// The name under which a document is listed: its title, or `fallback`
/// where it has none, followed by ` - ` and its subtitle where it has one
/// that is not empty.
pub open spec fn song_name(document: Seq<char>, fallback: Seq<char>) -> Seq<char> {
    let n = name_lines(
        Naming { title: None, subtitle: Seq::empty(), stopped: false },
        tidy_lines(document, false),
    );
    let title = match n.title {
        Some(t) => t,
        None => fallback,
    };
    if n.subtitle.len() > 0 {
        title + seq![' ', '-', ' '] + n.subtitle
    } else {
        title
    }
}

/// What is known of a song's name while its document is searched.
struct Namer {
    title: Option<String>,
    subtitle: String,
    stopped: bool,
}

impl View for Namer {
    type V = Naming;

    closed spec fn view(&self) -> Naming {
        Naming {
            title: match self.title {
                Some(t) => Some(t@),
                None => None,
            },
            subtitle: self.subtitle@,
            stopped: self.stopped,
        }
    }
}

impl Namer {
    /// Takes one more part of a line.
    fn take(self, piece: &Piece) -> (r: Namer)
        ensures
            r@ == name_part(self@, piece.deep_view()),
    {
        let mut n = self;
        if n.stopped {
            return n;
        }
        match piece {
            Piece::Plain(_) => n,
            Piece::Marked(content) => {
                let (name, value) = split_tag(content);
                match classify(&name) {
                    Directive::Title => {
                        let t = trim(&value);
                        assert(t@.subrange(0, t@.len() as int) == t@);
                        n.title = Some(string_of(&t, 0, t.len()));
                        n.stopped = true;
                    },
                    Directive::Subtitle => {
                        let t = trim(&value);
                        assert(t@.subrange(0, t@.len() as int) == t@);
                        n.subtitle = string_of(&t, 0, t.len());
                        n.stopped = true;
                    },
                    _ => {},
                }
                n
            },
        }
    }

    /// Searches one more line.
    fn read(self, line: &Vec<char>) -> (r: Namer)
        ensures
            r@ == name_line(self@, line@),
    {
        let pieces = split_marks(line, Mark::Tag);
        let mut n = self;
        n.stopped = false;
        let ghost start = n@;
        let ghost parts = parts_of(line@, Mark::Tag);
        let mut i: usize = 0;
        assert(parts.take(0) == Seq::<Part>::empty());
        assert(pieces.deep_view().len() == pieces.len());
        while i < pieces.len()
            invariant
                i <= pieces.len(),
                pieces.len() == parts.len(),
                pieces.deep_view() == parts,
                n@ == name_parts(start, parts.take(i as int)),
            decreases pieces.len() - i,
        {
            proof {
                assert(parts.take(i + 1).drop_last() == parts.take(i as int));
                assert(parts[i as int] == pieces[i as int].deep_view());
            }
            n = n.take(&pieces[i]);
            i += 1;
        }
        assert(parts.take(i as int) == parts);
        n
    }
}

impl Song {
    /// The name under which a document is listed, found without reading the
    /// whole song: its title, or `fallback` where it has none, followed by
    /// ` - ` and its subtitle where it has one.
    pub fn get_name(songstring: &str, fallback: &str) -> (r: String)
        ensures
            r@ == song_name(songstring@, fallback@),
    {
        let document = chars_of(songstring);
        let lines = split_lines(&document, false);
        let ghost all = tidy_lines(document@, false);
        let mut n = Namer { title: None, subtitle: String::new(), stopped: false };
        let ghost start = n@;
        let mut i: usize = 0;
        assert(all.take(0) == Seq::<Seq<char>>::empty());
        assert(lines.deep_view().len() == lines.len());
        while i < lines.len()
            invariant
                i <= lines.len(),
                lines.len() == all.len(),
                lines.deep_view() == all,
                n@ == name_lines(start, all.take(i as int)),
            decreases lines.len() - i,
        {
            proof {
                assert(all.take(i + 1).drop_last() == all.take(i as int));
                assert(all[i as int] == lines[i as int].deep_view());
                assert(lines[i as int].deep_view() =~= lines[i as int]@);
            }
            n = n.read(&lines[i]);
            i += 1;
        }
        assert(all.take(i as int) == all);
        let Namer { title, subtitle, stopped } = n;
        let mut name = match title {
            Some(t) => t,
            None => fallback.to_owned(),
        };
        if subtitle.as_str().unicode_len() > 0 {
            proof {
                reveal_strlit(" - ");
                assert(" - "@ =~= seq![' ', '-', ' ']);
            }
            name.append(" - ");
            name.append(subtitle.as_str());
        }
        name
    }
}

/// A list of songs: its title, and the names of its songs in their order.
/// A name may hold, in square brackets after a space, the key in which the
/// song is to be shown.
#[derive(Debug, PartialEq, Eq)]
pub struct Playlist {
    pub title: String,
    pub songs: Vec<String>,
    pub playliststring: String,
}

/// The title of a playlist: its first line, or nothing where it has none.
pub open spec fn playlist_title(text: Seq<char>) -> Seq<char> {
    if lines_of(text).len() > 0 {
        lines_of(text)[0]
    } else {
        Seq::empty()
    }
}

/// The names of the songs of a playlist: its lines after the first.
pub open spec fn playlist_songs(text: Seq<char>) -> Seq<Seq<char>> {
    if lines_of(text).len() > 0 {
        lines_of(text).skip(1)
    } else {
        Seq::empty()
    }
}

impl Playlist {
    /// Reads a playlist: the first line is its title, every other line
    /// names a song. A text without lines gives an empty title.
    pub fn from(playliststring: String) -> (r: Playlist)
        ensures
            r.playliststring@ == playliststring@,
            r.title@ == playlist_title(playliststring@),
            r.songs.deep_view() == playlist_songs(playliststring@),
    {
        let text = chars_of(playliststring.as_str());
        let lines = split_lines(&text, false);
        let ghost all = lines_of(text@);
        assert(lines.deep_view().len() == lines.len());
        assert(tidy_lines(text@, false) =~= all);
        let mut title = String::new();
        let mut songs: Vec<String> = Vec::new();
        if lines.len() == 0 {
            assert(songs.deep_view() =~= Seq::<Seq<char>>::empty());
            return Playlist { title, songs, playliststring };
        }
        proof {
            assert(all[0] == lines[0].deep_view());
            assert(lines[0].deep_view() =~= lines[0]@);
            assert(lines[0]@.subrange(0, lines[0]@.len() as int) == lines[0]@);
        }
        title = string_of(&lines[0], 0, lines[0].len());
        let mut i: usize = 1;
        assert(songs.deep_view() =~= all.skip(1).take(0));
        while i < lines.len()
            invariant
                1 <= i <= lines.len(),
                lines.len() == all.len(),
                lines.deep_view() == all,
                songs.deep_view() == all.skip(1).take(i - 1),
            decreases lines.len() - i,
        {
            proof {
                assert(all[i as int] == lines[i as int].deep_view());
                assert(lines[i as int].deep_view() =~= lines[i as int]@);
                assert(lines[i as int]@.subrange(0, lines[i as int]@.len() as int)
                    == lines[i as int]@);
            }
            let song = string_of(&lines[i], 0, lines[i].len());
            let ghost before = songs;
            songs.push(song);
            proof {
                lemma_deep_push(before, songs, song);
                assert(song.deep_view() == song@);
                assert(all.skip(1).take(i as int) =~= all.skip(1).take(i - 1).push(all[i as int]));
            }
            i += 1;
        }
        assert(all.skip(1).take(i - 1) == all.skip(1));
        Playlist { title, songs, playliststring }
    }
}

/// The length of the key annotation that starts at `i`: a space, `[`, a
/// letter from `A` to `G`, a `#` or `b` or neither, and `]`; 0 where none
/// starts.
pub open spec fn key_note_len(s: Seq<char>, i: int) -> int {
    if 0 <= i && i + 3 < s.len() && s[i] == ' ' && s[i + 1] == '[' && letter_index(s[i + 2])
        is Some {
        if s[i + 3] == ']' {
            4
        } else if i + 4 < s.len() && (s[i + 3] == '#' || s[i + 3] == 'b') && s[i + 4] == ']' {
            5
        } else {
            0
        }
    } else {
        0
    }
}

/// The first position from `i` on where a key annotation starts, or the
/// end of the text where none does.
pub open spec fn key_note_start(s: Seq<char>, i: int) -> int
    decreases s.len() - i,
{
    if 0 <= i < s.len() && key_note_len(s, i) == 0 {
        key_note_start(s, i + 1)
    } else {
        i
    }
}

/// What the name of a song in a playlist asks for: nothing where it holds
/// no key annotation; else the name without its first annotation, and the
/// key that the annotation names.
pub open spec fn forced_key(name: Seq<char>) -> Option<(Seq<char>, PitchClass)> {
    let a = key_note_start(name, 0);
    let n = key_note_len(name, a);
    if 0 <= a < name.len() && n > 0 {
        match PitchClass::spec_from_name(name.subrange(a + 2, a + n - 1)) {
            Some(key) => Some((name.take(a) + name.skip(a + n), key)),
            None => None,
        }
    } else {
        None
    }
}

/// The length of the key annotation that starts at `i`, or 0.
fn key_note_length(v: &Vec<char>, i: usize) -> (n: usize)
    requires
        i < v.len(),
    ensures
        n == key_note_len(v@, i as int),
{
    if v.len() - i < 4 {
        return 0;
    }
    let c = v[i + 2];
    if v[i] != ' ' || v[i + 1] != '[' || !(c == 'A' || c == 'B' || c == 'C' || c == 'D' || c == 'E'
        || c == 'F' || c == 'G') {
        return 0;
    }
    if v[i + 3] == ']' {
        4
    } else if v.len() - i >= 5 && (v[i + 3] == '#' || v[i + 3] == 'b') && v[i + 4] == ']' {
        5
    } else {
        0
    }
}

/// Parts the name of a song in a playlist from the key in which the song
/// is to be shown.
pub fn split_forced_key(name: &str) -> (r: Option<(String, PitchClass)>)
    ensures
        match r {
            Some((rest, key)) => forced_key(name@) == Some((rest@, key)),
            None => forced_key(name@) is None,
        },
{
    let v = chars_of(name);
    let mut a: usize = 0;
    while a < v.len() && key_note_length(&v, a) == 0
        invariant
            a <= v.len(),
            key_note_start(v@, 0) == key_note_start(v@, a as int),
        decreases v.len() - a,
    {
        a += 1;
    }
    if a >= v.len() {
        return None;
    }
    let n = key_note_length(&v, a);
    let note = string_of(&v, a + 2, a + n - 1);
    match PitchClass::from_name(note.as_str()) {
        Some(key) => {
            let mut rest = string_of(&v, 0, a);
            let tail = string_of(&v, a + n, v.len());
            rest.append(tail.as_str());
            assert(v@.take(a as int) == v@.subrange(0, a as int));
            assert(v@.skip(a + n) == v@.subrange(a + n, v@.len() as int));
            Some((rest, key))
        },
        None => None,
    }
}

/// A blank line stays in the song as a line without words. Where a line
/// holds nothing, or white space only, reading it adds one line to the
/// song, empty and inside the chorus or outside as the reader is, and
/// changes nothing else.
pub proof fn lemma_blank_line_is_kept(r: Reading, line: Seq<char>, target: Option<PitchClass>)
    requires
        forall|i: int| 0 <= i < line.len() ==> is_white(#[trigger] line[i]),
    ensures
        read_line(r, line, target) == (Reading {
            song: SongView {
                content: r.song.content.push(LineView { blocks: Seq::empty(), chorus: r.chorus }),
                ..r.song
            },
            ..r
        }),
{
    let parts = parts_of(line, Mark::Tag);
    let start = scan_start(r);
    if line.len() == 0 {
        assert(parts == Seq::<Part>::empty());
    } else {
        lemma_mark_start(line, 0, Mark::Tag);
        let a = mark_start(line, 0, Mark::Tag);
        if a < line.len() {
            assert(mark_len(line, a, Mark::Tag) > 0);
            assert(is_white(line[a]));
        }
        assert(line.subrange(0, line.len() as int) == line);
        assert(parts == seq![Part::Plain(line)]);
        assert(parts.drop_last() == Seq::<Part>::empty());
        assert(scan_parts(start, parts.drop_last(), target) == start);
        lemma_run_end_is(line, 0, line.len() as int, CharClass::Blank);
        assert(words_of(line) == Seq::<Seq<char>>::empty());
        assert(text_blocks(line, r.header, r.song.transposition) =~= Seq::<
            Seq<Fragment>,
        >::empty());
        assert(start.blocks + Seq::<Seq<Fragment>>::empty() =~= start.blocks);
    }
}

/// What is read on a line changes no line read before it: the song's lines
/// before a line are the first of its lines after it.
pub proof fn lemma_line_adds_only(r: Reading, line: Seq<char>, target: Option<PitchClass>)
    ensures
        r.song.content.is_prefix_of(read_line(r, line, target).song.content),
{
    let parts = parts_of(line, Mark::Tag);
    lemma_scan_adds_only(scan_start(r), parts, target);
    let s = scan_parts(scan_start(r), parts, target);
    let before = r.song.content;
    let after = read_line(r, line, target).song.content;
    assert(before.is_prefix_of(after)) by {
        assert(before =~= after.subrange(0, before.len() as int));
    }
}

/// The parts of a line change no line read before them.
proof fn lemma_scan_adds_only(s: Scan, parts: Seq<Part>, target: Option<PitchClass>)
    ensures
        s.reading.song.content.is_prefix_of(scan_parts(s, parts, target).reading.song.content),
    decreases parts.len(),
{
    let before = s.reading.song.content;
    if parts.len() > 0 {
        lemma_scan_adds_only(s, parts.drop_last(), target);
        let mid = scan_parts(s, parts.drop_last(), target).reading.song.content;
        let after = scan_parts(s, parts, target).reading.song.content;
        assert(mid.is_prefix_of(after)) by {
            assert(mid =~= after.subrange(0, mid.len() as int));
        }
        assert(before =~= after.subrange(0, before.len() as int));
    } else {
        assert(before =~= before.subrange(0, before.len() as int));
    }
}

/// Chords that are read are not changed by what is read after them: the
/// song's lines after the first `k` lines of a document are the first of
/// its lines after all of them, whatever keys the later lines declare.
pub proof fn lemma_lines_add_only(
    r: Reading,
    lines: Seq<Seq<char>>,
    k: int,
    target: Option<PitchClass>,
)
    requires
        0 <= k <= lines.len(),
    ensures
        read_lines(r, lines.take(k), target).song.content.is_prefix_of(
            read_lines(r, lines, target).song.content,
        ),
    decreases lines.len() - k,
{
    let before = read_lines(r, lines.take(k), target).song.content;
    if k < lines.len() {
        lemma_lines_add_only(r, lines, k + 1, target);
        assert(lines.take(k + 1).drop_last() == lines.take(k));
        lemma_line_adds_only(read_lines(r, lines.take(k), target), lines[k], target);
        let mid = read_lines(r, lines.take(k + 1), target).song.content;
        let after = read_lines(r, lines, target).song.content;
        assert(before =~= after.subrange(0, before.len() as int));
    } else {
        assert(lines.take(k) == lines);
        assert(before =~= before.subrange(0, before.len() as int));
    }
}

/// Whether every word of every line holds at least one piece.
pub open spec fn words_hold_pieces(content: Seq<LineView>) -> bool {
    forall|i: int, j: int|
        0 <= i < content.len() && 0 <= j < content[i].blocks.len() ==> (
        #[trigger] content[i].blocks[j]).len() > 0
}

/// Whether every one of some words holds at least one piece.
pub open spec fn blocks_hold_pieces(blocks: Seq<Seq<Fragment>>) -> bool {
    forall|j: int| 0 <= j < blocks.len() ==> (#[trigger] blocks[j]).len() > 0
}

/// The words that a text stands for hold at least one piece each.
proof fn lemma_text_blocks_hold_pieces(text: Seq<char>, header: bool, semitones: int)
    ensures
        blocks_hold_pieces(text_blocks(text, header, semitones)),
        blocks_hold_pieces(comment_blocks(text)),
{
    lemma_words_rebuild(text, 0);
    assert forall|j: int| 0 <= j < words_of(text).len() implies (#[trigger] chord_blocks(
        text,
        semitones,
    )[j]).len() > 0 by {
        lemma_parts_not_empty(words_of(text)[j], Mark::Chord);
    }
}

/// The parts of a line add only words that hold a piece, to the line and to
/// the song.
proof fn lemma_scan_holds_pieces(s: Scan, parts: Seq<Part>, target: Option<PitchClass>)
    requires
        words_hold_pieces(s.reading.song.content),
        blocks_hold_pieces(s.blocks),
    ensures
        words_hold_pieces(scan_parts(s, parts, target).reading.song.content),
        blocks_hold_pieces(scan_parts(s, parts, target).blocks),
    decreases parts.len(),
{
    if parts.len() > 0 {
        lemma_scan_holds_pieces(s, parts.drop_last(), target);
        let before = scan_parts(s, parts.drop_last(), target);
        let after = scan_parts(s, parts, target);
        if !before.stopped {
            match parts.last() {
                Part::Plain(text) => {
                    lemma_text_blocks_hold_pieces(
                        text,
                        before.reading.header,
                        before.reading.song.transposition,
                    );
                },
                Part::Marked(content) => {
                    lemma_text_blocks_hold_pieces(tag_text(content), true, 0);
                },
            }
        }
        assert(blocks_hold_pieces(after.blocks));
        assert(words_hold_pieces(after.reading.song.content));
    }
}

/// No line of a song holds an empty word. Where that is so of the lines
/// read so far, it is so after one more line: every word that a line adds
/// holds at least one piece, and a line without words is a blank line.
pub proof fn lemma_line_holds_pieces(r: Reading, line: Seq<char>, target: Option<PitchClass>)
    requires
        words_hold_pieces(r.song.content),
    ensures
        words_hold_pieces(read_line(r, line, target).song.content),
{
    lemma_scan_holds_pieces(scan_start(r), parts_of(line, Mark::Tag), target);
}

/// No line of a song holds an empty word, whatever document it was read
/// from.
pub proof fn lemma_song_holds_pieces(document: Seq<char>, target: Option<PitchClass>)
    ensures
        words_hold_pieces(parsed(document, target).content),
{
    lemma_lines_hold_pieces(tidy_lines(document, true), target);
}

/// No line read from some lines holds an empty word.
proof fn lemma_lines_hold_pieces(lines: Seq<Seq<char>>, target: Option<PitchClass>)
    ensures
        words_hold_pieces(read_lines(reading_start(), lines, target).song.content),
    decreases lines.len(),
{
    if lines.len() > 0 {
        lemma_lines_hold_pieces(lines.drop_last(), target);
        lemma_line_holds_pieces(
            read_lines(reading_start(), lines.drop_last(), target),
            lines.last(),
            target,
        );
    }
}

} // verus!
