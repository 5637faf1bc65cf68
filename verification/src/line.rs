//! The lines of a song: words made of chords and lyrics, and how a line is
//! set in two rows so that every chord stands above the lyric it belongs to.

use vstd::prelude::*;
use crate::markup::{parts_of, split_marks, transpose_chord, transposed, Mark, Part, Piece};
use crate::text::{chars_of, is_white, lemma_deep_insert_front, lemma_deep_push, string_of, white};

verus! {

/// How a piece of a row is to be shown.
#[derive(Debug, Clone, Copy, PartialEq, Eq, Structural)]
pub enum Style {
    /// Lyrics, and the filling between them.
    Plain,
    /// A chord.
    Chord,
    /// A comment, and the mark of a chorus.
    Comment,
    /// A heading.
    Title,
}

/// A piece of a row: a text and the style it is shown in.
#[derive(Debug, PartialEq, Eq)]
pub struct Span {
    pub text: String,
    pub style: Style,
}

/// What a span holds.
pub struct SpanView {
    pub text: Seq<char>,
    pub style: Style,
}

impl View for Span {
    type V = SpanView;

    open spec fn view(&self) -> SpanView {
        SpanView { text: self.text@, style: self.style }
    }
}

impl DeepView for Span {
    type V = SpanView;

    open spec fn deep_view(&self) -> SpanView {
        self@
    }
}

/// One piece of a word: a chord, lyrics, a comment or a heading.
#[derive(Debug, PartialEq, Eq)]
pub enum SongString {
    Chord(String),
    Text(String),
    Comment(String),
    Title(String),
}

/// What a piece of a word holds.
pub enum Fragment {
    Chord(Seq<char>),
    Text(Seq<char>),
    Comment(Seq<char>),
    Title(Seq<char>),
}

impl View for SongString {
    type V = Fragment;

    open spec fn view(&self) -> Fragment {
        match self {
            SongString::Chord(s) => Fragment::Chord(s@),
            SongString::Text(s) => Fragment::Text(s@),
            SongString::Comment(s) => Fragment::Comment(s@),
            SongString::Title(s) => Fragment::Title(s@),
        }
    }
}

impl DeepView for SongString {
    type V = Fragment;

    open spec fn deep_view(&self) -> Fragment {
        self@
    }
}

impl Clone for SongString {
    fn clone(&self) -> (r: Self)
        ensures
            r@ == self@,
    {
        match self {
            SongString::Chord(s) => SongString::Chord(s.clone()),
            SongString::Text(s) => SongString::Text(s.clone()),
            SongString::Comment(s) => SongString::Comment(s.clone()),
            SongString::Title(s) => SongString::Title(s.clone()),
        }
    }
}

/// The two rows of a line while it is being set: the chords above, the
/// lyrics below.
pub struct Rows {
    pub chords: Seq<SpanView>,
    pub text: Seq<SpanView>,
}

/// The number of characters in a row.
pub open spec fn row_width(row: Seq<SpanView>) -> nat
    decreases row.len(),
{
    if row.len() == 0 {
        0
    } else {
        row_width(row.drop_last()) + row.last().text.len()
    }
}

/// The last character of a row, if it has any.
pub open spec fn row_last(row: Seq<SpanView>) -> Option<char>
    decreases row.len(),
{
    if row.len() == 0 {
        None
    } else if row.last().text.len() > 0 {
        Some(row.last().text.last())
    } else {
        row_last(row.drop_last())
    }
}

/// The character that fills the lyrics up to the next chord: a hyphen where
/// the lyrics so far end in the middle of a word, a space where they end in
/// white space or in one of `,` `.` `:` `;`, or where there are none yet.
pub open spec fn filler(last: Option<char>) -> char {
    match last {
        Some(c) => if is_white(c) || c == ',' || c == '.' || c == ':' || c == ';' {
            ' '
        } else {
            '-'
        },
        None => ' ',
    }
}

/// The text made of `n` times the character `c`.
pub open spec fn repeated(c: char, n: int) -> Seq<char> {
    Seq::new(
        if n >= 0 {
            n as nat
        } else {
            0
        },
        |i: int| c,
    )
}

/// A span of plain style.
pub open spec fn plain_span(text: Seq<char>) -> SpanView {
    SpanView { text, style: Style::Plain }
}

/// The rows with one more piece set. Lyrics, comments and headings go to the
/// end of the lower row. A chord goes to the upper row, followed by a space,
/// after the shorter of the two rows has been filled up to the length of the
/// longer: the upper row with spaces, the lower with the filler.
pub open spec fn place(rows: Rows, f: Fragment) -> Rows {
    match f {
        Fragment::Text(t) => Rows {
            chords: rows.chords,
            text: rows.text.push(SpanView { text: t, style: Style::Plain }),
        },
        Fragment::Comment(t) => Rows {
            chords: rows.chords,
            text: rows.text.push(SpanView { text: t, style: Style::Comment }),
        },
        Fragment::Title(t) => Rows {
            chords: rows.chords,
            text: rows.text.push(SpanView { text: t, style: Style::Title }),
        },
        Fragment::Chord(c) => {
            let tw = row_width(rows.text);
            let cw = row_width(rows.chords);
            let text = if tw < cw {
                rows.text.push(plain_span(repeated(filler(row_last(rows.text)), cw - tw)))
            } else {
                rows.text
            };
            let chords = if tw > cw {
                rows.chords.push(plain_span(repeated(' ', tw - cw)))
            } else {
                rows.chords
            };
            Rows { chords: chords.push(SpanView { text: c.push(' '), style: Style::Chord }), text }
        },
    }
}

/// The rows with the pieces of one word set, in their order.
pub open spec fn lay_block(rows: Rows, block: Seq<Fragment>) -> Rows
    decreases block.len(),
{
    if block.len() == 0 {
        rows
    } else {
        place(lay_block(rows, block.drop_last()), block.last())
    }
}

/// The rows with the words of a line set, in their order.
pub open spec fn lay_blocks(rows: Rows, blocks: Seq<Seq<Fragment>>) -> Rows
    decreases blocks.len(),
{
    if blocks.len() == 0 {
        rows
    } else {
        lay_block(lay_blocks(rows, blocks.drop_last()), blocks.last())
    }
}

/// Two rows with nothing set.
pub open spec fn no_rows() -> Rows {
    Rows { chords: Seq::empty(), text: Seq::empty() }
}

/// The length of the longer of two rows.
pub open spec fn rows_width(rows: Rows) -> nat {
    if row_width(rows.chords) >= row_width(rows.text) {
        row_width(rows.chords)
    } else {
        row_width(rows.text)
    }
}

/// The width of a word set on its own.
pub open spec fn block_width(block: Seq<Fragment>) -> nat {
    rows_width(lay_block(no_rows(), block))
}

/// A row that has got one more span is longer by that span's text.
pub proof fn lemma_row_push(row: Seq<SpanView>, span: SpanView)
    ensures
        row_width(row.push(span)) == row_width(row) + span.text.len(),
        row_last(row.push(span)) == if span.text.len() > 0 {
            Some(span.text.last())
        } else {
            row_last(row)
        },
{
    assert(row.push(span).drop_last() == row);
}

/// Setting a piece makes neither row shorter.
pub proof fn lemma_place_grows(rows: Rows, f: Fragment)
    ensures
        row_width(place(rows, f).text) >= row_width(rows.text),
        row_width(place(rows, f).chords) >= row_width(rows.chords),
{
    match f {
        Fragment::Text(t) => {
            lemma_row_push(rows.text, SpanView { text: t, style: Style::Plain });
        },
        Fragment::Comment(t) => {
            lemma_row_push(rows.text, SpanView { text: t, style: Style::Comment });
        },
        Fragment::Title(t) => {
            lemma_row_push(rows.text, SpanView { text: t, style: Style::Title });
        },
        Fragment::Chord(c) => {
            let tw = row_width(rows.text);
            let cw = row_width(rows.chords);
            lemma_row_push(rows.text, plain_span(repeated(filler(row_last(rows.text)), cw - tw)));
            lemma_row_push(rows.chords, plain_span(repeated(' ', tw - cw)));
            let chords = if tw > cw {
                rows.chords.push(plain_span(repeated(' ', tw - cw)))
            } else {
                rows.chords
            };
            lemma_row_push(chords, SpanView { text: c.push(' '), style: Style::Chord });
        },
    }
}

/// The rows are no shorter after a whole word than after its first `k`
/// pieces.
pub proof fn lemma_block_grows(rows: Rows, block: Seq<Fragment>, k: int)
    requires
        0 <= k <= block.len(),
    ensures
        row_width(lay_block(rows, block.take(k)).text) <= row_width(lay_block(rows, block).text),
        row_width(lay_block(rows, block.take(k)).chords) <= row_width(
            lay_block(rows, block).chords,
        ),
    decreases block.len() - k,
{
    if k < block.len() {
        lemma_block_grows(rows, block, k + 1);
        assert(block.take(k + 1).drop_last() == block.take(k));
        lemma_place_grows(lay_block(rows, block.take(k)), block[k]);
    } else {
        assert(block.take(k) == block);
    }
}

/// The rows are no shorter after all the words than after the first `k`.
pub proof fn lemma_blocks_grow(rows: Rows, blocks: Seq<Seq<Fragment>>, k: int)
    requires
        0 <= k <= blocks.len(),
    ensures
        row_width(lay_blocks(rows, blocks.take(k)).text) <= row_width(
            lay_blocks(rows, blocks).text,
        ),
        row_width(lay_blocks(rows, blocks.take(k)).chords) <= row_width(
            lay_blocks(rows, blocks).chords,
        ),
    decreases blocks.len() - k,
{
    if k < blocks.len() {
        lemma_blocks_grow(rows, blocks, k + 1);
        assert(blocks.take(k + 1).drop_last() == blocks.take(k));
        let before = lay_blocks(rows, blocks.take(k));
        lemma_block_grows(before, blocks[k], 0);
        assert(blocks[k].take(0) == Seq::<Fragment>::empty());
    } else {
        assert(blocks.take(k) == blocks);
    }
}

/// A number of characters as a machine integer: the number itself where it
/// fits, the largest machine integer where it does not.
pub open spec fn capped(n: nat) -> usize {
    if n <= usize::MAX {
        n as usize
    } else {
        usize::MAX
    }
}

/// The lengths of the two rows while a line is measured.
struct Gauge {
    text: usize,
    chords: usize,
}

impl Gauge {
    /// Whether the gauge holds the lengths of `rows`.
    spec fn of(self, rows: Rows) -> bool {
        self.text == row_width(rows.text) && self.chords == row_width(rows.chords)
    }

    /// The longer of the two rows.
    fn width(&self) -> (r: usize)
        ensures
            r == if self.chords >= self.text {
                self.chords
            } else {
                self.text
            },
    {
        if self.chords >= self.text {
            self.chords
        } else {
            self.text
        }
    }
}

/// The lengths of the rows after one more piece, or nothing where a row
/// would grow beyond what a machine integer holds.
fn measure_string(g: Gauge, s: &SongString, Ghost(rows): Ghost<Rows>) -> (r: Option<Gauge>)
    requires
        g.of(rows),
    ensures
        match r {
            Some(n) => n.of(place(rows, s@)),
            None => rows_width(place(rows, s@)) > usize::MAX,
        },
{
    match s {
        SongString::Text(t) => {
            proof {
                lemma_row_push(rows.text, SpanView { text: t@, style: Style::Plain });
            }
            match g.text.checked_add(t.as_str().unicode_len()) {
                Some(n) => Some(Gauge { text: n, chords: g.chords }),
                None => None,
            }
        },
        SongString::Comment(t) => {
            proof {
                lemma_row_push(rows.text, SpanView { text: t@, style: Style::Comment });
            }
            match g.text.checked_add(t.as_str().unicode_len()) {
                Some(n) => Some(Gauge { text: n, chords: g.chords }),
                None => None,
            }
        },
        SongString::Title(t) => {
            proof {
                lemma_row_push(rows.text, SpanView { text: t@, style: Style::Title });
            }
            match g.text.checked_add(t.as_str().unicode_len()) {
                Some(n) => Some(Gauge { text: n, chords: g.chords }),
                None => None,
            }
        },
        SongString::Chord(c) => {
            let level = g.width();
            proof {
                let tw = row_width(rows.text);
                let cw = row_width(rows.chords);
                lemma_row_push(
                    rows.text,
                    plain_span(repeated(filler(row_last(rows.text)), cw - tw)),
                );
                lemma_row_push(rows.chords, plain_span(repeated(' ', tw - cw)));
                let chords = if tw > cw {
                    rows.chords.push(plain_span(repeated(' ', tw - cw)))
                } else {
                    rows.chords
                };
                lemma_row_push(chords, SpanView { text: c@.push(' '), style: Style::Chord });
            }
            let grown = match level.checked_add(c.as_str().unicode_len()) {
                Some(n) => n.checked_add(1),
                None => None,
            };
            match grown {
                Some(n) => Some(Gauge { text: level, chords: n }),
                None => None,
            }
        },
    }
}

/// A word of a line: chords and lyrics in the order in which they were
/// written. A line is broken between words only, never inside one.
#[derive(Debug, PartialEq, Eq)]
pub struct SongBlock(Vec<SongString>);

impl View for SongBlock {
    type V = Seq<Fragment>;

    closed spec fn view(&self) -> Seq<Fragment> {
        self.0.deep_view()
    }
}

impl DeepView for SongBlock {
    type V = Seq<Fragment>;

    open spec fn deep_view(&self) -> Seq<Fragment> {
        self@
    }
}

impl Clone for SongBlock {
    fn clone(&self) -> (r: Self)
        ensures
            r@ == self@,
    {
        let mut strings: Vec<SongString> = Vec::new();
        let mut i: usize = 0;
        while i < self.0.len()
            invariant
                i <= self.0.len(),
                strings.deep_view() == self.0.deep_view().take(i as int),
            decreases self.0.len() - i,
        {
            let ghost before = strings;
            let s = self.0[i].clone();
            strings.push(s);
            proof {
                lemma_deep_push(before, strings, s);
                assert(self.0.deep_view().take(i + 1) =~= self.0.deep_view().take(i as int).push(
                    self.0[i as int]@,
                ));
            }
            i += 1;
        }
        assert(self.0.deep_view().take(i as int) == self.0.deep_view());
        SongBlock(strings)
    }
}

/// The pieces of a word in which chords stand in square brackets: what is
/// in brackets is a chord, with its root notes moved up by `semitones`; what
/// is between the brackets is lyrics.
pub open spec fn chord_block(word: Seq<char>, semitones: int) -> Seq<Fragment> {
    fragments_of(parts_of(word, Mark::Chord), semitones)
}

/// The pieces that the parts of a word stand for.
pub open spec fn fragments_of(parts: Seq<Part>, semitones: int) -> Seq<Fragment> {
    Seq::new(parts.len(), |i: int| fragment_of(parts[i], semitones))
}

/// The piece that a part of a word stands for.
pub open spec fn fragment_of(part: Part, semitones: int) -> Fragment {
    match part {
        Part::Plain(t) => Fragment::Text(t),
        Part::Marked(c) => Fragment::Chord(transposed(c, semitones)),
    }
}

impl SongBlock {
    /// A word made of the given pieces.
    pub fn new(strings: Vec<SongString>) -> (r: SongBlock)
        ensures
            r@ == strings.deep_view(),
    {
        SongBlock(strings)
    }

    /// The pieces of the word.
    pub fn strings(&self) -> (r: &Vec<SongString>)
        ensures
            r.deep_view() == self@,
    {
        &self.0
    }

    /// Reads a word in which chords stand in square brackets, and moves the
    /// root notes of its chords up by `transposition` semitones.
    pub fn from(input: &str, transposition: i32) -> (r: SongBlock)
        ensures
            r@ == chord_block(input@, transposition as int),
    {
        let word = chars_of(input);
        SongBlock::from_chars(&word, transposition)
    }

    /// Reads a word in which chords stand in square brackets, and moves the
    /// root notes of its chords up by `transposition` semitones.
    pub fn from_chars(word: &Vec<char>, transposition: i32) -> (r: SongBlock)
        ensures
            r@ == chord_block(word@, transposition as int),
    {
        let pieces = split_marks(word, Mark::Chord);
        let mut strings: Vec<SongString> = Vec::new();
        let mut i: usize = 0;
        while i < pieces.len()
            invariant
                i <= pieces.len(),
                pieces.deep_view() == parts_of(word@, Mark::Chord),
                strings.deep_view() == chord_block(word@, transposition as int).take(i as int),
            decreases pieces.len() - i,
        {
            assert(pieces.deep_view()[i as int] == pieces[i as int].deep_view());
            let s = match &pieces[i] {
                Piece::Plain(t) => SongString::Text(string_of(t, 0, t.len())),
                Piece::Marked(c) => SongString::Chord(transpose_chord(c, transposition)),
            };
            proof {
                match pieces[i as int] {
                    Piece::Plain(t) => {
                        assert(t@.subrange(0, t@.len() as int) == t@);
                    },
                    Piece::Marked(c) => {},
                }
            }
            let ghost before = strings;
            strings.push(s);
            proof {
                lemma_deep_push(before, strings, s);
                let all = chord_block(word@, transposition as int);
                assert(all.take(i + 1) =~= all.take(i as int).push(all[i as int]));
            }
            i += 1;
        }
        assert(chord_block(word@, transposition as int).take(i as int) == chord_block(
            word@,
            transposition as int,
        ));
        SongBlock(strings)
    }

    /// A word that is one comment.
    pub fn from_comment(c: &str) -> (r: SongBlock)
        ensures
            r@ == seq![Fragment::Comment(c@)],
    {
        let mut strings: Vec<SongString> = Vec::new();
        strings.push(SongString::Comment(c.to_owned()));
        assert(strings.deep_view() =~= seq![Fragment::Comment(c@)]);
        SongBlock(strings)
    }

    /// The width of the word when it is set on its own.
    pub open spec fn spec_width(&self) -> nat {
        block_width(self@)
    }

    /// The lengths of the rows after this word, or nothing where a row would
    /// grow beyond what a machine integer holds.
    fn measure(&self, g: Gauge, Ghost(rows): Ghost<Rows>) -> (r: Option<Gauge>)
        requires
            g.of(rows),
        ensures
            match r {
                Some(n) => n.of(lay_block(rows, self@)),
                None => rows_width(lay_block(rows, self@)) > usize::MAX,
            },
    {
        let mut g = g;
        let mut i: usize = 0;
        assert(self@.take(0) == Seq::<Fragment>::empty());
        while i < self.0.len()
            invariant
                i <= self.0.len(),
                self@.len() == self.0.len(),
                g.of(lay_block(rows, self@.take(i as int))),
            decreases self.0.len() - i,
        {
            let ghost cur = lay_block(rows, self@.take(i as int));
            proof {
                assert(self@.take(i + 1).drop_last() == self@.take(i as int));
                assert(self@[i as int] == self.0[i as int]@);
            }
            match measure_string(g, &self.0[i], Ghost(cur)) {
                Some(n) => {
                    g = n;
                },
                None => {
                    proof {
                        lemma_block_grows(rows, self@, i + 1);
                    }
                    return None;
                },
            }
            i += 1;
        }
        assert(self@.take(i as int) == self@);
        Some(g)
    }

    /// The width of the word when it is set on its own, or nothing where it
    /// is beyond what a machine integer holds.
    pub fn measured(&self) -> (r: Option<usize>)
        ensures
            match r {
                Some(w) => w == self.spec_width(),
                None => self.spec_width() > usize::MAX,
            },
    {
        match self.measure(Gauge { text: 0, chords: 0 }, Ghost(no_rows())) {
            Some(g) => Some(g.width()),
            None => None,
        }
    }

    /// The width of the word when it is set on its own: the length of the
    /// longer of its two rows.
    pub fn width(&self) -> (r: usize)
        ensures
            r == capped(self.spec_width()),
    {
        match self.measured() {
            Some(w) => w,
            None => usize::MAX,
        }
    }
}

/// The text made of `n` times the character `c`.
pub fn repeat_char(c: char, n: usize) -> (r: String)
    ensures
        r@ == repeated(c, n as int),
{
    let mut r = String::new();
    let mut i: usize = 0;
    while i < n
        invariant
            i <= n,
            r@ == repeated(c, i as int),
        decreases n - i,
    {
        r.push(c);
        assert(r@ =~= repeated(c, i + 1));
        i += 1;
    }
    r
}

/// The character that fills the lyrics up to the next chord.
fn filler_for(last: Option<char>) -> (r: char)
    ensures
        r == filler(last),
{
    match last {
        Some(c) => if white(c) || c == ',' || c == '.' || c == ':' || c == ';' {
            ' '
        } else {
            '-'
        },
        None => ' ',
    }
}

/// The two rows of a line while it is being set.
struct Setting {
    chords: Vec<Span>,
    text: Vec<Span>,
    gauge: Gauge,
    last: Option<char>,
}

impl Setting {
    /// Whether the setting holds `rows`.
    spec fn holds(self, rows: Rows) -> bool {
        &&& self.chords.deep_view() == rows.chords
        &&& self.text.deep_view() == rows.text
        &&& self.gauge.of(rows)
        &&& self.last == row_last(rows.text)
    }

    /// Puts a span at the end of the lower row.
    fn push_text(self, t: &String, style: Style, Ghost(rows): Ghost<Rows>) -> (r: Setting)
        requires
            self.holds(rows),
            row_width(rows.text) + t@.len() <= usize::MAX,
        ensures
            r.holds(
                Rows { chords: rows.chords, text: rows.text.push(SpanView { text: t@, style }) },
            ),
    {
        let mut st = self;
        let n = t.as_str().unicode_len();
        let span = Span { text: t.clone(), style };
        proof {
            lemma_row_push(rows.text, span@);
        }
        if n > 0 {
            st.last = Some(t.as_str().get_char(n - 1));
        }
        let ghost before = st.text;
        st.text.push(span);
        proof {
            lemma_deep_push(before, st.text, span);
        }
        st.gauge.text = st.gauge.text + n;
        st
    }

    /// Sets one more piece.
    fn place(self, s: &SongString, Ghost(rows): Ghost<Rows>) -> (r: Setting)
        requires
            self.holds(rows),
            rows_width(place(rows, s@)) <= usize::MAX,
        ensures
            r.holds(place(rows, s@)),
    {
        match s {
            SongString::Text(t) => {
                proof {
                    lemma_row_push(rows.text, SpanView { text: t@, style: Style::Plain });
                }
                self.push_text(t, Style::Plain, Ghost(rows))
            },
            SongString::Comment(t) => {
                proof {
                    lemma_row_push(rows.text, SpanView { text: t@, style: Style::Comment });
                }
                self.push_text(t, Style::Comment, Ghost(rows))
            },
            SongString::Title(t) => {
                proof {
                    lemma_row_push(rows.text, SpanView { text: t@, style: Style::Title });
                }
                self.push_text(t, Style::Title, Ghost(rows))
            },
            SongString::Chord(c) => {
                let mut st = self;
                let tw = st.gauge.text;
                let cw = st.gauge.chords;
                let ghost padded_text = if tw < cw {
                    rows.text.push(plain_span(repeated(filler(row_last(rows.text)), cw - tw)))
                } else {
                    rows.text
                };
                let ghost padded_chords = if tw > cw {
                    rows.chords.push(plain_span(repeated(' ', tw - cw)))
                } else {
                    rows.chords
                };
                proof {
                    lemma_row_push(
                        rows.text,
                        plain_span(repeated(filler(row_last(rows.text)), cw - tw)),
                    );
                    lemma_row_push(rows.chords, plain_span(repeated(' ', tw - cw)));
                    lemma_row_push(
                        padded_chords,
                        SpanView { text: c@.push(' '), style: Style::Chord },
                    );
                }
                if tw < cw {
                    let fill = filler_for(st.last);
                    let span = Span { text: repeat_char(fill, cw - tw), style: Style::Plain };
                    let ghost before = st.text;
                    st.text.push(span);
                    proof {
                        lemma_deep_push(before, st.text, span);
                    }
                    st.gauge.text = cw;
                    st.last = Some(fill);
                } else if tw > cw {
                    let span = Span { text: repeat_char(' ', tw - cw), style: Style::Plain };
                    let ghost before = st.chords;
                    st.chords.push(span);
                    proof {
                        lemma_deep_push(before, st.chords, span);
                    }
                    st.gauge.chords = tw;
                }
                let mut name = c.clone();
                name.push(' ');
                let span = Span { text: name, style: Style::Chord };
                let ghost before = st.chords;
                st.chords.push(span);
                proof {
                    lemma_deep_push(before, st.chords, span);
                }
                st.gauge.chords = st.gauge.chords + c.as_str().unicode_len() + 1;
                st
            },
        }
    }
}

impl SongBlock {
    /// Sets the pieces of this word.
    fn set(&self, st: Setting, Ghost(rows): Ghost<Rows>) -> (r: Setting)
        requires
            st.holds(rows),
            rows_width(lay_block(rows, self@)) <= usize::MAX,
        ensures
            r.holds(lay_block(rows, self@)),
    {
        let mut st = st;
        let mut i: usize = 0;
        assert(self@.take(0) == Seq::<Fragment>::empty());
        while i < self.0.len()
            invariant
                i <= self.0.len(),
                self@.len() == self.0.len(),
                st.holds(lay_block(rows, self@.take(i as int))),
                rows_width(lay_block(rows, self@)) <= usize::MAX,
            decreases self.0.len() - i,
        {
            let ghost cur = lay_block(rows, self@.take(i as int));
            proof {
                assert(self@.take(i + 1).drop_last() == self@.take(i as int));
                assert(self@[i as int] == self.0[i as int]@);
                lemma_block_grows(rows, self@, i + 1);
            }
            st = st.place(&self.0[i], Ghost(cur));
            i += 1;
        }
        assert(self@.take(i as int) == self@);
        st
    }

    /// Whether a chord has been set once this word is set, given whether
    /// one had been set before.
    fn chord_seen(&self, seen: bool, Ghost(rows): Ghost<Rows>) -> (r: bool)
        requires
            seen == (rows.chords.len() > 0),
        ensures
            r == (lay_block(rows, self@).chords.len() > 0),
    {
        let mut seen = seen;
        let mut i: usize = 0;
        assert(self@.take(0) == Seq::<Fragment>::empty());
        while i < self.0.len()
            invariant
                i <= self.0.len(),
                self@.len() == self.0.len(),
                seen == (lay_block(rows, self@.take(i as int)).chords.len() > 0),
            decreases self.0.len() - i,
        {
            proof {
                assert(self@.take(i + 1).drop_last() == self@.take(i as int));
                assert(self@[i as int] == self.0[i as int]@);
            }
            match &self.0[i] {
                SongString::Chord(_) => {
                    seen = true;
                },
                _ => {},
            }
            i += 1;
        }
        assert(self@.take(i as int) == self@);
        seen
    }
}

/// A line of a song: its words, and whether it belongs to a chorus.
#[derive(Debug, PartialEq, Eq)]
pub struct SongLine {
    blocks: Vec<SongBlock>,
    chorus: bool,
}

/// What a line holds.
pub struct LineView {
    pub blocks: Seq<Seq<Fragment>>,
    pub chorus: bool,
}

impl View for SongLine {
    type V = LineView;

    closed spec fn view(&self) -> LineView {
        LineView { blocks: self.blocks.deep_view(), chorus: self.chorus }
    }
}

impl DeepView for SongLine {
    type V = LineView;

    open spec fn deep_view(&self) -> LineView {
        self@
    }
}

/// A copy of a vector of words.
fn clone_blocks(blocks: &Vec<SongBlock>) -> (r: Vec<SongBlock>)
    ensures
        r.deep_view() == blocks.deep_view(),
{
    let mut r: Vec<SongBlock> = Vec::new();
    let mut i: usize = 0;
    assert(r.deep_view() =~= blocks.deep_view().take(0));
    while i < blocks.len()
        invariant
            i <= blocks.len(),
            r.deep_view() == blocks.deep_view().take(i as int),
        decreases blocks.len() - i,
    {
        let ghost before = r;
        let b = blocks[i].clone();
        r.push(b);
        proof {
            lemma_deep_push(before, r, b);
            assert(blocks.deep_view().take(i + 1) =~= blocks.deep_view().take(i as int).push(
                blocks[i as int]@,
            ));
        }
        i += 1;
    }
    assert(blocks.deep_view().take(i as int) == blocks.deep_view());
    r
}

impl Clone for SongLine {
    fn clone(&self) -> (r: Self)
        ensures
            r@ == self@,
    {
        SongLine { blocks: clone_blocks(&self.blocks), chorus: self.chorus }
    }
}

impl Default for SongLine {
    fn default() -> (r: Self)
        ensures
            r@ == (LineView { blocks: Seq::empty(), chorus: false }),
    {
        let blocks: Vec<SongBlock> = Vec::new();
        assert(blocks.deep_view() =~= Seq::<Seq<Fragment>>::empty());
        SongLine { blocks, chorus: false }
    }
}

/// The two rows of a line with all its words set, before the mark of a
/// chorus is put in front.
pub open spec fn line_laid(line: LineView) -> Rows {
    lay_blocks(no_rows(), line.blocks)
}

/// Whether the rows of a line begin with the mark of a chorus: the line
/// belongs to a chorus and has something in one of its rows.
pub open spec fn line_marked(line: LineView) -> bool {
    line.chorus && rows_width(line_laid(line)) > 0
}

/// The width of a line: the length of the longer of its two rows.
pub open spec fn line_width(line: LineView) -> nat {
    if line_marked(line) {
        rows_width(line_laid(line)) + 2
    } else {
        rows_width(line_laid(line))
    }
}

/// The height of a line: two rows where it holds a chord, one where it does
/// not.
pub open spec fn line_height(line: LineView) -> nat {
    if line_laid(line).chords.len() > 0 {
        2
    } else {
        1
    }
}

/// The mark that begins the rows of a chorus.
pub open spec fn chorus_mark() -> SpanView {
    SpanView { text: seq!['|', ' '], style: Style::Comment }
}

/// A row of a line, behind the mark of a chorus where the line has one.
pub open spec fn marked_row(line: LineView, row: Seq<SpanView>) -> Seq<SpanView> {
    if line_marked(line) {
        seq![chorus_mark()] + row
    } else {
        row
    }
}

/// The rows in which a line is shown: the row of the lyrics, and above it
/// the row of the chords where the line holds a chord.
pub open spec fn line_rows(line: LineView) -> Seq<Seq<SpanView>> {
    if line_laid(line).chords.len() > 0 {
        seq![marked_row(line, line_laid(line).chords), marked_row(line, line_laid(line).text)]
    } else {
        seq![marked_row(line, line_laid(line).text)]
    }
}

impl SongLine {
    /// A line made of the given words.
    pub fn from(blocks: Vec<SongBlock>, chorus: bool) -> (r: SongLine)
        ensures
            r@ == (LineView { blocks: blocks.deep_view(), chorus }),
    {
        SongLine { blocks, chorus }
    }

    /// The words of the line.
    pub fn blocks(&self) -> (r: &Vec<SongBlock>)
        ensures
            r.deep_view() == self@.blocks,
    {
        &self.blocks
    }

    /// Whether the line belongs to a chorus.
    pub fn chorus(&self) -> (r: bool)
        ensures
            r == self@.chorus,
    {
        self.chorus
    }

    /// The width of the line.
    pub open spec fn spec_width(&self) -> nat {
        line_width(self@)
    }

    /// The height of the line.
    pub open spec fn spec_height(&self) -> nat {
        line_height(self@)
    }

    /// The width of the line, or nothing where it is beyond what a machine
    /// integer holds.
    pub fn measured(&self) -> (r: Option<usize>)
        ensures
            match r {
                Some(w) => w == self.spec_width(),
                None => self.spec_width() > usize::MAX,
            },
    {
        let mut g = Gauge { text: 0, chords: 0 };
        let mut i: usize = 0;
        let ghost blocks = self@.blocks;
        assert(blocks.take(0) == Seq::<Seq<Fragment>>::empty());
        while i < self.blocks.len()
            invariant
                i <= self.blocks.len(),
                blocks == self@.blocks,
                blocks.len() == self.blocks.len(),
                g.of(lay_blocks(no_rows(), blocks.take(i as int))),
            decreases self.blocks.len() - i,
        {
            let ghost cur = lay_blocks(no_rows(), blocks.take(i as int));
            proof {
                assert(blocks.take(i + 1).drop_last() == blocks.take(i as int));
                assert(blocks[i as int] == self.blocks[i as int]@);
            }
            match self.blocks[i].measure(g, Ghost(cur)) {
                Some(n) => {
                    g = n;
                },
                None => {
                    proof {
                        lemma_blocks_grow(no_rows(), blocks, i + 1);
                    }
                    return None;
                },
            }
            i += 1;
        }
        assert(blocks.take(i as int) == blocks);
        let w = g.width();
        if self.chorus && w > 0 {
            w.checked_add(2)
        } else {
            Some(w)
        }
    }

    /// Whether the width of the line is a machine integer, as any line is
    /// that a machine can hold in rows.
    pub fn fits(&self) -> (r: bool)
        ensures
            r == (self.spec_width() <= usize::MAX),
    {
        self.measured().is_some()
    }

    /// The width of the line: the length of the longer of its rows.
    pub fn width(&self) -> (r: usize)
        ensures
            r == capped(self.spec_width()),
    {
        match self.measured() {
            Some(w) => w,
            None => usize::MAX,
        }
    }

    /// The height of the line: the number of its rows.
    pub fn height(&self) -> (r: usize)
        ensures
            r == self.spec_height(),
            r == 1 || r == 2,
            r == line_rows(self@).len(),
    {
        let mut seen = false;
        let mut i: usize = 0;
        let ghost blocks = self@.blocks;
        assert(blocks.take(0) == Seq::<Seq<Fragment>>::empty());
        while i < self.blocks.len()
            invariant
                i <= self.blocks.len(),
                blocks == self@.blocks,
                blocks.len() == self.blocks.len(),
                seen == (lay_blocks(no_rows(), blocks.take(i as int)).chords.len() > 0),
            decreases self.blocks.len() - i,
        {
            let ghost cur = lay_blocks(no_rows(), blocks.take(i as int));
            proof {
                assert(blocks.take(i + 1).drop_last() == blocks.take(i as int));
                assert(blocks[i as int] == self.blocks[i as int]@);
            }
            seen = self.blocks[i].chord_seen(seen, Ghost(cur));
            i += 1;
        }
        assert(blocks.take(i as int) == blocks);
        if seen {
            2
        } else {
            1
        }
    }

    /// Sets the line in rows of spans, so that every chord stands above the
    /// lyric that follows it: the row of the lyrics, and above it the row of
    /// the chords where the line holds a chord.
    pub fn format(&self) -> (r: Vec<Vec<Span>>)
        requires
            self.spec_width() <= usize::MAX,
        ensures
            r.deep_view() == line_rows(self@),
    {
        let mut st = Setting {
            chords: Vec::new(),
            text: Vec::new(),
            gauge: Gauge { text: 0, chords: 0 },
            last: None,
        };
        let mut i: usize = 0;
        let ghost blocks = self@.blocks;
        proof {
            assert(blocks.take(0) == Seq::<Seq<Fragment>>::empty());
            assert(st.chords.deep_view() =~= Seq::<SpanView>::empty());
            assert(st.text.deep_view() =~= Seq::<SpanView>::empty());
        }
        while i < self.blocks.len()
            invariant
                i <= self.blocks.len(),
                blocks == self@.blocks,
                blocks.len() == self.blocks.len(),
                st.holds(lay_blocks(no_rows(), blocks.take(i as int))),
                rows_width(lay_blocks(no_rows(), blocks)) <= usize::MAX,
            decreases self.blocks.len() - i,
        {
            let ghost cur = lay_blocks(no_rows(), blocks.take(i as int));
            proof {
                assert(blocks.take(i + 1).drop_last() == blocks.take(i as int));
                assert(blocks[i as int] == self.blocks[i as int]@);
                lemma_blocks_grow(no_rows(), blocks, i + 1);
            }
            st = self.blocks[i].set(st, Ghost(cur));
            i += 1;
        }
        assert(blocks.take(i as int) == blocks);
        let Setting { chords, text, gauge, last } = st;
        let mut chords = chords;
        let mut text = text;
        let has_chords = chords.len() > 0;
        assert(chords.deep_view().len() == chords@.len());
        if self.chorus && gauge.width() > 0 {
            proof {
                reveal_strlit("| ");
                assert("| "@ =~= seq!['|', ' ']);
            }
            let mark = Span { text: "| ".to_owned(), style: Style::Comment };
            let ghost before = chords;
            chords.insert(0, mark);
            proof {
                lemma_deep_insert_front(before, chords, mark);
            }
            let mark = Span { text: "| ".to_owned(), style: Style::Comment };
            let ghost before = text;
            text.insert(0, mark);
            proof {
                lemma_deep_insert_front(before, text, mark);
            }
        }
        let mut rows: Vec<Vec<Span>> = Vec::new();
        if has_chords {
            rows.push(chords);
        }
        rows.push(text);
        assert(rows.deep_view() =~= line_rows(self@));
        rows
    }
}

/// A line while it is broken into shorter ones: the lines that are closed,
/// the words of the line that is open, and the sum of their widths.
pub struct Breaking {
    pub done: Seq<Seq<Seq<Fragment>>>,
    pub current: Seq<Seq<Fragment>>,
    pub width: nat,
}

/// The breaking with one more word. The word joins the open line while the
/// widths of its words, `mark` added, stay below `limit`; else the open
/// line is closed, unless it is empty, and the word opens the next one.
pub open spec fn break_step(b: Breaking, block: Seq<Fragment>, limit: int, mark: int) -> Breaking {
    if b.width + block_width(block) + mark < limit {
        Breaking {
            done: b.done,
            current: b.current.push(block),
            width: b.width + block_width(block),
        }
    } else {
        Breaking {
            done: if b.current.len() > 0 {
                b.done.push(b.current)
            } else {
                b.done
            },
            current: seq![block],
            width: block_width(block),
        }
    }
}

/// The breaking of a sequence of words, taken from left to right.
pub open spec fn breaking(blocks: Seq<Seq<Fragment>>, limit: int, mark: int) -> Breaking
    decreases blocks.len(),
{
    if blocks.len() == 0 {
        Breaking { done: Seq::empty(), current: Seq::empty(), width: 0 }
    } else {
        break_step(breaking(blocks.drop_last(), limit, mark), blocks.last(), limit, mark)
    }
}

/// The groups of words into which a sequence of words is broken: the lines
/// that were closed, and the one that was open at the end.
pub open spec fn broken(blocks: Seq<Seq<Fragment>>, limit: int, mark: int) -> Seq<
    Seq<Seq<Fragment>>,
> {
    breaking(blocks, limit, mark).done.push(breaking(blocks, limit, mark).current)
}

/// The width that the mark of a chorus takes.
pub open spec fn mark_width(chorus: bool) -> int {
    if chorus {
        2
    } else {
        0
    }
}

/// The lines made of the given groups of words.
pub open spec fn lines_with(groups: Seq<Seq<Seq<Fragment>>>, chorus: bool) -> Seq<LineView> {
    Seq::new(groups.len(), |i: int| LineView { blocks: groups[i], chorus })
}

/// A line broken at the width `limit`, whatever its own width.
pub open spec fn line_broken(line: LineView, limit: int) -> Seq<LineView> {
    lines_with(broken(line.blocks, limit, mark_width(line.chorus)), line.chorus)
}

/// A line wrapped to `max_width`: the line itself where it is no wider,
/// else the lines into which it is broken.
pub open spec fn wrapped(line: LineView, max_width: int) -> Seq<LineView> {
    if max_width >= line_width(line) {
        seq![line]
    } else {
        line_broken(line, max_width)
    }
}

/// The words of a sequence of groups, in their order.
pub open spec fn joined(groups: Seq<Seq<Seq<Fragment>>>) -> Seq<Seq<Fragment>>
    decreases groups.len(),
{
    if groups.len() == 0 {
        Seq::empty()
    } else {
        joined(groups.drop_last()) + groups.last()
    }
}

/// The words of a sequence of lines, in their order.
pub open spec fn line_blocks(lines: Seq<LineView>) -> Seq<Seq<Fragment>>
    decreases lines.len(),
{
    if lines.len() == 0 {
        Seq::empty()
    } else {
        line_blocks(lines.drop_last()) + lines.last().blocks
    }
}

/// Breaking keeps every word, whole and in its place: the closed lines and
/// the open one hold the words that were taken, in their order.
pub proof fn lemma_breaking_keeps(blocks: Seq<Seq<Fragment>>, limit: int, mark: int)
    ensures
        joined(breaking(blocks, limit, mark).done) + breaking(blocks, limit, mark).current
            == blocks,
        blocks.len() > 0 ==> breaking(blocks, limit, mark).current.len() > 0,
        forall|i: int|
            0 <= i < breaking(blocks, limit, mark).done.len() ==> (#[trigger] breaking(
                blocks,
                limit,
                mark,
            ).done[i]).len() > 0,
    decreases blocks.len(),
{
    if blocks.len() > 0 {
        let before = breaking(blocks.drop_last(), limit, mark);
        lemma_breaking_keeps(blocks.drop_last(), limit, mark);
        let after = breaking(blocks, limit, mark);
        if before.width + block_width(blocks.last()) + mark < limit {
            assert(joined(after.done) + after.current =~= (joined(before.done)
                + before.current).push(blocks.last()));
        } else {
            if before.current.len() > 0 {
                assert(before.done.push(before.current).drop_last() == before.done);
            } else {
                assert(joined(before.done) + before.current =~= joined(before.done));
            }
            assert(joined(after.done) + after.current =~= (joined(before.done)
                + before.current).push(blocks.last()));
        }
        assert(blocks.drop_last().push(blocks.last()) == blocks);
    } else {
        assert(joined(Seq::<Seq<Seq<Fragment>>>::empty()) + Seq::<Seq<Fragment>>::empty()
            =~= blocks);
    }
}

/// The words of the lines made of some groups are the words of the groups.
pub proof fn lemma_lines_with_blocks(groups: Seq<Seq<Seq<Fragment>>>, chorus: bool)
    ensures
        line_blocks(lines_with(groups, chorus)) == joined(groups),
    decreases groups.len(),
{
    if groups.len() > 0 {
        lemma_lines_with_blocks(groups.drop_last(), chorus);
        assert(lines_with(groups, chorus).drop_last() =~= lines_with(groups.drop_last(), chorus));
    }
}

/// No word is split or lost when a line is broken: the lines that come out
/// hold the words of the line, each whole, once, and in their order; each
/// keeps the line's place in or out of the chorus; and none is empty unless
/// the line itself is.
pub proof fn lemma_line_broken_keeps(line: LineView, limit: int)
    ensures
        line_blocks(line_broken(line, limit)) == line.blocks,
        forall|i: int|
            0 <= i < line_broken(line, limit).len() ==> (#[trigger] line_broken(
                line,
                limit,
            )[i]).chorus == line.chorus,
        line.blocks.len() > 0 ==> forall|i: int|
            0 <= i < line_broken(line, limit).len() ==> (#[trigger] line_broken(
                line,
                limit,
            )[i]).blocks.len() > 0,
{
    let mark = mark_width(line.chorus);
    let b = breaking(line.blocks, limit, mark);
    lemma_breaking_keeps(line.blocks, limit, mark);
    lemma_lines_with_blocks(broken(line.blocks, limit, mark), line.chorus);
    assert(b.done.push(b.current).drop_last() == b.done);
}

/// No word is split or lost when a line is wrapped.
pub proof fn lemma_wrapped_keeps(line: LineView, max_width: int)
    ensures
        line_blocks(wrapped(line, max_width)) == line.blocks,
{
    if max_width >= line_width(line) {
        let one = seq![line];
        assert(one.drop_last() == Seq::<LineView>::empty());
        assert(line_blocks(one.drop_last()) == Seq::<Seq<Fragment>>::empty());
        assert(one.last() == line);
        assert(line_blocks(one) =~= line.blocks);
    } else {
        lemma_line_broken_keeps(line, max_width);
    }
}

impl SongLine {
    /// Breaks the line into lines whose words have widths that stay, with
    /// the mark of a chorus, below `limit`. A word is never split: one that
    /// is too wide stands alone in its line.
    pub fn break_at(&self, limit: usize) -> (r: Vec<SongLine>)
        ensures
            r.deep_view() == line_broken(self@, limit as int),
    {
        let mark: usize = if self.chorus {
            2
        } else {
            0
        };
        let mut lines: Vec<SongLine> = Vec::new();
        let mut current: Vec<SongBlock> = Vec::new();
        let mut total: Option<usize> = Some(0);
        let mut i: usize = 0;
        let ghost blocks = self@.blocks;
        let ghost chorus = self@.chorus;
        proof {
            assert(blocks.take(0) == Seq::<Seq<Fragment>>::empty());
            assert(lines.deep_view() =~= lines_with(Seq::empty(), chorus));
            assert(current.deep_view() =~= Seq::<Seq<Fragment>>::empty());
        }
        while i < self.blocks.len()
            invariant
                i <= self.blocks.len(),
                blocks == self@.blocks,
                chorus == self.chorus,
                mark == mark_width(chorus),
                blocks.len() == self.blocks.len(),
                lines.deep_view() == lines_with(
                    breaking(blocks.take(i as int), limit as int, mark as int).done,
                    chorus,
                ),
                current.deep_view() == breaking(
                    blocks.take(i as int),
                    limit as int,
                    mark as int,
                ).current,
                match total {
                    Some(t) => t == breaking(
                        blocks.take(i as int),
                        limit as int,
                        mark as int,
                    ).width,
                    None => breaking(blocks.take(i as int), limit as int, mark as int).width
                        > usize::MAX,
                },
            decreases self.blocks.len() - i,
        {
            let ghost before = breaking(blocks.take(i as int), limit as int, mark as int);
            proof {
                assert(blocks.take(i + 1).drop_last() == blocks.take(i as int));
                assert(blocks[i as int] == self.blocks[i as int]@);
            }
            let block = self.blocks[i].clone();
            let bw = block.measured();
            let sum = match (total, bw) {
                (Some(t), Some(w)) => t.checked_add(w),
                _ => None,
            };
            let room = match sum {
                Some(n) => match n.checked_add(mark) {
                    Some(m) => m < limit,
                    None => false,
                },
                None => false,
            };
            if room {
                let ghost old_current = current;
                current.push(block);
                proof {
                    lemma_deep_push(old_current, current, block);
                }
                total = sum;
            } else {
                if current.len() > 0 {
                    let ghost old_lines = lines;
                    let line = SongLine { blocks: current, chorus: self.chorus };
                    lines.push(line);
                    proof {
                        lemma_deep_push(old_lines, lines, line);
                        assert(lines.deep_view() =~= lines_with(
                            before.done.push(before.current),
                            chorus,
                        ));
                    }
                } else {
                    assert(current.deep_view().len() == current@.len());
                }
                current = Vec::new();
                let ghost empty = current;
                current.push(block);
                proof {
                    lemma_deep_push(empty, current, block);
                    assert(current.deep_view() =~= seq![block@]);
                }
                total = bw;
            }
            i += 1;
        }
        proof {
            assert(blocks.take(i as int) == blocks);
        }
        let ghost end = breaking(blocks, limit as int, mark as int);
        let ghost old_lines = lines;
        let line = SongLine { blocks: current, chorus: self.chorus };
        lines.push(line);
        proof {
            lemma_deep_push(old_lines, lines, line);
            assert(lines.deep_view() =~= lines_with(end.done.push(end.current), chorus));
        }
        lines
    }

    /// Wraps the line to `max_width`: a line that is no wider stays as it
    /// is, a wider one is broken between its words.
    pub fn wrap(&self, max_width: usize) -> (r: Vec<SongLine>)
        ensures
            r.deep_view() == wrapped(self@, max_width as int),
    {
        let narrow = match self.measured() {
            Some(w) => max_width >= w,
            None => false,
        };
        if narrow {
            let mut lines: Vec<SongLine> = Vec::new();
            let ghost empty = lines;
            let line = self.clone();
            lines.push(line);
            proof {
                lemma_deep_push(empty, lines, line);
                assert(lines.deep_view() =~= seq![self@]);
            }
            lines
        } else {
            self.break_at(max_width)
        }
    }
}

/// A chord stands above the lyrics that follow it. Once a chord is set, the
/// row of the lyrics is as long as the longer of the two rows was, and the
/// chord begins in the row of the chords at that very length. The row that
/// was shorter has been filled up: the row of the chords with spaces, the
/// row of the lyrics with the filler.
pub proof fn lemma_chord_stands_above(rows: Rows, chord: Seq<char>)
    ensures
        row_width(place(rows, Fragment::Chord(chord)).text) == rows_width(rows),
        row_width(place(rows, Fragment::Chord(chord)).chords) == rows_width(rows) + chord.len()
            + 1,
        place(rows, Fragment::Chord(chord)).chords.last() == (SpanView {
            text: chord.push(' '),
            style: Style::Chord,
        }),
        row_width(place(rows, Fragment::Chord(chord)).chords.drop_last()) == rows_width(rows),
        row_width(rows.text) > row_width(rows.chords) ==> place(
            rows,
            Fragment::Chord(chord),
        ).chords.drop_last() == rows.chords.push(
            plain_span(repeated(' ', row_width(rows.text) - row_width(rows.chords))),
        ) && place(rows, Fragment::Chord(chord)).text == rows.text,
        row_width(rows.text) < row_width(rows.chords) ==> place(
            rows,
            Fragment::Chord(chord),
        ).text == rows.text.push(
            plain_span(
                repeated(
                    filler(row_last(rows.text)),
                    row_width(rows.chords) - row_width(rows.text),
                ),
            ),
        ) && place(rows, Fragment::Chord(chord)).chords.drop_last() == rows.chords,
        row_width(rows.text) == row_width(rows.chords) ==> place(
            rows,
            Fragment::Chord(chord),
        ).text == rows.text && place(rows, Fragment::Chord(chord)).chords.drop_last()
            == rows.chords,
{
    let tw = row_width(rows.text);
    let cw = row_width(rows.chords);
    lemma_row_push(rows.text, plain_span(repeated(filler(row_last(rows.text)), cw - tw)));
    lemma_row_push(rows.chords, plain_span(repeated(' ', tw - cw)));
    let chords = if tw > cw {
        rows.chords.push(plain_span(repeated(' ', tw - cw)))
    } else {
        rows.chords
    };
    let span = SpanView { text: chord.push(' '), style: Style::Chord };
    lemma_row_push(chords, span);
    assert(chords.push(span).drop_last() == chords);
}

/// A line without words is shown as one empty row, whether or not it
/// belongs to a chorus.
pub proof fn lemma_empty_line(chorus: bool)
    ensures
        line_height(LineView { blocks: Seq::empty(), chorus }) == 1,
        line_width(LineView { blocks: Seq::empty(), chorus }) == 0,
        line_rows(LineView { blocks: Seq::empty(), chorus }) == seq![Seq::<SpanView>::empty()],
{
}

/// The pieces of some words, in their order.
pub open spec fn pieces_of(blocks: Seq<Seq<Fragment>>) -> Seq<Fragment>
    decreases blocks.len(),
{
    if blocks.len() == 0 {
        Seq::empty()
    } else {
        pieces_of(blocks.drop_last()) + blocks.last()
    }
}

/// The text of a piece.
pub open spec fn fragment_text(f: Fragment) -> Seq<char> {
    match f {
        Fragment::Chord(t) => t,
        Fragment::Text(t) => t,
        Fragment::Comment(t) => t,
        Fragment::Title(t) => t,
    }
}

/// The column at which the span `i` of a row begins: the length of the
/// spans before it.
pub open spec fn span_start(row: Seq<SpanView>, i: int) -> nat {
    row_width(row.take(i))
}

/// The number of spans that the mark of a chorus puts in front of the rows
/// of a line.
pub open spec fn mark_spans(line: LineView) -> int {
    if line_marked(line) {
        1
    } else {
        0
    }
}

/// The rows after the first `k` pieces of a line.
pub open spec fn laid_until(line: LineView, k: int) -> Rows {
    lay_block(no_rows(), pieces_of(line.blocks).take(k))
}

/// The place, in the row of the chords of a line, of the span of the chord
/// that is the piece `k` of the line.
pub open spec fn chord_span(line: LineView, k: int) -> int {
    mark_spans(line) + laid_until(line, k + 1).chords.len() - 1
}

/// The place, in the row of the lyrics of a line, of the span that follows
/// the chord that is the piece `k` of the line.
pub open spec fn lyric_span(line: LineView, k: int) -> int {
    mark_spans(line) + laid_until(line, k + 1).text.len()
}

/// Setting pieces one run after the other is setting them all.
proof fn lemma_lay_block_add(rows: Rows, a: Seq<Fragment>, b: Seq<Fragment>)
    ensures
        lay_block(rows, a + b) == lay_block(lay_block(rows, a), b),
    decreases b.len(),
{
    if b.len() == 0 {
        assert(a + b =~= a);
    } else {
        lemma_lay_block_add(rows, a, b.drop_last());
        assert((a + b).drop_last() =~= a + b.drop_last());
        assert((a + b).last() == b.last());
    }
}

/// Setting the words of a line is setting its pieces.
pub proof fn lemma_lay_pieces(rows: Rows, blocks: Seq<Seq<Fragment>>)
    ensures
        lay_blocks(rows, blocks) == lay_block(rows, pieces_of(blocks)),
    decreases blocks.len(),
{
    if blocks.len() > 0 {
        lemma_lay_pieces(rows, blocks.drop_last());
        lemma_lay_block_add(rows, pieces_of(blocks.drop_last()), blocks.last());
    }
}

/// Whether the row `a` is the beginning of the row `b`.
pub open spec fn begins(a: Seq<SpanView>, b: Seq<SpanView>) -> bool {
    a.len() <= b.len() && forall|i: int| 0 <= i < a.len() ==> a[i] == b[i]
}

/// Setting more pieces adds spans at the ends of the rows and changes none
/// that is set: the rows after the first `k` pieces are the beginnings of
/// the rows after all of them.
pub proof fn lemma_rows_begin(rows: Rows, block: Seq<Fragment>, k: int)
    requires
        0 <= k <= block.len(),
    ensures
        begins(lay_block(rows, block.take(k)).chords, lay_block(rows, block).chords),
        begins(lay_block(rows, block.take(k)).text, lay_block(rows, block).text),
    decreases block.len() - k,
{
    if k < block.len() {
        lemma_rows_begin(rows, block, k + 1);
        assert(block.take(k + 1).drop_last() == block.take(k));
    } else {
        assert(block.take(k) == block);
    }
}

/// A row behind one more span is longer by that span's text.
proof fn lemma_row_front(span: SpanView, row: Seq<SpanView>)
    ensures
        row_width(seq![span] + row) == span.text.len() + row_width(row),
    decreases row.len(),
{
    let all = seq![span] + row;
    if row.len() == 0 {
        assert(all.drop_last() =~= Seq::<SpanView>::empty());
        assert(row_width(all.drop_last()) == 0);
    } else {
        lemma_row_front(span, row.drop_last());
        assert(all.drop_last() =~= seq![span] + row.drop_last());
        assert(all.last() == row.last());
    }
}

/// The column at which a span of a row of a line begins, given the column
/// at which it begins before the mark of a chorus is put in front.
proof fn lemma_marked_start(line: LineView, row: Seq<SpanView>, i: int)
    requires
        0 <= i <= row.len(),
    ensures
        span_start(marked_row(line, row), mark_spans(line) + i) == row_width(row.take(i)) + 2
            * mark_spans(line),
{
    if line_marked(line) {
        assert((seq![chorus_mark()] + row).take(1 + i) =~= seq![chorus_mark()] + row.take(i));
        lemma_row_front(chorus_mark(), row.take(i));
    }
}

/// In the rows of a line, every chord stands above the lyrics that follow
/// it. For every chord of the line: the line has a row of chords above the
/// row of its lyrics; the chord's span holds the chord and one space; and
/// it begins at the column at which, in the row of the lyrics, the span
/// begins that follows the chord. Where the piece next to the chord is
/// lyrics, a comment or a heading, that span holds its text.
pub proof fn lemma_chords_stand_above(line: LineView, k: int)
    requires
        0 <= k < pieces_of(line.blocks).len(),
        pieces_of(line.blocks)[k] is Chord,
    ensures
        line_rows(line).len() == 2,
        0 <= chord_span(line, k) < line_rows(line)[0].len(),
        line_rows(line)[0][chord_span(line, k)] == (SpanView {
            text: fragment_text(pieces_of(line.blocks)[k]).push(' '),
            style: Style::Chord,
        }),
        0 <= lyric_span(line, k) <= line_rows(line)[1].len(),
        span_start(line_rows(line)[0], chord_span(line, k)) == span_start(
            line_rows(line)[1],
            lyric_span(line, k),
        ),
        k + 1 < pieces_of(line.blocks).len() && !(pieces_of(line.blocks)[k + 1] is Chord)
            ==> lyric_span(line, k) < line_rows(line)[1].len() && line_rows(line)[1][lyric_span(
            line,
            k,
        )].text == fragment_text(pieces_of(line.blocks)[k + 1]),
{
    let fs = pieces_of(line.blocks);
    let fin = line_laid(line);
    lemma_lay_pieces(no_rows(), line.blocks);
    let before = laid_until(line, k);
    let set = laid_until(line, k + 1);
    assert(fs.take(k + 1).drop_last() == fs.take(k));
    assert(fs.take(k + 1).last() == fs[k]);
    let chord = fragment_text(fs[k]);
    assert(fs[k] == Fragment::Chord(chord));
    lemma_chord_stands_above(before, chord);
    lemma_rows_begin(no_rows(), fs, k + 1);
    let n = set.chords.len() as int;
    assert(set.chords.last() == set.chords[n - 1]);
    assert(fin.chords.take(n - 1) =~= set.chords.drop_last());
    assert(fin.text.take(set.text.len() as int) =~= set.text);
    lemma_marked_start(line, fin.chords, n - 1);
    lemma_marked_start(line, fin.text, set.text.len() as int);
    if k + 1 < fs.len() && !(fs[k + 1] is Chord) {
        let next = laid_until(line, k + 2);
        assert(fs.take(k + 2).drop_last() == fs.take(k + 1));
        assert(fs.take(k + 2).last() == fs[k + 1]);
        lemma_rows_begin(no_rows(), fs, k + 2);
        assert(next.text.len() == set.text.len() + 1);
        assert(next.text[set.text.len() as int].text == fragment_text(fs[k + 1]));
    }
}

/// The chords of a line keep their order: of two chords of the line, the
/// span of the earlier stands before the span of the later in the row of
/// the chords.
pub proof fn lemma_chords_keep_order(line: LineView, j: int, k: int)
    requires
        0 <= j < k < pieces_of(line.blocks).len(),
        pieces_of(line.blocks)[j] is Chord,
        pieces_of(line.blocks)[k] is Chord,
    ensures
        chord_span(line, j) < chord_span(line, k),
{
    let fs = pieces_of(line.blocks);
    let upto = fs.take(k);
    assert(upto.take(j + 1) =~= fs.take(j + 1));
    lemma_rows_begin(no_rows(), upto, j + 1);
    assert(fs.take(k + 1).drop_last() == fs.take(k));
    assert(fs.take(k + 1).last() == fs[k]);
    lemma_chord_stands_above(laid_until(line, k), fragment_text(fs[k]));
    assert(fs[k] == Fragment::Chord(fragment_text(fs[k])));
    let set = laid_until(line, k + 1);
    assert(set.chords.drop_last().len() == set.chords.len() - 1);
}

} // verus!
