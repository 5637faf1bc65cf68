use gpro::line::{repeat_char, SongBlock, SongLine, SongString, Span, Style};
use gpro::parser::Song;

fn row_text(row: &[Span]) -> String {
    row.iter().map(|s| s.text.as_str()).collect()
}

fn rows(line: &SongLine) -> Vec<String> {
    line.format().iter().map(|r| row_text(r)).collect()
}

fn first_line(text: &str) -> SongLine {
    let song = Song::from(text.to_string());
    song.content[0].clone()
}

fn chorus_line(text: &str) -> SongLine {
    let song = Song::from(format!("{{soc}}\n{}", text));
    song.content[0].clone()
}

#[test]
fn chords_stand_above_their_lyrics() {
    let line = first_line("[C]Hello [G]world");
    assert_eq!(rows(&line), vec!["C     G ", "Hello world"]);
    assert_eq!(line.width(), 11);
    assert_eq!(line.height(), 2);
}

#[test]
fn longer_lyrics_pad_the_chord_row() {
    let line = first_line("Once upon a [Am]time");
    assert_eq!(rows(&line), vec!["            Am ", "Once upon a time"]);
    let spans = line.format();
    assert_eq!(spans[0][0], Span { text: " ".repeat(12), style: Style::Plain });
    assert_eq!(spans[0][1], Span { text: "Am ".to_string(), style: Style::Chord });
    assert_eq!(line.width(), 16);
}

#[test]
fn longer_chords_pad_the_lyrics_with_hyphens_inside_a_word() {
    let line = first_line("[Cmaj7]a[Dm7]b");
    assert_eq!(rows(&line), vec!["Cmaj7 Dm7 ", "a-----b"]);
    let spans = line.format();
    assert_eq!(spans[1][1], Span { text: "-----".to_string(), style: Style::Plain });
    assert_eq!(line.width(), 10);
}

#[test]
fn longer_chords_pad_the_lyrics_with_spaces_between_words() {
    let line = first_line("[Cmaj7]a [Dm7]b");
    assert_eq!(rows(&line), vec!["Cmaj7 Dm7 ", "a     b"]);
    let line = first_line("[Cmaj7]a,[Dm7]b");
    assert_eq!(rows(&line), vec!["Cmaj7 Dm7 ", "a,    b"]);
    let line = first_line("[Cmaj7]a.[Dm7]b");
    assert_eq!(rows(&line), vec!["Cmaj7 Dm7 ", "a.    b"]);
    let line = first_line("[Cmaj7]a:[Dm7]b");
    assert_eq!(rows(&line), vec!["Cmaj7 Dm7 ", "a:    b"]);
    let line = first_line("[Cmaj7]a;[Dm7]b");
    assert_eq!(rows(&line), vec!["Cmaj7 Dm7 ", "a;    b"]);
    let line = first_line("[Cmaj7]a![Dm7]b");
    assert_eq!(rows(&line), vec!["Cmaj7 Dm7 ", "a!----b"]);
    let line = first_line("[Cmaj7]a\t[Dm7]b");
    assert_eq!(rows(&line), vec!["Cmaj7 Dm7 ", "a\t    b"]);
}

#[test]
fn chords_without_lyrics_are_filled_with_spaces() {
    let line = first_line("[C][G][Am]");
    assert_eq!(rows(&line), vec!["C G Am ", "    "]);
    assert_eq!(line.width(), 7);
    let line = first_line("[C] [G] [Am]");
    assert_eq!(rows(&line), vec!["C G Am ", "    "]);
}

#[test]
fn line_without_chords_has_one_row() {
    let line = first_line("just words here");
    assert_eq!(rows(&line), vec!["just words here"]);
    assert_eq!(line.height(), 1);
    assert_eq!(line.width(), 15);
    let spans = line.format();
    assert_eq!(spans[0].len(), 3);
    assert_eq!(spans[0][0], Span { text: "just ".to_string(), style: Style::Plain });
}

#[test]
fn empty_line_has_one_empty_row() {
    let line = SongLine::from(vec![], false);
    assert_eq!(line.format(), vec![Vec::<Span>::new()]);
    assert_eq!(line.height(), 1);
    assert_eq!(line.width(), 0);
    assert!(line.fits());
    let line = SongLine::from(vec![], true);
    assert_eq!(line.format(), vec![Vec::<Span>::new()]);
    assert_eq!(line.width(), 0);
    assert_eq!(SongLine::default(), SongLine::from(vec![], false));
}

#[test]
fn chorus_rows_begin_with_the_mark() {
    let line = chorus_line("[C]la [G]la");
    assert_eq!(rows(&line), vec!["| C  G ", "| la la"]);
    let spans = line.format();
    assert_eq!(spans[0][0], Span { text: "| ".to_string(), style: Style::Comment });
    assert_eq!(spans[1][0], Span { text: "| ".to_string(), style: Style::Comment });
    assert_eq!(line.width(), 7);
    assert_eq!(line.height(), 2);
    let line = chorus_line("la la");
    assert_eq!(rows(&line), vec!["| la la"]);
    assert_eq!(line.width(), 7);
}

#[test]
fn comments_and_headings_keep_their_style() {
    let song = Song::from("{c:Intro} [C]x\n{st:By someone}".to_string());
    let spans = song.content[0].format();
    assert_eq!(spans[1][0], Span { text: "Intro".to_string(), style: Style::Comment });
    assert_eq!(spans[1][1], Span { text: "x".to_string(), style: Style::Plain });
    assert_eq!(spans[0][0], Span { text: "     ".to_string(), style: Style::Plain });
    assert_eq!(spans[0][1], Span { text: "C ".to_string(), style: Style::Chord });
    let spans = song.content[1].format();
    assert_eq!(spans, vec![vec![Span { text: "By someone".to_string(), style: Style::Title }]]);
    assert_eq!(song.content[1].width(), 10);
}

#[test]
fn width_counts_characters_not_bytes() {
    let line = first_line("[C]h\u{e9}llo w\u{f6}rld");
    assert_eq!(line.width(), 11);
    assert_eq!(rows(&line), vec!["C ", "h\u{e9}llo w\u{f6}rld"]);
    let block = SongBlock::from("\u{4f60}\u{597d}", 0);
    assert_eq!(block.width(), 2);
}

#[test]
fn block_width_is_that_of_the_word_alone() {
    assert_eq!(SongBlock::from("[C]Hello ", 0).width(), 6);
    assert_eq!(SongBlock::from("[Cmaj7]a ", 0).width(), 6);
    assert_eq!(SongBlock::from("Hal[C]le[G]lujah", 0).width(), 10);
    assert_eq!(SongBlock::from("", 0).width(), 0);
    assert_eq!(SongBlock::from("[]", 0).width(), 1);
    assert_eq!(SongBlock::from_comment("note ").width(), 5);
    assert_eq!(SongBlock::from("[C]Hello ", 0).measured(), Some(6));
    assert_eq!(
        SongBlock::new(vec![
            SongString::Text("ab".to_string()),
            SongString::Chord("C".to_string()),
            SongString::Chord("D".to_string()),
            SongString::Text("x".to_string()),
        ])
        .width(),
        6
    );
}

#[test]
fn filler_after_a_filled_gap_is_a_space_or_a_hyphen() {
    let line = first_line("[C]a[D][E]b");
    assert_eq!(rows(&line), vec!["C D E ", "a---b"]);
    let line = first_line("[C][D]b");
    assert_eq!(rows(&line), vec!["C D ", "  b"]);
}

#[test]
fn repeat_char_repeats() {
    assert_eq!(repeat_char('-', 0), "");
    assert_eq!(repeat_char('-', 3), "---");
    assert_eq!(repeat_char(' ', 5), "     ");
}

#[test]
fn format_is_the_same_each_time() {
    let line = first_line("[C]Hello [G]wonderful [Am]world");
    assert_eq!(line.format(), line.format());
    assert_eq!(line.clone(), line);
    assert_eq!(line.clone().format(), line.format());
}

fn rows_by_hand(pieces: &[SongString], chorus: bool) -> Vec<String> {
    let mut chords = String::new();
    let mut text = String::new();
    let mut has_chords = false;
    for piece in pieces {
        match piece {
            SongString::Chord(c) => {
                has_chords = true;
                let tw = text.chars().count();
                let cw = chords.chars().count();
                if tw < cw {
                    let fill = match text.chars().last() {
                        Some(l) if !(l.is_whitespace() || ",.:;".contains(l)) => '-',
                        _ => ' ',
                    };
                    for _ in tw..cw {
                        text.push(fill);
                    }
                } else {
                    for _ in cw..tw {
                        chords.push(' ');
                    }
                }
                chords.push_str(c);
                chords.push(' ');
            }
            SongString::Text(t) | SongString::Comment(t) | SongString::Title(t) => {
                text.push_str(t)
            }
        }
    }
    if chorus && (!text.is_empty() || !chords.is_empty()) {
        text.insert_str(0, "| ");
        chords.insert_str(0, "| ");
    }
    if has_chords {
        vec![chords, text]
    } else {
        vec![text]
    }
}

#[test]
fn rows_are_those_set_by_hand() {
    let pieces = [
        SongString::Text("ab".to_string()),
        SongString::Text("".to_string()),
        SongString::Text("x ".to_string()),
        SongString::Text("y,".to_string()),
        SongString::Comment("note".to_string()),
        SongString::Chord("C".to_string()),
        SongString::Chord("Gmaj7".to_string()),
        SongString::Chord("".to_string()),
    ];
    let mut lines: Vec<Vec<SongString>> = vec![vec![]];
    let mut last: Vec<Vec<SongString>> = vec![vec![]];
    for _ in 0..4 {
        let mut next = Vec::new();
        for line in &last {
            for p in &pieces {
                let mut l = line.clone();
                l.push(p.clone());
                next.push(l);
            }
        }
        lines.extend(next.iter().cloned());
        last = next;
    }
    for pieces in &lines {
        for chorus in [false, true] {
            for split in 0..=pieces.len() {
                let blocks = vec![
                    SongBlock::new(pieces[..split].to_vec()),
                    SongBlock::new(pieces[split..].to_vec()),
                ];
                let line = SongLine::from(blocks, chorus);
                let expected = rows_by_hand(pieces, chorus);
                assert_eq!(rows(&line), expected, "{:?}", pieces);
                assert_eq!(line.height(), expected.len());
                let width = expected.iter().map(|r| r.chars().count()).max().unwrap();
                assert_eq!(line.width(), width);
                assert_eq!(line.measured(), Some(width));
                assert!(line.fits());
            }
        }
    }
}

#[test]
fn every_chord_begins_where_its_lyrics_begin() {
    let line = first_line("[C]Amazing [F]grace, how [C]sweet the [G7]sound");
    let spans = line.format();
    let mut column = 0;
    let mut starts = Vec::new();
    for span in &spans[0] {
        if span.style == Style::Chord {
            starts.push(column);
        }
        column += span.text.chars().count();
    }
    let text: String = spans[1].iter().map(|s| s.text.as_str()).collect();
    assert_eq!(starts, vec![0, 8, 19, 29]);
    assert_eq!(&text[0..7], "Amazing");
    assert_eq!(&text[8..14], "grace,");
    assert_eq!(&text[19..24], "sweet");
    assert_eq!(&text[29..34], "sound");
}

#[test]
fn chords_begin_at_the_start_of_a_lyric_span() {
    let pieces = [
        SongString::Text("ab".to_string()),
        SongString::Text("x ".to_string()),
        SongString::Comment("note".to_string()),
        SongString::Chord("C".to_string()),
        SongString::Chord("Gmaj7".to_string()),
    ];
    let mut lines: Vec<Vec<SongString>> = vec![vec![]];
    let mut last: Vec<Vec<SongString>> = vec![vec![]];
    for _ in 0..5 {
        let mut next = Vec::new();
        for line in &last {
            for p in &pieces {
                let mut l = line.clone();
                l.push(p.clone());
                next.push(l);
            }
        }
        lines.extend(next.iter().cloned());
        last = next;
    }
    for pieces in &lines {
        for chorus in [false, true] {
            let line = SongLine::from(vec![SongBlock::new(pieces.clone())], chorus);
            let rows = line.format();
            let chords: Vec<&String> = pieces
                .iter()
                .filter_map(|p| match p {
                    SongString::Chord(c) => Some(c),
                    _ => None,
                })
                .collect();
            if chords.is_empty() {
                assert_eq!(rows.len(), 1);
                continue;
            }
            assert_eq!(rows.len(), 2);
            let mut starts = vec![0];
            let mut column = 0;
            for span in &rows[1] {
                column += span.text.chars().count();
                starts.push(column);
            }
            let mut column = 0;
            let mut seen = Vec::new();
            for span in &rows[0] {
                if span.style == Style::Chord {
                    assert!(starts.contains(&column), "{:?}", pieces);
                    assert!(span.text.ends_with(' '));
                    seen.push(span.text[..span.text.len() - 1].to_string());
                }
                column += span.text.chars().count();
            }
            let expected: Vec<String> = chords.iter().map(|c| c.to_string()).collect();
            assert_eq!(seen, expected);
        }
    }
}
