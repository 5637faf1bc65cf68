use gpro::line::{SongBlock, SongLine, SongString};
use gpro::parser::{split_forced_key, Playlist, Song};
use gpro::pitch::PitchClass;

fn show_block(block: &SongBlock) -> String {
    let mut out = String::new();
    for s in block.strings() {
        match s {
            SongString::Chord(c) => out.push_str(&format!("[{}]", c)),
            SongString::Text(t) => out.push_str(t),
            SongString::Comment(c) => out.push_str(&format!("{{{}}}", c)),
            SongString::Title(t) => out.push_str(&format!("<{}>", t)),
        }
    }
    out
}

fn show_line(line: &SongLine) -> String {
    let blocks: Vec<String> = line.blocks().iter().map(show_block).collect();
    format!("{}{}", if line.chorus() { "*" } else { "" }, blocks.join("|"))
}

fn show(song: &Song) -> Vec<String> {
    song.content.iter().map(show_line).collect()
}

fn parse(text: &str) -> Song {
    Song::from(text.to_string())
}

#[test]
fn title_and_subtitle_are_joined() {
    assert_eq!(
        Song::get_name("{t:Amazing Grace}\n{st:Hymn}\n...", "untitled.txt"),
        "Amazing Grace - Hymn"
    );
}

#[test]
fn missing_title_gives_the_fallback() {
    assert_eq!(Song::get_name("no tags here", "untitled.txt"), "untitled.txt");
}

#[test]
fn name_without_subtitle_is_the_title() {
    assert_eq!(Song::get_name("{title: Yesterday }\n[F]Yesterday", "x"), "Yesterday");
    assert_eq!(Song::get_name("{t:A}\n{st: }", "x"), "A");
    assert_eq!(Song::get_name("{t:A}\n{t:B}", "x"), "B");
}

#[test]
fn name_with_subtitle_only_uses_the_fallback() {
    assert_eq!(Song::get_name("{subtitle:Live}", "file.txt"), "file.txt - Live");
}

#[test]
fn name_ignores_other_directives() {
    assert_eq!(Song::get_name("{soc}{t:A}\n{key:C}{st:B}", "x"), "A - B");
    assert_eq!(Song::get_name("{t:A}{st:B}", "x"), "A");
    assert_eq!(Song::get_name("{TITLE:Loud}", "x"), "Loud");
    assert_eq!(Song::get_name("", "x"), "x");
    assert_eq!(Song::get_name("{t}", "x"), "");
}

#[test]
fn name_keeps_runs_of_spaces() {
    assert_eq!(Song::get_name("{t:Amazing   Grace}", "x"), "Amazing   Grace");
    assert_eq!(Song::from("{t:Amazing   Grace}".to_string()).title, "Amazing Grace");
}

#[test]
fn chords_are_moved_to_the_target_key() {
    let song = Song::in_key("{key:C}\n[C]Hello [G]world".to_string(), PitchClass::D);
    assert_eq!(show(&song), vec!["[D]Hello |[A]world"]);
    assert_eq!(song.transposition, 2);
    assert_eq!(song.key, Some(PitchClass::C));
}

#[test]
fn without_target_the_key_is_only_kept() {
    let song = parse("{key:C}\n[C]Hello [G]world\n{key:D}\n[D]again");
    assert_eq!(show(&song), vec!["[C]Hello |[G]world", "[D]again"]);
    assert_eq!(song.transposition, 0);
    assert_eq!(song.key, Some(PitchClass::C));
}

#[test]
fn the_shortest_way_to_the_target_is_taken() {
    let song = Song::in_key("{key:C}\n[C]".to_string(), PitchClass::B);
    assert_eq!(song.transposition, -1);
    assert_eq!(show(&song), vec!["[B]"]);
    let song = Song::in_key("{key:C}\n[C]".to_string(), PitchClass::Fs);
    assert_eq!(song.transposition, 6);
    let song = Song::in_key("{key:C}\n[C]".to_string(), PitchClass::G);
    assert_eq!(song.transposition, -5);
    assert_eq!(show(&song), vec!["[G]"]);
    let song = Song::in_key("{key:Bb}\n[Bb]".to_string(), PitchClass::C);
    assert_eq!(song.transposition, 2);
    assert_eq!(song.key, Some(PitchClass::As));
    assert_eq!(show(&song), vec!["[C]"]);
}

#[test]
fn a_later_key_changes_only_what_follows() {
    let song = Song::in_key("[C]one\n{key:C}\n[C]two\n{key:D}\n[D]three".to_string(), PitchClass::E);
    assert_eq!(show(&song), vec!["[C]one", "[E]two", "[G#]three"]);
    assert_eq!(song.transposition, 6);
    assert_eq!(song.key, Some(PitchClass::C));
}

#[test]
fn a_key_that_is_no_pitch_changes_nothing() {
    let song = Song::in_key("{key:H}\n{key:}\n{key}\n{key:Am}\n[C]x".to_string(), PitchClass::D);
    assert_eq!(song.transposition, 0);
    assert_eq!(song.key, None);
    assert_eq!(show(&song), vec!["[C]x"]);
}

#[test]
fn capo_moves_chords_down() {
    let song = parse("{Capo-Bass_Guitar: 2}\n[D]x [F#m7/A]y");
    assert_eq!(song.transposition, -2);
    assert_eq!(show(&song), vec!["[C]x |[Em7/G]y"]);
}

#[test]
fn capo_that_is_no_plain_number_changes_nothing() {
    for value in ["-2", "+2", "two", "", "2.5", "99999999999", "2 3"] {
        let song = parse(&format!("{{Capo-Bass_Guitar:{}}}\n[D]x", value));
        assert_eq!(song.transposition, 0, "{:?}", value);
        assert_eq!(show(&song), vec!["[D]x"]);
    }
}

#[test]
fn transposition_stays_within_its_range() {
    let song = parse("{Capo-Bass_Guitar:2147483647}\n{Capo-Bass_Guitar:2147483647}\n[C]x");
    assert_eq!(song.transposition, -2147483647);
    let song = Song::in_key(
        "{Capo-Bass_Guitar:2147483647}\n{Capo-Bass_Guitar:1}\n{key:D}\n{Capo-Bass_Guitar:1}\n[C]x"
            .to_string(),
        PitchClass::C,
    );
    assert_eq!(song.transposition, i32::MIN);
}

#[test]
fn directive_names_ignore_case() {
    let song = parse("{Title:One}\n{ST:Two}\n{SOC}\nla\n{Eoc}\nli\n{capo-bass_guitar:1}\n{KEY:E}");
    assert_eq!(song.title, "One");
    assert_eq!(song.subtitle, "Two");
    assert_eq!(song.transposition, -1);
    assert_eq!(song.key, Some(PitchClass::E));
    assert_eq!(show(&song), vec!["<Two>", "*la", "li"]);
}

#[test]
fn title_line_is_not_shown() {
    let song = parse("before {t: The Title } after\nnext");
    assert_eq!(song.title, "The Title");
    assert_eq!(show(&song), vec!["next"]);
}

#[test]
fn subtitle_is_shown_in_its_place() {
    let song = parse("one\n{subtitle: Second }trailing\nthree");
    assert_eq!(song.subtitle, "Second");
    assert_eq!(show(&song), vec!["one", "<Second>", "three"]);
}

#[test]
fn consuming_directives_pass_over_the_rest() {
    let song = parse("a {soc} b\nc {key:D} d\ne {soh} f\ng {eoh} h\ni");
    assert_eq!(show(&song), vec!["*a ", "*c ", "*e ", "*{g }", "*i"]);
}

#[test]
fn comments_stay_on_their_line() {
    let song = parse("{c:Verse 1} [C]sing");
    assert_eq!(show(&song), vec!["{Verse }|{1}|[C]sing"]);
    let song = parse("{c:only}");
    assert_eq!(show(&song), vec!["{only}"]);
    let song = parse("{c}");
    assert_eq!(show(&song), Vec::<String>::new());
}

#[test]
fn chorus_is_marked_until_its_end() {
    let song = parse("a\n{soc}\nb\nc\n{eoc}\nd\n{start_of_chorus}\ne\n{end_of_chorus} f");
    assert_eq!(show(&song), vec!["a", "*b", "*c", "d", "*e", "f"]);
}

#[test]
fn header_text_is_comment() {
    let song = parse("{soh}\nIntro [C] bars\n{eoh}\n[C]sing");
    assert_eq!(show(&song), vec!["{Intro }|{[C] }|{bars}", "[C]sing"]);
}

#[test]
fn unknown_directives_are_passed_over() {
    let song = parse("{foo}\n{bar:baz}x\n{tag:}y");
    assert_eq!(show(&song), vec!["x", "y"]);
}

#[test]
fn blank_lines_are_kept() {
    let song = parse("a\n\nb\n");
    assert_eq!(show(&song), vec!["a", "", "b"]);
    assert_eq!(song.content[1].blocks().len(), 0);
    assert_eq!(song.content[1].height(), 1);
    assert_eq!(song.content[1].width(), 0);
    let song = parse("\n");
    assert_eq!(show(&song), vec![""]);
    let song = parse("");
    assert_eq!(show(&song), Vec::<String>::new());
    let song = parse("   ");
    assert_eq!(show(&song), vec![""]);
}

#[test]
fn all_line_endings_are_read() {
    let song = parse("a\r\nb\rc\nd\r\n\r\ne");
    assert_eq!(show(&song), vec!["a", "b", "c", "d", "", "e"]);
    let song = parse("a\n\rb");
    assert_eq!(show(&song), vec!["a", "", "b"]);
}

#[test]
fn malformed_tags_are_text() {
    let song = parse("{open\n{}\n{:value}\nclose}\n{a{b}c}");
    assert_eq!(show(&song), vec!["{open", "{}", "{:value}", "close}", "{a|c}"]);
}

#[test]
fn tag_values_may_hold_colons() {
    let song = parse("{t:a:b}");
    assert_eq!(song.title, "a:b");
}

#[test]
fn runs_of_spaces_are_collapsed() {
    let song = parse("  one   two  [C]three   ");
    assert_eq!(show(&song), vec!["one |two |[C]three "]);
}

#[test]
fn chords_with_suffixes_keep_them() {
    let song = Song::in_key("{key:C}\n[Cmaj7]a [Dm7b5]b [G/B]c [Bbsus4]d [N.C.]e [x]f []g".to_string(), PitchClass::D);
    assert_eq!(
        show(&song),
        vec!["[Dmaj7]a |[Em7b5]b |[A/C#]c |[Csus4]d |[N.D.]e |[x]f |[]g"]
    );
}

#[test]
fn flats_are_respelled_even_without_transposition() {
    let song = parse("[Bb]a [Eb7]b");
    assert_eq!(show(&song), vec!["[A#]a |[D#7]b"]);
}

#[test]
fn chords_inside_words_split_the_word() {
    let song = parse("Hal[C]le[G]lujah");
    assert_eq!(show(&song), vec!["Hal[C]le[G]lujah"]);
    let strings = song.content[0].blocks()[0].strings();
    assert_eq!(
        strings,
        &vec![
            SongString::Text("Hal".to_string()),
            SongString::Chord("C".to_string()),
            SongString::Text("le".to_string()),
            SongString::Chord("G".to_string()),
            SongString::Text("lujah".to_string()),
        ]
    );
}

#[test]
fn unclosed_brackets_are_text() {
    let song = parse("[C one] [[D] ]x");
    assert_eq!(show(&song), vec!["[C |one] |[[D] |]x"]);
}

#[test]
fn block_from_reads_one_word() {
    assert_eq!(show_block(&SongBlock::from("[C]Hello ", 2)), "[D]Hello ");
    assert_eq!(show_block(&SongBlock::from("plain", 2)), "plain");
    assert_eq!(show_block(&SongBlock::from("", 2)), "");
    assert_eq!(show_block(&SongBlock::from("[G][A]", -2)), "[F][G]");
    assert_eq!(show_block(&SongBlock::from_comment("note ")), "{note }");
    assert_eq!(SongBlock::from("[C]Hello ", 0).strings().len(), 2);
}

#[test]
fn playlist_has_title_and_songs() {
    let list = Playlist::from("Sunday\nAmazing Grace [D]\nYesterday\n".to_string());
    assert_eq!(list.title, "Sunday");
    assert_eq!(list.songs, vec!["Amazing Grace [D]".to_string(), "Yesterday".to_string()]);
    assert_eq!(list.playliststring, "Sunday\nAmazing Grace [D]\nYesterday\n");
    let list = Playlist::from("".to_string());
    assert_eq!(list.title, "");
    assert_eq!(list.songs.len(), 0);
    let list = Playlist::from("Only".to_string());
    assert_eq!(list.title, "Only");
    assert_eq!(list.songs.len(), 0);
}

#[test]
fn forced_key_is_parted_from_the_name() {
    assert_eq!(
        split_forced_key("Amazing Grace [D]"),
        Some(("Amazing Grace".to_string(), PitchClass::D))
    );
    assert_eq!(
        split_forced_key("Song [F#] live [G]"),
        Some(("Song live [G]".to_string(), PitchClass::Fs))
    );
    assert_eq!(split_forced_key("Song [Bb]"), Some(("Song".to_string(), PitchClass::As)));
    assert_eq!(split_forced_key("Song[D]"), None);
    assert_eq!(split_forced_key("Song [H]"), None);
    assert_eq!(split_forced_key("Song [D"), None);
    assert_eq!(split_forced_key("Song [Dm]"), None);
    assert_eq!(split_forced_key(""), None);
    assert_eq!(split_forced_key(" [C]"), Some(("".to_string(), PitchClass::C)));
}

#[test]
fn song_in_forced_key_is_transposed() {
    let (name, key) = split_forced_key("Amazing Grace [D]").unwrap();
    assert_eq!(name, "Amazing Grace");
    let song = Song::in_key("{t:Amazing Grace}\n{key:G}\n[G]Amazing [C]grace".to_string(), key);
    assert_eq!(show(&song), vec!["[D]Amazing |[G]grace"]);
    assert_eq!(song.transposition, -5);
}

#[test]
fn default_song_is_empty() {
    let song = Song::default();
    assert_eq!(song, Song::from(String::new()));
    assert_eq!(song.title, "");
    assert_eq!(song.key, None);
}
