use gpro::markup::{classify, split_marks, split_tag, split_words, transpose_chord, Directive, Mark, Piece};
use gpro::parser::split_forced_key;
use gpro::pitch::PitchClass;
use gpro::text::{chars_of, collapse_range, parse_number, split_lines, string_of, trim, white};
use regex::Regex;

fn chars(s: &str) -> Vec<char> {
    s.chars().collect()
}

fn text(v: &[char]) -> String {
    v.iter().collect()
}

fn all_texts(alphabet: &[char], max_len: usize) -> Vec<String> {
    let mut out = vec![String::new()];
    let mut last = vec![String::new()];
    for _ in 0..max_len {
        let mut next = Vec::new();
        for s in &last {
            for c in alphabet {
                let mut t = s.clone();
                t.push(*c);
                next.push(t);
            }
        }
        out.extend(next.iter().cloned());
        last = next;
    }
    out
}

fn split_keep(re: &Regex, s: &str) -> Vec<(bool, String)> {
    let mut out = Vec::new();
    let mut last = 0;
    for m in re.find_iter(s) {
        if m.start() != last {
            out.push((false, s[last..m.start()].to_string()));
        }
        out.push((true, m.as_str().to_string()));
        last = m.end();
    }
    if last < s.len() {
        out.push((false, s[last..].to_string()));
    }
    out
}

fn pieces(s: &str, m: Mark, open: char, close: char) -> Vec<(bool, String)> {
    split_marks(&chars(s), m)
        .iter()
        .map(|p| match p {
            Piece::Plain(t) => (false, text(t)),
            Piece::Marked(t) => (true, format!("{}{}{}", open, text(t), close)),
        })
        .collect()
}

#[test]
fn chords_are_found_like_the_bracket_pattern() {
    let re = Regex::new(r"\[([^\n\[\]]*)\]").unwrap();
    for s in all_texts(&['[', ']', 'a', ' '], 7) {
        assert_eq!(pieces(&s, Mark::Chord, '[', ']'), split_keep(&re, &s), "{:?}", s);
    }
}

#[test]
fn tags_are_found_like_the_brace_pattern() {
    let re = Regex::new(r"\{([^\{\}\n]+?)(?::([^\{\}\n]+))?\}").unwrap();
    for s in all_texts(&['{', '}', ':', 'a'], 7) {
        if s.contains("{:") {
            continue;
        }
        assert_eq!(pieces(&s, Mark::Tag, '{', '}'), split_keep(&re, &s), "{:?}", s);
    }
}

#[test]
fn tags_without_a_name_are_text() {
    for s in ["{:a}", "{:}", "{::a}", "x{:a}y", "{}"] {
        assert_eq!(pieces(s, Mark::Tag, '{', '}'), vec![(false, s.to_string())]);
    }
    assert_eq!(
        pieces("{:a}{b}", Mark::Tag, '{', '}'),
        vec![(false, "{:a}".to_string()), (true, "{b}".to_string())]
    );
}

#[test]
fn tag_names_and_values_are_parted_like_the_brace_pattern() {
    let re = Regex::new(r"^\{([^\{\}\n]+?)(?::([^\{\}\n]+))?\}$").unwrap();
    for s in all_texts(&[':', 'a', 'b', ' '], 6) {
        if s.is_empty() || s.starts_with(':') {
            continue;
        }
        let tag = format!("{{{}}}", s);
        let cap = re.captures(&tag).unwrap();
        let name = cap.get(1).unwrap().as_str();
        let value = cap.get(2).map(|m| m.as_str()).unwrap_or("");
        let (n, v) = split_tag(&chars(&s));
        assert_eq!((text(&n), text(&v)), (name.to_string(), value.to_string()), "{:?}", s);
    }
}

#[test]
fn words_are_found_like_the_block_pattern() {
    let re = Regex::new(r"[^ \n]+ *").unwrap();
    for s in all_texts(&[' ', 'a', '['], 8) {
        let expected: Vec<String> = re.find_iter(&s).map(|m| m.as_str().to_string()).collect();
        let found: Vec<String> = split_words(&chars(&s)).iter().map(|w| text(w)).collect();
        assert_eq!(found, expected, "{:?}", s);
    }
}

#[test]
fn other_white_space_parts_words_too() {
    let found: Vec<String> = split_words(&chars("a\tb \u{a0}c")).iter().map(|w| text(w)).collect();
    assert_eq!(found, vec!["a\t", "b \u{a0}", "c"]);
}

#[test]
fn runs_of_spaces_collapse_like_the_space_pattern() {
    let re = Regex::new(r" +").unwrap();
    for s in all_texts(&[' ', 'a', '\t'], 8) {
        let v = chars(&s);
        assert_eq!(text(&collapse_range(&v, 0, v.len())), re.replace_all(&s, " "), "{:?}", s);
    }
}

#[test]
fn lines_are_split_at_every_break() {
    for s in all_texts(&['\n', '\r', 'a'], 7) {
        if s.contains("\n\r") {
            continue;
        }
        let re = Regex::new(r"(\n\r?|\r\n?)").unwrap();
        let normal = re.replace_all(&s, "\n");
        let expected: Vec<String> = normal.lines().map(|l| l.to_string()).collect();
        let found: Vec<String> =
            split_lines(&chars(&s), false).iter().map(|l| text(l)).collect();
        assert_eq!(found, expected, "{:?}", s);
    }
}

#[test]
fn root_notes_are_moved_like_the_root_pattern() {
    let re = Regex::new(r"[ABCDEFG][b#]?").unwrap();
    for s in all_texts(&['A', 'G', 'b', '#', 'm', '/'], 5) {
        for n in [-14, -1, 0, 1, 5, 12] {
            let expected = re.replace_all(&s, |caps: &regex::Captures| {
                PitchClass::from_name(caps.get(0).unwrap().as_str())
                    .unwrap()
                    .transposed_by(n)
                    .name()
            });
            assert_eq!(transpose_chord(&chars(&s), n), expected, "{:?} by {}", s, n);
        }
    }
}

#[test]
fn chord_text_without_root_stays() {
    for s in ["", "m7", "sus4", "x/y", "#b", "maj7#11", "abcdefg", "\u{266f}", "N.c.", "7(b9)"] {
        for n in [-3, 0, 1, 12, 100] {
            assert_eq!(transpose_chord(&chars(s), n), s);
        }
    }
}

#[test]
fn key_annotations_are_found_like_the_key_pattern() {
    let re = Regex::new(r" \[([ABCDEFG][b#]?)\]").unwrap();
    for s in all_texts(&[' ', '[', ']', 'D', '#', 'x'], 6) {
        let expected = re.captures(&s).map(|cap| {
            (
                re.replace(&s, "").to_string(),
                PitchClass::from_name(cap.get(1).unwrap().as_str()).unwrap(),
            )
        });
        assert_eq!(split_forced_key(&s), expected, "{:?}", s);
    }
}

#[test]
fn white_space_is_what_std_calls_white_space() {
    for n in 0..=0x10FFFFu32 {
        if let Some(c) = char::from_u32(n) {
            assert_eq!(white(c), c.is_whitespace(), "{:x}", n);
        }
    }
}

#[test]
fn trim_is_what_std_trims() {
    for s in all_texts(&[' ', '\t', 'a', '\u{a0}', '\u{3000}'], 6) {
        assert_eq!(text(&trim(&chars(&s))), s.trim(), "{:?}", s);
    }
}

#[test]
fn plain_numbers_are_read() {
    assert_eq!(parse_number(&chars("0")), Some(0));
    assert_eq!(parse_number(&chars("7")), Some(7));
    assert_eq!(parse_number(&chars("007")), Some(7));
    assert_eq!(parse_number(&chars("2147483647")), Some(2147483647));
    assert_eq!(parse_number(&chars("2147483648")), None);
    assert_eq!(parse_number(&chars("00000000000000000000012")), Some(12));
    assert_eq!(parse_number(&chars("99999999999999999999")), None);
    for s in ["", "-1", "+1", " 1", "1 ", "1a", "a", "1.0", "\u{661}"] {
        assert_eq!(parse_number(&chars(s)), None, "{:?}", s);
    }
    for n in 0..2000 {
        assert_eq!(parse_number(&chars(&n.to_string())), Some(n));
    }
}

#[test]
fn strings_and_characters_convert() {
    for s in ["", "abc", "h\u{e9}llo", "\u{4f60}\u{597d} \u{1f3b5}"] {
        let v = chars_of(s);
        assert_eq!(v, chars(s));
        assert_eq!(string_of(&v, 0, v.len()), s);
    }
    let v = chars_of("hello");
    assert_eq!(string_of(&v, 1, 3), "el");
    assert_eq!(string_of(&v, 2, 2), "");
}

#[test]
fn directive_names_are_known() {
    let known = [
        ("t", Directive::Title),
        ("title", Directive::Title),
        ("st", Directive::Subtitle),
        ("subtitle", Directive::Subtitle),
        ("key", Directive::Key),
        ("Capo-Bass_Guitar", Directive::Capo),
        ("c", Directive::Comment),
        ("soc", Directive::ChorusStart),
        ("start_of_chorus", Directive::ChorusStart),
        ("eoc", Directive::ChorusEnd),
        ("end_of_chorus", Directive::ChorusEnd),
        ("soh", Directive::HeaderStart),
        ("eoh", Directive::HeaderEnd),
    ];
    for (name, d) in known {
        assert_eq!(classify(&chars(name)), d, "{}", name);
        assert_eq!(classify(&chars(&name.to_uppercase())), d, "{}", name);
        assert_eq!(classify(&chars(&name.to_lowercase())), d, "{}", name);
        assert_eq!(classify(&chars(&format!("{} ", name))), Directive::Other);
        assert_eq!(classify(&chars(&format!("{}x", name))), Directive::Other);
    }
    for name in ["", "capo", "comment", "tag", "tag:", "ti", "t\u{130}tle", "\u{212a}ey", "so\u{63}\u{301}"] {
        assert_eq!(classify(&chars(name)), Directive::Other, "{:?}", name);
    }
}
