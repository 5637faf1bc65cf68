//! Text as sequences of characters: conversion between strings and character
//! vectors, runs of characters of one class, lines, trimming and numbers.

use vstd::prelude::*;

verus! {

/// Specifies `String::push` of std: the character is appended at the end.
pub assume_specification[ String::push ](s: &mut String, c: char)
    ensures
        final(s)@ == old(s)@.push(c),
;

/// The characters of a string, in order.
pub fn chars_of(s: &str) -> (v: Vec<char>)
    ensures
        v@ == s@,
{
    let mut v: Vec<char> = Vec::new();
    for c in it: s.chars()
        invariant
            v@ == it.seq().take(it.index() as int),
            it.seq() == s@,
    {
        v.push(c);
    }
    v
}

/// The string made of the characters `v[from..to]`.
pub fn string_of(v: &Vec<char>, from: usize, to: usize) -> (s: String)
    requires
        from <= to <= v.len(),
    ensures
        s@ == v@.subrange(from as int, to as int),
{
    let mut s = String::new();
    let mut i: usize = from;
    while i < to
        invariant
            from <= i <= to <= v.len(),
            s@ == v@.subrange(from as int, i as int),
        decreases to - i,
    {
        s.push(v[i]);
        i += 1;
    }
    s
}

/// A copy of the characters `v[from..to]`.
pub fn copy_range(v: &Vec<char>, from: usize, to: usize) -> (r: Vec<char>)
    requires
        from <= to <= v.len(),
    ensures
        r@ == v@.subrange(from as int, to as int),
{
    let mut r: Vec<char> = Vec::new();
    let mut i: usize = from;
    while i < to
        invariant
            from <= i <= to <= v.len(),
            r@ == v@.subrange(from as int, i as int),
        decreases to - i,
    {
        r.push(v[i]);
        i += 1;
    }
    r
}

/// Whether a character has the Unicode property White_Space.
pub open spec fn is_white(c: char) -> bool {
    let n = c as int;
    ||| 0x09 <= n <= 0x0D
    ||| n == 0x20
    ||| n == 0x85
    ||| n == 0xA0
    ||| n == 0x1680
    ||| 0x2000 <= n <= 0x200A
    ||| n == 0x2028
    ||| n == 0x2029
    ||| n == 0x202F
    ||| n == 0x205F
    ||| n == 0x3000
}

/// Whether a character has the Unicode property White_Space.
pub fn white(c: char) -> (r: bool)
    ensures
        r == is_white(c),
{
    let n: u32 = c as u32;
    (0x09 <= n && n <= 0x0D) || n == 0x20 || n == 0x85 || n == 0xA0 || n == 0x1680 || (0x2000 <= n
        && n <= 0x200A) || n == 0x2028 || n == 0x2029 || n == 0x202F || n == 0x205F || n == 0x3000
}

/// The classes of characters that the markup grammar tells apart.
#[derive(Debug, Clone, Copy, PartialEq, Eq, Structural)]
pub enum CharClass {
    /// White space.
    Blank,
    /// Anything but white space.
    Word,
    /// Anything but a line feed or a carriage return.
    Line,
    /// Anything but a curly brace.
    TagText,
    /// Anything but a square bracket.
    ChordText,
    /// Anything but a colon.
    NameText,
}

/// Whether `c` belongs to the class `k`.
pub open spec fn has_class(c: char, k: CharClass) -> bool {
    match k {
        CharClass::Blank => is_white(c),
        CharClass::Word => !is_white(c),
        CharClass::Line => c != '\n' && c != '\r',
        CharClass::TagText => c != '{' && c != '}',
        CharClass::ChordText => c != '[' && c != ']',
        CharClass::NameText => c != ':',
    }
}

/// Whether `c` belongs to the class `k`.
pub fn in_class(c: char, k: CharClass) -> (r: bool)
    ensures
        r == has_class(c, k),
{
    match k {
        CharClass::Blank => white(c),
        CharClass::Word => !white(c),
        CharClass::Line => c != '\n' && c != '\r',
        CharClass::TagText => c != '{' && c != '}',
        CharClass::ChordText => c != '[' && c != ']',
        CharClass::NameText => c != ':',
    }
}

/// The end of the longest run of characters of class `k` that starts at `i`:
/// the first position from `i` on that holds no such character.
pub open spec fn run_end(s: Seq<char>, i: int, k: CharClass) -> int
    decreases s.len() - i,
{
    if 0 <= i < s.len() && has_class(s[i], k) {
        run_end(s, i + 1, k)
    } else {
        i
    }
}

/// A run ends inside the text, holds only characters of its class, and stops
/// at the first character that is not of it.
pub proof fn lemma_run_end(s: Seq<char>, i: int, k: CharClass)
    requires
        0 <= i <= s.len(),
    ensures
        i <= run_end(s, i, k) <= s.len(),
        forall|j: int| i <= j < run_end(s, i, k) ==> has_class(#[trigger] s[j], k),
        run_end(s, i, k) < s.len() ==> !has_class(s[run_end(s, i, k)], k),
    decreases s.len() - i,
{
    if i < s.len() && has_class(s[i], k) {
        lemma_run_end(s, i + 1, k);
    }
}

/// A position that follows only characters of class `k` from `i` on, and
/// holds none, is where the run from `i` ends.
pub proof fn lemma_run_end_is(s: Seq<char>, i: int, j: int, k: CharClass)
    requires
        0 <= i <= j <= s.len(),
        forall|m: int| i <= m < j ==> has_class(#[trigger] s[m], k),
        j < s.len() ==> !has_class(s[j], k),
    ensures
        run_end(s, i, k) == j,
    decreases j - i,
{
    if i < j {
        lemma_run_end_is(s, i + 1, j, k);
    }
}

/// Finds the end of the run of class `k` that starts at `i`.
pub fn scan_run(v: &Vec<char>, i: usize, k: CharClass) -> (j: usize)
    requires
        i <= v.len(),
    ensures
        j == run_end(v@, i as int, k),
        i <= j <= v.len(),
{
    let mut j: usize = i;
    while j < v.len() && in_class(v[j], k)
        invariant
            i <= j <= v.len(),
            run_end(v@, i as int, k) == run_end(v@, j as int, k),
        decreases v.len() - j,
    {
        j += 1;
    }
    j
}

/// The length of the line break at `j`: two for a carriage return followed by
/// a line feed, one for either of them alone.
pub open spec fn break_len(s: Seq<char>, j: int) -> int {
    if j + 1 < s.len() && s[j] == '\r' && s[j + 1] == '\n' {
        2
    } else {
        1
    }
}

/// The lines of the text from position `i` on. A line ends at a line feed, at
/// a carriage return, or at the two together; the break is not part of the
/// line, and no empty line follows the last break.
pub open spec fn lines_from(s: Seq<char>, i: int) -> Seq<Seq<char>>
    decreases s.len() - i,
{
    if 0 <= i < s.len() {
        let j = run_end(s, i, CharClass::Line);
        if i <= j < s.len() {
            seq![s.subrange(i, j)] + lines_from(s, j + break_len(s, j))
        } else {
            seq![s.subrange(i, s.len() as int)]
        }
    } else {
        Seq::empty()
    }
}

/// The lines of a text.
pub open spec fn lines_of(s: Seq<char>) -> Seq<Seq<char>> {
    lines_from(s, 0)
}

/// The text with every space that follows a space left out.
pub open spec fn collapse(s: Seq<char>) -> Seq<char>
    decreases s.len(),
{
    if s.len() == 0 {
        s
    } else if s.len() >= 2 && s[s.len() - 1] == ' ' && s[s.len() - 2] == ' ' {
        collapse(s.drop_last())
    } else {
        collapse(s.drop_last()).push(s.last())
    }
}

/// Copies `v[from..to]`, leaving out every space that follows a space.
pub fn collapse_range(v: &Vec<char>, from: usize, to: usize) -> (r: Vec<char>)
    requires
        from <= to <= v.len(),
    ensures
        r@ == collapse(v@.subrange(from as int, to as int)),
{
    let mut r: Vec<char> = Vec::new();
    let mut i: usize = from;
    while i < to
        invariant
            from <= i <= to <= v.len(),
            r@ == collapse(v@.subrange(from as int, i as int)),
        decreases to - i,
    {
        proof {
            let next = v@.subrange(from as int, i + 1);
            assert(next.drop_last() == v@.subrange(from as int, i as int));
        }
        if !(i > from && v[i] == ' ' && v[i - 1] == ' ') {
            r.push(v[i]);
        }
        i += 1;
    }
    r
}

/// A line as it is read: with its runs of spaces collapsed where `squeeze`
/// is set, as it stands where not.
pub open spec fn tidy(line: Seq<char>, squeeze: bool) -> Seq<char> {
    if squeeze {
        collapse(line)
    } else {
        line
    }
}

/// The lines of a text, each made tidy.
pub open spec fn tidy_lines(s: Seq<char>, squeeze: bool) -> Seq<Seq<char>> {
    Seq::new(lines_of(s).len(), |n: int| tidy(lines_of(s)[n], squeeze))
}

/// Splits a text into its lines and, where `squeeze` is set, collapses the
/// runs of spaces in each.
pub fn split_lines(v: &Vec<char>, squeeze: bool) -> (r: Vec<Vec<char>>)
    ensures
        r.deep_view() == tidy_lines(v@, squeeze),
{
    let mut r: Vec<Vec<char>> = Vec::new();
    let mut i: usize = 0;
    let ghost mut done: Seq<Seq<char>> = Seq::empty();
    assert(r.deep_view() =~~= Seq::new(done.len(), |n: int| tidy(done[n], squeeze)));
    while i < v.len()
        invariant
            i <= v.len(),
            lines_of(v@) == done + lines_from(v@, i as int),
            r.deep_view() == Seq::new(done.len(), |n: int| tidy(done[n], squeeze)),
        decreases v.len() - i,
    {
        let j = scan_run(v, i, CharClass::Line);
        let line = if squeeze {
            collapse_range(v, i, j)
        } else {
            copy_range(v, i, j)
        };
        let ghost old_r = r;
        let ghost old_done = done;
        r.push(line);
        proof {
            let tail = if j < v.len() {
                lines_from(v@, j + break_len(v@, j as int))
            } else {
                Seq::empty()
            };
            assert(lines_from(v@, i as int) == seq![v@.subrange(i as int, j as int)] + tail);
            assert(done + lines_from(v@, i as int) == done.push(v@.subrange(i as int, j as int))
                + tail);
            done = done.push(v@.subrange(i as int, j as int));
            lemma_deep_push(old_r, r, line);
            assert(line.deep_view() =~= line@);
            assert(r.deep_view() =~= Seq::new(done.len(), |n: int| tidy(done[n], squeeze)));
        }
        if j < v.len() {
            if v[j] == '\r' && j + 1 < v.len() && v[j + 1] == '\n' {
                i = j + 2;
            } else {
                i = j + 1;
            }
        } else {
            i = j;
        }
    }
    proof {
        assert(lines_from(v@, i as int) == Seq::<Seq<char>>::empty());
        assert(done + Seq::<Seq<char>>::empty() == done);
    }
    r
}

/// The bounds `(a, b)` of the text that remains of `s` when the white space
/// at both ends is taken away: the first character that is not white space
/// and the position after the last one, or two equal positions where all is
/// white space.
pub open spec fn trim_bounds(s: Seq<char>) -> (int, int) {
    let a = run_end(s, 0, CharClass::Blank);
    (a, trim_end(s, a, s.len() as int))
}

/// The position after the last character in `s[a..b]` that is not white space,
/// or `a` where there is none.
pub open spec fn trim_end(s: Seq<char>, a: int, b: int) -> int
    decreases b - a,
{
    if a < b <= s.len() && is_white(s[b - 1]) {
        trim_end(s, a, b - 1)
    } else {
        b
    }
}

/// The text without the white space at its two ends.
pub open spec fn trimmed(s: Seq<char>) -> Seq<char> {
    let (a, b) = trim_bounds(s);
    if 0 <= a <= b <= s.len() {
        s.subrange(a, b)
    } else {
        Seq::empty()
    }
}

/// Copies `v` without the white space at its two ends.
pub fn trim(v: &Vec<char>) -> (r: Vec<char>)
    ensures
        r@ == trimmed(v@),
{
    let a = scan_run(v, 0, CharClass::Blank);
    let mut b: usize = v.len();
    while b > a && white(v[b - 1])
        invariant
            a <= b <= v.len(),
            trim_end(v@, a as int, v.len() as int) == trim_end(v@, a as int, b as int),
        decreases b - a,
    {
        b -= 1;
    }
    copy_range(v, a, b)
}

/// Whether `c` is one of the digits `0` to `9`.
pub open spec fn is_digit(c: char) -> bool {
    '0' <= c <= '9'
}

/// Whether the text is a plain number: one digit or more, and nothing else.
pub open spec fn is_number(s: Seq<char>) -> bool {
    s.len() > 0 && forall|i: int| 0 <= i < s.len() ==> is_digit(#[trigger] s[i])
}

/// The value of a text of digits, read in base ten.
pub open spec fn number_value(s: Seq<char>) -> nat
    decreases s.len(),
{
    if s.len() == 0 {
        0
    } else {
        (number_value(s.drop_last()) * 10 + (s.last() as int - '0' as int)) as nat
    }
}

/// What a text reads as: its value where it is a plain number that fits in
/// 32 bits with a sign, nothing otherwise.
pub open spec fn number_of(s: Seq<char>) -> Option<i32> {
    if is_number(s) && number_value(s) <= i32::MAX {
        Some(number_value(s) as i32)
    } else {
        None
    }
}

/// A text of digits is worth at least as much as any of its beginnings.
pub proof fn lemma_number_grows(s: Seq<char>, n: int)
    requires
        is_number(s),
        0 <= n <= s.len(),
    ensures
        number_value(s.take(n)) <= number_value(s),
    decreases s.len() - n,
{
    if n < s.len() {
        lemma_number_grows(s, n + 1);
        assert(s.take(n + 1).drop_last() == s.take(n));
        assert(is_digit(s[n]));
    } else {
        assert(s.take(n) == s);
    }
}

/// Reads a plain number, without sign, that fits in 32 bits with a sign.
pub fn parse_number(v: &Vec<char>) -> (r: Option<i32>)
    ensures
        r == number_of(v@),
{
    if v.len() == 0 {
        return None;
    }
    let mut acc: i32 = 0;
    let mut i: usize = 0;
    while i < v.len()
        invariant
            i <= v.len(),
            forall|j: int| 0 <= j < i ==> is_digit(#[trigger] v@[j]),
            acc == number_value(v@.take(i as int)),
        decreases v.len() - i,
    {
        let c = v[i];
        if !('0' <= c && c <= '9') {
            return None;
        }
        let d: i32 = (c as u32 - '0' as u32) as i32;
        proof {
            assert(v@.take(i + 1).drop_last() == v@.take(i as int));
        }
        let next = match acc.checked_mul(10) {
            Some(m) => m.checked_add(d),
            None => None,
        };
        match next {
            Some(n) => {
                acc = n;
            },
            None => {
                proof {
                    assert(number_value(v@.take(i + 1)) > i32::MAX);
                    if is_number(v@) {
                        lemma_number_grows(v@, i + 1);
                    }
                }
                return None;
            },
        }
        i += 1;
    }
    proof {
        assert(v@.take(i as int) == v@);
    }
    Some(acc)
}

/// The code of a character with the letters `A` to `Z` taken as `a` to `z`.
pub open spec fn folded(c: char) -> int {
    if 'A' <= c <= 'Z' {
        c as int + 32
    } else {
        c as int
    }
}

/// Whether two texts are the same but for the case of the letters `a` to `z`.
pub open spec fn same_word(a: Seq<char>, b: Seq<char>) -> bool {
    a.len() == b.len() && forall|i: int| 0 <= i < a.len() ==> folded(#[trigger] a[i]) == folded(
        b[i],
    )
}

/// The code of a character with the letters `A` to `Z` taken as `a` to `z`.
pub fn fold_code(c: char) -> (r: u32)
    ensures
        r == folded(c),
{
    let n: u32 = c as u32;
    if 'A' <= c && c <= 'Z' {
        n + 32
    } else {
        n
    }
}

/// Whether `v` is the word `word` but for the case of its letters.
pub fn is_word(v: &Vec<char>, word: &str) -> (r: bool)
    ensures
        r == same_word(v@, word@),
{
    let n = word.unicode_len();
    if v.len() != n {
        return false;
    }
    let mut i: usize = 0;
    while i < n
        invariant
            i <= n,
            n == v.len(),
            n == word@.len(),
            forall|j: int| 0 <= j < i ==> folded(#[trigger] v@[j]) == folded(word@[j]),
        decreases n - i,
    {
        if fold_code(v[i]) != fold_code(word.get_char(i)) {
            return false;
        }
        i += 1;
    }
    true
}

/// The deep view of a vector that has got one more element is the deep view
/// it had, with the deep view of that element at the end.
pub proof fn lemma_deep_push<T: DeepView>(before: Vec<T>, after: Vec<T>, x: T)
    requires
        after@ == before@.push(x),
    ensures
        after.deep_view() == before.deep_view().push(x.deep_view()),
        after.deep_view().len() == before.deep_view().len() + 1,
{
    assert(before.deep_view().len() == before@.len());
    assert(after.deep_view().len() == after@.len());
    assert forall|j: int| 0 <= j < after.deep_view().len() implies after.deep_view()[j]
        == before.deep_view().push(x.deep_view())[j] by {
        if j < before@.len() {
            assert(after@[j] == before@[j]);
        } else {
            assert(after@[j] == x);
        }
    }
    assert(after.deep_view() =~= before.deep_view().push(x.deep_view()));
}

/// The deep view of a vector that has got a new first element is the deep
/// view of that element, followed by the deep view the vector had.
pub proof fn lemma_deep_insert_front<T: DeepView>(before: Vec<T>, after: Vec<T>, x: T)
    requires
        after@ == before@.insert(0, x),
    ensures
        after.deep_view() == seq![x.deep_view()] + before.deep_view(),
{
    assert(before.deep_view().len() == before@.len());
    assert(after.deep_view().len() == after@.len());
    assert forall|j: int| 0 <= j < after.deep_view().len() implies after.deep_view()[j] == (seq![
        x.deep_view(),
    ] + before.deep_view())[j] by {
        if j == 0 {
            assert(after@[j] == x);
        } else {
            assert(after@[j] == before@[j - 1]);
        }
    }
    assert(after.deep_view() =~= seq![x.deep_view()] + before.deep_view());
}

/// The deep view of two vectors joined is their deep views joined.
pub proof fn lemma_deep_append<T: DeepView>(a: Vec<T>, b: Vec<T>, joined: Vec<T>)
    requires
        joined@ == a@ + b@,
    ensures
        joined.deep_view() == a.deep_view() + b.deep_view(),
{
    assert(a.deep_view().len() == a@.len());
    assert(b.deep_view().len() == b@.len());
    assert(joined.deep_view().len() == joined@.len());
    assert forall|j: int| 0 <= j < joined.deep_view().len() implies joined.deep_view()[j] == (
    a.deep_view() + b.deep_view())[j] by {
        if j < a@.len() {
            assert(joined@[j] == a@[j]);
        } else {
            assert(joined@[j] == b@[j - a@.len()]);
        }
    }
    assert(joined.deep_view() =~= a.deep_view() + b.deep_view());
}

} // verus!
