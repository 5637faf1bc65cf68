//! Chord sheets for the terminal. A song is written as lyrics with chords in
//! square brackets and directives in curly braces; this library reads such a
//! document, moves its chords to another key, sets every line in two rows
//! with each chord above its lyric, and packs the lines into columns.
//!
//! - [`pitch`]: the twelve pitch classes and their transposition.
//! - [`text`]: characters, lines, white space and numbers.
//! - [`markup`]: tags, chords, words and the names of the directives.
//! - [`line`]: words and lines, their rows, widths and wrapping.
//! - [`parser`]: songs and playlists read from their documents.
//! - [`layout`]: columns.
//! - [`nav`]: the selection in a list of entries, and searching.

pub mod pitch;
pub mod text;
pub mod markup;
pub mod line;
pub mod parser;
pub mod layout;
pub mod nav;
