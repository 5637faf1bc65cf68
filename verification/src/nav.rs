//! Moving through a list of entries: which entry is selected, how the
//! selection moves forward and back around the ends of the list, and which
//! entries a search finds.

use vstd::prelude::*;
use vstd::seq_lib::{to_multiset_build, to_multiset_insert};
use crate::text::chars_of;

verus! {

/// What the program is doing.
#[derive(Debug, Clone, Copy, PartialEq, Eq, Structural)]
pub enum AppState {
    Default,
    Searching,
    Transposing,
    Editing,
}

impl Default for AppState {
    fn default() -> (r: AppState)
        ensures
            r == AppState::Default,
    {
        AppState::Default
    }
}

/// An entry of a folder: a folder, a song or a playlist, by its name.
#[derive(Debug, PartialEq, Eq, Hash)]
pub enum FolderEntry {
    Folder(String),
    Song(String),
    Playlist(String),
}

impl FolderEntry {
    /// The name of the entry.
    pub open spec fn spec_get(&self) -> Seq<char> {
        match self {
            FolderEntry::Folder(path) => path@,
            FolderEntry::Song(name) => name@,
            FolderEntry::Playlist(name) => name@,
        }
    }

    /// The name of the entry.
    pub fn get(&self) -> (r: String)
        ensures
            r@ == self.spec_get(),
    {
        match self {
            FolderEntry::Folder(path) => path.clone(),
            FolderEntry::Song(name) => name.clone(),
            FolderEntry::Playlist(name) => name.clone(),
        }
    }
}

impl Clone for FolderEntry {
    fn clone(&self) -> (r: Self)
        ensures
            r == *self,
    {
        match self {
            FolderEntry::Folder(path) => FolderEntry::Folder(path.clone()),
            FolderEntry::Song(name) => FolderEntry::Song(name.clone()),
            FolderEntry::Playlist(name) => FolderEntry::Playlist(name.clone()),
        }
    }
}

impl Default for FolderEntry {
    fn default() -> (r: FolderEntry)
        ensures
            r matches FolderEntry::Song(name) && name@ == Seq::<char>::empty(),
    {
        FolderEntry::Song(String::new())
    }
}

/// A file of the catalog: a folder, a song or a playlist, by its name.
#[derive(Debug, PartialEq, Eq, Hash)]
pub enum FileType {
    Folder(String),
    Song(String),
    Playlist(String),
}

impl FileType {
    /// The name under which the file is listed.
    pub open spec fn spec_name(&self) -> Seq<char> {
        match self {
            FileType::Folder(name) => name@,
            FileType::Song(name) => name@,
            FileType::Playlist(name) => name@,
        }
    }

    /// The name under which the file is listed.
    pub fn name(&self) -> (r: String)
        ensures
            r@ == self.spec_name(),
    {
        match self {
            FileType::Folder(name) => name.clone(),
            FileType::Song(name) => name.clone(),
            FileType::Playlist(name) => name.clone(),
        }
    }
}

impl Clone for FileType {
    fn clone(&self) -> (r: Self)
        ensures
            r == *self,
    {
        match self {
            FileType::Folder(name) => FileType::Folder(name.clone()),
            FileType::Song(name) => FileType::Song(name.clone()),
            FileType::Playlist(name) => FileType::Playlist(name.clone()),
        }
    }
}

/// Whether the name `a`, read from position `i` on, comes no later than the
/// name `b` read from there: at the first position where the two differ,
/// `a` holds the character with the lower code, or `a` has ended.
pub open spec fn name_le_from(a: Seq<char>, b: Seq<char>, i: int) -> bool
    decreases a.len() - i,
{
    if i < 0 || i >= a.len() {
        true
    } else if i >= b.len() {
        false
    } else if a[i] != b[i] {
        a[i] < b[i]
    } else {
        name_le_from(a, b, i + 1)
    }
}

/// Whether the name `a` comes no later than the name `b` in the order in
/// which names are sorted: that of their characters' codes, a name before
/// every longer name that begins with it.
pub open spec fn name_le(a: Seq<char>, b: Seq<char>) -> bool {
    name_le_from(a, b, 0)
}

/// Whether entries stand in ascending order of their names.
pub open spec fn entries_sorted(items: Seq<FolderEntry>) -> bool {
    forall|i: int, j: int|
        0 <= i < j < items.len() ==> name_le(
            (#[trigger] items[i]).spec_get(),
            (#[trigger] items[j]).spec_get(),
        )
}

/// Of two names, one comes no later than the other.
pub proof fn lemma_name_le_total(a: Seq<char>, b: Seq<char>, i: int)
    requires
        0 <= i,
    ensures
        name_le_from(a, b, i) || name_le_from(b, a, i),
    decreases a.len() - i,
{
    if i < a.len() && i < b.len() && a[i] == b[i] {
        lemma_name_le_total(a, b, i + 1);
    }
}

/// A name that comes no later than a second, which comes no later than a
/// third, comes no later than the third.
pub proof fn lemma_name_le_transitive(a: Seq<char>, b: Seq<char>, c: Seq<char>, i: int)
    requires
        0 <= i,
        name_le_from(a, b, i),
        name_le_from(b, c, i),
    ensures
        name_le_from(a, c, i),
    decreases a.len() - i,
{
    if i < a.len() && a[i] == b[i] && b[i] == c[i] {
        lemma_name_le_transitive(a, b, c, i + 1);
    }
}

/// The characters of an entry's name.
fn name_chars(entry: &FolderEntry) -> (r: Vec<char>)
    ensures
        r@ == entry.spec_get(),
{
    match entry {
        FolderEntry::Folder(path) => chars_of(path.as_str()),
        FolderEntry::Song(name) => chars_of(name.as_str()),
        FolderEntry::Playlist(name) => chars_of(name.as_str()),
    }
}

/// Whether the name `a` comes no later than the name `b`.
pub fn name_comes_first(a: &Vec<char>, b: &Vec<char>) -> (r: bool)
    ensures
        r == name_le(a@, b@),
{
    let mut i: usize = 0;
    while i < a.len() && i < b.len() && a[i] == b[i]
        invariant
            i <= a.len(),
            i <= b.len(),
            name_le(a@, b@) == name_le_from(a@, b@, i as int),
        decreases a.len() - i,
    {
        i += 1;
    }
    if i >= a.len() {
        true
    } else if i >= b.len() {
        false
    } else {
        a[i] < b[i]
    }
}

/// The selection after it has moved forward by `amount` in a list of `len`
/// entries. A selection that would pass the last entry goes on from the
/// first. Where nothing is selected, the first entry is, if there is one.
pub open spec fn moved_forward(selected: Option<usize>, len: int, amount: int) -> Option<int> {
    match selected {
        Some(i) => if i + amount > len - 1 {
            Some(i + amount - len)
        } else {
            Some(i + amount)
        },
        None => if len == 0 {
            None
        } else {
            Some(0)
        },
    }
}

/// The selection after it has moved back by `amount` in a list of `len`
/// entries. A selection that would pass the first entry goes on from the
/// last. Where nothing is selected, the first entry is, if there is one.
pub open spec fn moved_back(selected: Option<usize>, len: int, amount: int) -> Option<int> {
    match selected {
        Some(i) => if amount > i {
            Some(i + len - amount)
        } else {
            Some(i - amount)
        },
        None => if len == 0 {
            None
        } else {
            Some(0)
        },
    }
}

/// Whether a selection is a position, or none.
pub open spec fn is_position(selection: Option<int>) -> bool {
    match selection {
        Some(i) => 0 <= i <= usize::MAX,
        None => true,
    }
}

/// A selection of positions as a selection of machine integers.
pub open spec fn as_selected(selection: Option<int>) -> Option<usize> {
    match selection {
        Some(i) => Some(i as usize),
        None => None,
    }
}

/// A list of entries, one of which may be selected.
#[derive(Debug, PartialEq, Eq)]
pub struct StatefulList {
    pub selected: Option<usize>,
    pub items: Vec<FolderEntry>,
}

impl Default for StatefulList {
    fn default() -> (r: StatefulList)
        ensures
            r.selected is None,
            r.items@.len() == 0,
    {
        StatefulList { selected: None, items: Vec::new() }
    }
}

impl StatefulList {
    /// An empty list with nothing selected.
    pub fn new() -> (r: StatefulList)
        ensures
            r.selected is None,
            r.items@.len() == 0,
    {
        StatefulList { selected: None, items: Vec::new() }
    }

    /// A list of the given entries with nothing selected.
    pub fn with_items(items: Vec<FolderEntry>) -> (r: StatefulList)
        ensures
            r.selected is None,
            r.items == items,
    {
        StatefulList { selected: None, items }
    }

    /// A list of the given entries in ascending order of their names, with
    /// nothing selected.
    pub fn with_items_sorted(items: Vec<FolderEntry>) -> (r: StatefulList)
        ensures
            r.selected is None,
            r.items@.to_multiset() == items@.to_multiset(),
            entries_sorted(r.items@),
    {
        let mut sorted: Vec<FolderEntry> = Vec::new();
        let mut i: usize = 0;
        assert(items@.take(0) =~= sorted@);
        while i < items.len()
            invariant
                i <= items.len(),
                sorted.len() == i,
                entries_sorted(sorted@),
                sorted@.to_multiset() == items@.take(i as int).to_multiset(),
            decreases items.len() - i,
        {
            let entry = items[i].clone();
            let name = name_chars(&entry);
            let mut pos: usize = 0;
            while pos < sorted.len() && name_comes_first(&name_chars(&sorted[pos]), &name)
                invariant
                    pos <= sorted.len(),
                    name@ == entry.spec_get(),
                    forall|j: int|
                        0 <= j < pos ==> name_le(
                            (#[trigger] sorted@[j]).spec_get(),
                            entry.spec_get(),
                        ),
                decreases sorted.len() - pos,
            {
                pos += 1;
            }
            let ghost before = sorted@;
            sorted.insert(pos, entry);
            proof {
                to_multiset_insert(before, pos as int, entry);
                to_multiset_build(items@.take(i as int), entry);
                assert(items@.take(i + 1) =~= items@.take(i as int).push(entry));
                let e = entry.spec_get();
                if pos < before.len() {
                    lemma_name_le_total(before[pos as int].spec_get(), e, 0);
                }
                assert forall|a: int, b: int| 0 <= a < b < sorted@.len() implies name_le(
                    (#[trigger] sorted@[a]).spec_get(),
                    (#[trigger] sorted@[b]).spec_get(),
                ) by {
                    if b < pos {
                        assert(sorted@[a] == before[a] && sorted@[b] == before[b]);
                    } else if b == pos {
                        assert(sorted@[a] == before[a]);
                    } else if a < pos {
                        assert(sorted@[a] == before[a] && sorted@[b] == before[b - 1]);
                    } else if a == pos {
                        assert(sorted@[b] == before[b - 1]);
                        if pos < b - 1 {
                            assert(name_le(
                                before[pos as int].spec_get(),
                                before[b - 1].spec_get(),
                            ));
                            lemma_name_le_transitive(
                                e,
                                before[pos as int].spec_get(),
                                before[b - 1].spec_get(),
                                0,
                            );
                        }
                    } else {
                        assert(sorted@[a] == before[a - 1] && sorted@[b] == before[b - 1]);
                    }
                }
            }
            i += 1;
        }
        proof {
            assert(items@.take(i as int) == items@);
        }
        StatefulList { selected: None, items: sorted }
    }

    /// Moves the selection forward by `amount`, around the end of the list.
    pub fn forward(&mut self, amount: usize)
        requires
            is_position(
                moved_forward(old(self).selected, old(self).items@.len() as int, amount as int),
            ),
        ensures
            final(self).items == old(self).items,
            final(self).selected == as_selected(
                moved_forward(old(self).selected, old(self).items@.len() as int, amount as int),
            ),
    {
        let len = self.items.len();
        let i = match self.selected {
            Some(i) => {
                if len == 0 || amount > len - 1 || i > len - 1 - amount {
                    if i >= len {
                        Some(i - len + amount)
                    } else {
                        Some(amount - (len - i))
                    }
                } else {
                    Some(i + amount)
                }
            },
            None => {
                if len == 0 {
                    None
                } else {
                    Some(0)
                }
            },
        };
        self.selected = i;
    }

    /// Moves the selection back by `amount`, around the start of the list.
    pub fn back(&mut self, amount: usize)
        requires
            is_position(
                moved_back(old(self).selected, old(self).items@.len() as int, amount as int),
            ),
        ensures
            final(self).items == old(self).items,
            final(self).selected == as_selected(
                moved_back(old(self).selected, old(self).items@.len() as int, amount as int),
            ),
    {
        let len = self.items.len();
        let i = match self.selected {
            Some(i) => {
                if amount > i {
                    Some(len - (amount - i))
                } else {
                    Some(i - amount)
                }
            },
            None => {
                if len == 0 {
                    None
                } else {
                    Some(0)
                }
            },
        };
        self.selected = i;
    }

    /// Whether the selection can move forward by `amount`: whether the
    /// position it would reach is a machine integer.
    pub fn can_forward(&self, amount: usize) -> (r: bool)
        ensures
            r == is_position(moved_forward(self.selected, self.items@.len() as int, amount as int)),
    {
        let len = self.items.len();
        match self.selected {
            Some(i) => {
                if len == 0 || amount > len - 1 || i > len - 1 - amount {
                    if i >= len {
                        amount <= usize::MAX - (i - len)
                    } else {
                        true
                    }
                } else {
                    true
                }
            },
            None => true,
        }
    }

    /// Whether the selection can move back by `amount`: whether the position
    /// it would reach is not before the first.
    pub fn can_back(&self, amount: usize) -> (r: bool)
        ensures
            r == is_position(moved_back(self.selected, self.items@.len() as int, amount as int)),
    {
        let len = self.items.len();
        match self.selected {
            Some(i) => {
                if amount > i {
                    amount - i <= len
                } else {
                    true
                }
            },
            None => true,
        }
    }

    /// Selects the entry at the given position, or none.
    pub fn select(&mut self, select: Option<usize>)
        ensures
            final(self).items == old(self).items,
            final(self).selected == select,
    {
        self.selected = select;
    }

    /// The position of the selected entry, if one is selected.
    pub fn selected(&self) -> (r: Option<usize>)
        ensures
            r == self.selected,
    {
        self.selected
    }
}

/// In a list that is not empty, a selection inside the list stays inside it
/// when it moves by no more than the length of the list, forward or back.
pub proof fn lemma_moves_stay_inside(selected: usize, len: int, amount: int)
    requires
        0 <= selected < len,
        0 <= amount <= len,
    ensures
        moved_forward(Some(selected), len, amount) matches Some(i) && 0 <= i < len,
        moved_back(Some(selected), len, amount) matches Some(i) && 0 <= i < len,
{
}

/// Moving forward by one and then back by one, inside a list, leads to the
/// entry from which the selection started.
pub proof fn lemma_forward_then_back(selected: usize, len: int)
    requires
        0 <= selected < len <= usize::MAX,
    ensures
        moved_back(as_selected(moved_forward(Some(selected), len, 1)), len, 1) == Some(
            selected as int,
        ),
{
}

/// The text that `str::to_lowercase` of std gives for a text: the lowercase
/// of each character as Unicode defines it, which depends on nothing but
/// the text.
pub uninterp spec fn lowercase_of(s: Seq<char>) -> Seq<char>;

/// Calls `str::to_lowercase` of std. Claimed without proof: the result is
/// the lowercase of the text, the same for the same text.
#[verifier::external_body]
fn lowercase(s: &str) -> (r: String)
    ensures
        r@ == lowercase_of(s@),
{
    s.to_lowercase()
}

/// Whether `needle` stands in `hay` at position `i`.
pub open spec fn occurs_at(needle: Seq<char>, hay: Seq<char>, i: int) -> bool {
    0 <= i && i + needle.len() <= hay.len() && hay.subrange(i, i + needle.len()) == needle
}

/// Whether `needle` stands somewhere in `hay`.
pub open spec fn occurs_in(needle: Seq<char>, hay: Seq<char>) -> bool {
    exists|i: int| occurs_at(needle, hay, i)
}

/// Whether `needle` stands in `hay` at position `i`.
fn stands_at(hay: &Vec<char>, needle: &Vec<char>, i: usize) -> (r: bool)
    requires
        i + needle.len() <= hay.len(),
    ensures
        r == occurs_at(needle@, hay@, i as int),
{
    let mut j: usize = 0;
    while j < needle.len()
        invariant
            j <= needle.len(),
            i + needle.len() <= hay.len(),
            forall|k: int| 0 <= k < j ==> hay@[i + k] == needle@[k],
        decreases needle.len() - j,
    {
        if hay[i + j] != needle[j] {
            assert(hay@.subrange(i as int, i + needle@.len())[j as int] != needle@[j as int]);
            return false;
        }
        j += 1;
    }
    assert(hay@.subrange(i as int, i + needle@.len()) =~= needle@);
    true
}

/// Whether the text `needle` stands somewhere in the text `hay`.
pub fn text_contains(hay: &str, needle: &str) -> (r: bool)
    ensures
        r == occurs_in(needle@, hay@),
{
    let h = chars_of(hay);
    let n = chars_of(needle);
    if n.len() > h.len() {
        return false;
    }
    let last = h.len() - n.len();
    let mut i: usize = 0;
    while i < last
        invariant
            i <= last,
            last == h.len() - n.len(),
            n.len() <= h.len(),
            h@ == hay@,
            n@ == needle@,
            forall|k: int| 0 <= k < i ==> !occurs_at(n@, h@, k),
        decreases last - i,
    {
        if stands_at(&h, &n, i) {
            return true;
        }
        i += 1;
    }
    stands_at(&h, &n, last)
}

/// Whether a search for `query` finds an entry with the given name and
/// text: whether the query stands in the name or in the text, all three
/// taken in lowercase.
pub fn entry_matches(name: &str, text: &str, query: &str) -> (r: bool)
    ensures
        r == (occurs_in(lowercase_of(query@), lowercase_of(name@)) || occurs_in(
            lowercase_of(query@),
            lowercase_of(text@),
        )),
{
    let query = lowercase(query);
    let name = lowercase(name);
    let text = lowercase(text);
    let in_name = text_contains(name.as_str(), query.as_str());
    let in_text = text_contains(text.as_str(), query.as_str());
    in_name || in_text
}

} // verus!
