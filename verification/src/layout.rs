//! Columns: the lines of a song are wrapped to a width that is taken from
//! the lines themselves, and then packed into columns that fit the height
//! of the place where the song is shown.

use vstd::prelude::*;
use vstd::relations::{sorted_by, total_ordering};
use vstd::seq_lib::{lemma_sorted_unique, to_multiset_build, to_multiset_insert};
use crate::line::{
    capped, lemma_line_broken_keeps, line_blocks, line_broken, line_height, line_rows,
    line_width, Fragment, LineView, SongLine, Span, SpanView,
};
use crate::text::{lemma_deep_append, lemma_deep_push};

verus! {

/// A column: the lines that are shown one below the other.
#[derive(Debug, PartialEq, Eq)]
pub struct Column {
    content: Vec<SongLine>,
}

impl View for Column {
    type V = Seq<LineView>;

    closed spec fn view(&self) -> Seq<LineView> {
        self.content.deep_view()
    }
}

impl DeepView for Column {
    type V = Seq<LineView>;

    open spec fn deep_view(&self) -> Seq<LineView> {
        self@
    }
}

impl Default for Column {
    fn default() -> (r: Self)
        ensures
            r@ == Seq::<LineView>::empty(),
    {
        let content: Vec<SongLine> = Vec::new();
        assert(content.deep_view() =~= Seq::<LineView>::empty());
        Column { content }
    }
}

/// The width of the widest of some lines, 0 where there is none.
pub open spec fn widest(lines: Seq<LineView>) -> nat
    decreases lines.len(),
{
    if lines.len() == 0 {
        0
    } else if widest(lines.drop_last()) >= line_width(lines.last()) {
        widest(lines.drop_last())
    } else {
        line_width(lines.last())
    }
}

/// The widest of all the lines is no narrower than the widest of the first
/// `k`.
pub proof fn lemma_widest_grows(lines: Seq<LineView>, k: int)
    requires
        0 <= k <= lines.len(),
    ensures
        widest(lines.take(k)) <= widest(lines),
    decreases lines.len() - k,
{
    if k < lines.len() {
        lemma_widest_grows(lines, k + 1);
        assert(lines.take(k + 1).drop_last() == lines.take(k));
    } else {
        assert(lines.take(k) == lines);
    }
}

/// The rows of some lines, one line's rows after the other's.
pub open spec fn rows_of(lines: Seq<LineView>) -> Seq<Seq<SpanView>>
    decreases lines.len(),
{
    if lines.len() == 0 {
        Seq::empty()
    } else {
        rows_of(lines.drop_last()) + line_rows(lines.last())
    }
}

impl Column {
    /// A column of the given lines.
    pub fn from(content: Vec<SongLine>) -> (r: Column)
        ensures
            r@ == content.deep_view(),
    {
        Column { content }
    }

    /// The lines of the column.
    pub fn lines(&self) -> (r: &Vec<SongLine>)
        ensures
            r.deep_view() == self@,
    {
        &self.content
    }

    /// The width of the column: that of its widest line.
    pub open spec fn spec_width(&self) -> nat {
        widest(self@)
    }

    /// The width of the column: that of its widest line, and 0 where it has
    /// no line.
    pub fn width(&self) -> (r: usize)
        ensures
            r == capped(self.spec_width()),
    {
        let mut w: usize = 0;
        let mut i: usize = 0;
        let ghost lines = self@;
        assert(lines.take(0) == Seq::<LineView>::empty());
        assert(lines.len() == self.content.len());
        while i < self.content.len()
            invariant
                i <= self.content.len(),
                lines == self@,
                lines.len() == self.content.len(),
                w == widest(lines.take(i as int)),
            decreases self.content.len() - i,
        {
            proof {
                assert(lines.take(i + 1).drop_last() == lines.take(i as int));
                assert(lines[i as int] == self.content[i as int]@);
            }
            match self.content[i].measured() {
                Some(n) => {
                    if n > w {
                        w = n;
                    }
                },
                None => {
                    proof {
                        lemma_widest_grows(lines, i + 1);
                    }
                    return usize::MAX;
                },
            }
            i += 1;
        }
        assert(lines.take(i as int) == lines);
        w
    }

    /// The rows of the column: the rows of its lines, from the first line
    /// to the last.
    pub fn to_spans(&self) -> (r: Vec<Vec<Span>>)
        requires
            forall|i: int| 0 <= i < self@.len() ==> line_width(#[trigger] self@[i]) <= usize::MAX,
        ensures
            r.deep_view() == rows_of(self@),
    {
        let mut rows: Vec<Vec<Span>> = Vec::new();
        let mut i: usize = 0;
        let ghost lines = self@;
        assert(lines.take(0) == Seq::<LineView>::empty());
        assert(lines.len() == self.content.len());
        assert(rows.deep_view() =~= Seq::<Seq<SpanView>>::empty());
        while i < self.content.len()
            invariant
                i <= self.content.len(),
                lines == self@,
                lines.len() == self.content.len(),
                forall|i: int|
                    0 <= i < lines.len() ==> line_width(#[trigger] lines[i]) <= usize::MAX,
                rows.deep_view() == rows_of(lines.take(i as int)),
            decreases self.content.len() - i,
        {
            proof {
                assert(lines.take(i + 1).drop_last() == lines.take(i as int));
                assert(lines[i as int] == self.content[i as int]@);
            }
            let mut more = self.content[i].format();
            let ghost a = rows;
            let ghost b = more;
            rows.append(&mut more);
            proof {
                lemma_deep_append(a, b, rows);
            }
            i += 1;
        }
        assert(lines.take(i as int) == lines);
        rows
    }
}

/// The order in which widths are sorted: ascending.
pub open spec fn ascending() -> spec_fn(usize, usize) -> bool {
    |a: usize, b: usize| a <= b
}

/// The widths of some lines, as machine integers.
pub open spec fn widths_of(lines: Seq<LineView>) -> Seq<usize> {
    Seq::new(lines.len(), |i: int| capped(line_width(lines[i])))
}

/// The median of some widths: the one that stands in the middle when they
/// are put in ascending order, and the upper of the two in the middle where
/// their number is even.
pub open spec fn median(widths: Seq<usize>) -> usize {
    widths.sort_by(ascending())[widths.len() as int / 2]
}

/// The width beyond which a line is broken: the median of the widths of the
/// lines and the `slack` added to it.
pub open spec fn wrap_limit(lines: Seq<LineView>, slack: int) -> usize {
    capped((median(widths_of(lines)) + slack) as nat)
}

/// A line as it is laid out: broken at `limit` where it is wider than the
/// place it is shown in or wider than `limit`, as it is elsewhere.
pub open spec fn fitted(line: LineView, width: int, limit: int) -> Seq<LineView> {
    if line_width(line) > width || line_width(line) > limit {
        line_broken(line, limit)
    } else {
        seq![line]
    }
}

/// Some lines as they are laid out, in their order.
pub open spec fn fitted_lines(lines: Seq<LineView>, width: int, limit: int) -> Seq<LineView>
    decreases lines.len(),
{
    if lines.len() == 0 {
        Seq::empty()
    } else {
        fitted_lines(lines.drop_last(), width, limit) + fitted(lines.last(), width, limit)
    }
}

/// Lines while they are packed into columns: the columns that are closed,
/// the position of the first line of the open column, the number of lines
/// in the open column, and the sum of their heights.
pub struct Packing {
    pub columns: Seq<Seq<LineView>>,
    pub start: int,
    pub count: int,
    pub height: int,
}

/// The packing after one more of the lines `all`, of height `h`. Where the
/// open column holds a line and would, with this one, be higher than
/// `room`, it is closed and this line opens the next column. Else the line
/// joins the open column: so does a line that is itself higher than `room`
/// when the open column is empty, and it then stands alone.
pub open spec fn pack_step(p: Packing, all: Seq<LineView>, h: int, room: int) -> Packing {
    if p.count > 0 && p.height + h > room {
        Packing {
            columns: p.columns.push(all.subrange(p.start, p.start + p.count)),
            start: p.start + p.count,
            count: 1,
            height: h,
        }
    } else {
        Packing { columns: p.columns, start: p.start, count: p.count + 1, height: p.height + h }
    }
}

/// The packing after the first `n` of the lines `all`.
pub open spec fn packing(all: Seq<LineView>, n: int, room: int) -> Packing
    decreases n,
{
    if n <= 0 || n > all.len() {
        Packing { columns: Seq::empty(), start: 0, count: 0, height: 0 }
    } else {
        pack_step(packing(all, n - 1, room), all, line_height(all[n - 1]) as int, room)
    }
}

/// The columns into which lines are packed when `room` rows are free: the
/// columns that were closed, and a last one with the lines of the open
/// column.
pub open spec fn packed(all: Seq<LineView>, room: int) -> Seq<Seq<LineView>> {
    let p = packing(all, all.len() as int, room);
    p.columns.push(all.subrange(p.start, all.len() as int))
}

/// The height of some lines shown one below the other.
pub open spec fn lines_height(lines: Seq<LineView>) -> nat
    decreases lines.len(),
{
    if lines.len() == 0 {
        0
    } else {
        lines_height(lines.drop_last()) + line_height(lines.last())
    }
}

/// The columns in which the lines of a song are shown in a place of the
/// given width and height: none where there are no lines; else the lines
/// are laid out, and packed into what the height leaves free when two rows
/// are kept for the border, so that every column of two lines or more fits
/// and a line that is too high stands alone.
pub open spec fn columns_of(lines: Seq<LineView>, width: int, height: int, slack: int) -> Seq<
    Seq<LineView>,
> {
    if lines.len() == 0 {
        Seq::empty()
    } else {
        packed(fitted_lines(lines, width, wrap_limit(lines, slack) as int), height - 2)
    }
}

/// The lines of some columns, in their order.
pub open spec fn column_lines(columns: Seq<Seq<LineView>>) -> Seq<LineView>
    decreases columns.len(),
{
    if columns.len() == 0 {
        Seq::empty()
    } else {
        column_lines(columns.drop_last()) + columns.last()
    }
}

/// Whether a column fits the room: it holds a line, and where it holds two
/// or more, their heights together are no more than `room`.
pub open spec fn column_fits(column: Seq<LineView>, room: int) -> bool {
    column.len() > 0 && (column.len() >= 2 ==> lines_height(column) <= room)
}

/// Every line takes one row or two: some lines are at least as high as
/// they are many, and at most twice as high.
pub proof fn lemma_lines_height_counts(lines: Seq<LineView>)
    ensures
        lines.len() <= lines_height(lines) <= 2 * lines.len(),
    decreases lines.len(),
{
    if lines.len() > 0 {
        lemma_lines_height_counts(lines.drop_last());
    }
}

/// No line is higher than the lines it stands among.
pub proof fn lemma_lines_height_bounds(lines: Seq<LineView>, j: int)
    requires
        0 <= j < lines.len(),
    ensures
        line_height(lines[j]) <= lines_height(lines),
    decreases lines.len(),
{
    if j < lines.len() - 1 {
        lemma_lines_height_bounds(lines.drop_last(), j);
    }
}

/// While lines are packed, the open column holds the lines from its start
/// to the last line taken, and `height` is their height; where it holds two
/// lines or more they fit the room; the closed columns hold the lines
/// before it, and each of them fits.
pub proof fn lemma_packing(all: Seq<LineView>, n: int, room: int)
    requires
        0 <= n <= all.len(),
    ensures
        0 <= packing(all, n, room).start,
        0 <= packing(all, n, room).count,
        packing(all, n, room).start + packing(all, n, room).count == n,
        n > 0 ==> packing(all, n, room).count > 0,
        packing(all, n, room).height == lines_height(
            all.subrange(packing(all, n, room).start, n),
        ),
        packing(all, n, room).count >= 2 ==> packing(all, n, room).height <= room,
        packing(all, n, room).count <= 1 ==> packing(all, n, room).height <= 2,
        column_lines(packing(all, n, room).columns) == all.take(packing(all, n, room).start),
        packing(all, n, room).columns.len() <= n,
        forall|i: int|
            0 <= i < packing(all, n, room).columns.len() ==> column_fits(
                #[trigger] packing(all, n, room).columns[i],
                room,
            ),
    decreases n,
{
    if n > 0 {
        lemma_packing(all, n - 1, room);
        let p = packing(all, n - 1, room);
        let q = packing(all, n, room);
        let h = line_height(all[n - 1]) as int;
        if p.count > 0 && p.height + h > room {
            assert(q.columns.drop_last() == p.columns);
            assert(all.take(p.start) + all.subrange(p.start, p.start + p.count) =~= all.take(
                p.start + p.count,
            ));
            let one = all.subrange(n - 1, n);
            assert(one.drop_last() =~= Seq::<LineView>::empty());
            assert(lines_height(one.drop_last()) == 0);
            assert(one.last() == all[n - 1]);
            assert forall|i: int| 0 <= i < q.columns.len() implies column_fits(
                #[trigger] q.columns[i],
                room,
            ) by {
                if i < p.columns.len() {
                    assert(q.columns[i] == p.columns[i]);
                }
            }
        } else {
            let now = all.subrange(p.start, n);
            assert(now.drop_last() =~= all.subrange(p.start, n - 1));
            assert(now.last() == all[n - 1]);
            if p.count == 0 {
                assert(all.subrange(p.start, n - 1) =~= Seq::<LineView>::empty());
            }
        }
    } else {
        assert(all.take(0) =~= Seq::<LineView>::empty());
        assert(all.subrange(0, 0) =~= Seq::<LineView>::empty());
    }
}

/// Packing loses no line and splits none: the columns hold the lines that
/// were packed, each once and in their order.
pub proof fn lemma_packed_keeps(all: Seq<LineView>, room: int)
    ensures
        column_lines(packed(all, room)) == all,
{
    let p = packing(all, all.len() as int, room);
    lemma_packing(all, all.len() as int, room);
    assert(packed(all, room).drop_last() == p.columns);
    assert(all.take(p.start) + all.subrange(p.start, all.len() as int) =~= all);
}

/// Every column fits the room. Where there are lines, no column is empty; a
/// column of two lines or more is no higher than the room; and so a line
/// that is itself higher than the room stands alone in its column.
pub proof fn lemma_packed_fits(all: Seq<LineView>, room: int)
    requires
        all.len() > 0,
    ensures
        forall|i: int|
            0 <= i < packed(all, room).len() ==> column_fits(#[trigger] packed(all, room)[i], room),
        forall|i: int, j: int|
            0 <= i < packed(all, room).len() && 0 <= j < packed(all, room)[i].len()
                && line_height(#[trigger] packed(all, room)[i][j]) > room ==> packed(
                all,
                room,
            )[i].len() == 1,
{
    let n = all.len() as int;
    let p = packing(all, n, room);
    lemma_packing(all, n, room);
    let cols = packed(all, room);
    assert forall|i: int| 0 <= i < cols.len() implies column_fits(#[trigger] cols[i], room) by {
        if i < p.columns.len() {
            assert(cols[i] == p.columns[i]);
        }
    }
    assert forall|i: int, j: int|
        0 <= i < cols.len() && 0 <= j < cols[i].len() && line_height(#[trigger] cols[i][j])
            > room implies cols[i].len() == 1 by {
        assert(column_fits(cols[i], room));
        lemma_lines_height_bounds(cols[i], j);
    }
}

/// The words of two sequences of lines joined are the words of the one
/// followed by the words of the other.
pub proof fn lemma_line_blocks_add(a: Seq<LineView>, b: Seq<LineView>)
    ensures
        line_blocks(a + b) == line_blocks(a) + line_blocks(b),
    decreases b.len(),
{
    if b.len() == 0 {
        assert(a + b =~= a);
        assert(line_blocks(a) + line_blocks(b) =~= line_blocks(a));
    } else {
        lemma_line_blocks_add(a, b.drop_last());
        assert((a + b).drop_last() =~= a + b.drop_last());
        assert((a + b).last() == b.last());
        assert(line_blocks(a) + (line_blocks(b.drop_last()) + b.last().blocks) =~= (line_blocks(a)
            + line_blocks(b.drop_last())) + b.last().blocks);
    }
}

/// Laying lines out loses no word and splits none.
pub proof fn lemma_fitted_keeps(lines: Seq<LineView>, width: int, limit: int)
    ensures
        line_blocks(fitted_lines(lines, width, limit)) == line_blocks(lines),
    decreases lines.len(),
{
    if lines.len() > 0 {
        lemma_fitted_keeps(lines.drop_last(), width, limit);
        lemma_line_blocks_add(
            fitted_lines(lines.drop_last(), width, limit),
            fitted(lines.last(), width, limit),
        );
        let line = lines.last();
        if line_width(line) > width || line_width(line) > limit {
            lemma_line_broken_keeps(line, limit);
        } else {
            let one = seq![line];
            assert(one.drop_last() == Seq::<LineView>::empty());
            assert(line_blocks(one.drop_last()) == Seq::<Seq<Fragment>>::empty());
            assert(one.last() == line);
            assert(line_blocks(one) =~= line.blocks);
        }
    }
}

/// No word is split or lost when a song is set in columns: the lines of the
/// columns, taken column by column, hold the words of the song's lines, each
/// word whole, once, and in its place.
pub proof fn lemma_columns_keep_blocks(lines: Seq<LineView>, width: int, height: int, slack: int)
    ensures
        line_blocks(column_lines(columns_of(lines, width, height, slack))) == line_blocks(lines),
{
    if lines.len() > 0 {
        let limit = wrap_limit(lines, slack) as int;
        lemma_packed_keeps(fitted_lines(lines, width, limit), height - 2);
        lemma_fitted_keeps(lines, width, limit);
    } else {
        assert(column_lines(Seq::<Seq<LineView>>::empty()) == Seq::<LineView>::empty());
    }
}

/// Lines that are laid out are at least as many as they were.
pub proof fn lemma_fitted_len(lines: Seq<LineView>, width: int, limit: int)
    ensures
        fitted_lines(lines, width, limit).len() >= lines.len(),
    decreases lines.len(),
{
    if lines.len() > 0 {
        lemma_fitted_len(lines.drop_last(), width, limit);
    }
}

/// The columns of a song fit the place they are shown in. Where the song
/// has lines, no column is empty; a column of two lines or more is no
/// higher than the rows that the height leaves free; and a line that is
/// itself higher than that stands alone in its column.
pub proof fn lemma_columns_fit(lines: Seq<LineView>, width: int, height: int, slack: int)
    ensures
        forall|i: int|
            0 <= i < columns_of(lines, width, height, slack).len() ==> column_fits(
                #[trigger] columns_of(lines, width, height, slack)[i],
                height - 2,
            ),
        forall|i: int, j: int|
            0 <= i < columns_of(lines, width, height, slack).len() && 0 <= j < columns_of(
                lines,
                width,
                height,
                slack,
            )[i].len() && line_height(#[trigger] columns_of(lines, width, height, slack)[i][j])
                > height - 2 ==> columns_of(lines, width, height, slack)[i].len() == 1,
{
    if lines.len() > 0 {
        let limit = wrap_limit(lines, slack) as int;
        lemma_fitted_len(lines, width, limit);
        lemma_packed_fits(fitted_lines(lines, width, limit), height - 2);
    }
}

/// The same lines in a place of the same size are always set in the same
/// columns.
pub proof fn lemma_columns_determined(
    a: Seq<LineView>,
    b: Seq<LineView>,
    width: int,
    height: int,
    slack: int,
)
    requires
        a == b,
    ensures
        columns_of(a, width, height, slack) == columns_of(b, width, height, slack),
{
}

/// The widths of some lines in ascending order.
fn sorted_widths(lines: &[SongLine]) -> (r: Vec<usize>)
    ensures
        r@ == widths_of(lines.deep_view()).sort_by(ascending()),
        r.len() == lines.len(),
{
    let mut sorted: Vec<usize> = Vec::new();
    let ghost widths = widths_of(lines.deep_view());
    let mut i: usize = 0;
    assert(lines.deep_view().len() == lines.len());
    assert(widths.take(0) =~= sorted@);
    while i < lines.len()
        invariant
            i <= lines.len(),
            widths == widths_of(lines.deep_view()),
            widths.len() == lines.len(),
            sorted.len() == i,
            sorted_by(sorted@, ascending()),
            sorted@.to_multiset() == widths.take(i as int).to_multiset(),
        decreases lines.len() - i,
    {
        assert(lines.deep_view()[i as int] == lines[i as int]@);
        let w = lines[i].width();
        let mut pos: usize = 0;
        while pos < sorted.len() && sorted[pos] <= w
            invariant
                pos <= sorted.len(),
                forall|j: int| 0 <= j < pos ==> sorted@[j] <= w,
            decreases sorted.len() - pos,
        {
            pos += 1;
        }
        let ghost before = sorted@;
        sorted.insert(pos, w);
        proof {
            to_multiset_insert(before, pos as int, w);
            to_multiset_build(widths.take(i as int), w);
            assert(widths.take(i + 1) =~= widths.take(i as int).push(w));
            assert forall|a: int, b: int| 0 <= a < b < sorted@.len() implies ascending()(
                sorted@[a],
                sorted@[b],
            ) by {
                if b < pos {
                    assert(ascending()(before[a], before[b]));
                } else if b == pos {
                } else if a < pos {
                    assert(ascending()(before[a], before[b - 1]));
                } else if a == pos {
                    if pos < b - 1 {
                        assert(ascending()(before[pos as int], before[b - 1]));
                    }
                } else {
                    assert(ascending()(before[a - 1], before[b - 1]));
                }
            }
        }
        i += 1;
    }
    proof {
        assert(widths.take(i as int) == widths);
        assert(total_ordering(ascending()));
        widths.lemma_sort_by_ensures(ascending());
        lemma_sorted_unique(sorted@, widths.sort_by(ascending()), ascending());
    }
    sorted
}

/// Copies of the lines `lines[from..to]`.
fn clone_lines(lines: &Vec<SongLine>, from: usize, to: usize) -> (r: Vec<SongLine>)
    requires
        from <= to <= lines.len(),
    ensures
        r.deep_view() == lines.deep_view().subrange(from as int, to as int),
{
    let mut r: Vec<SongLine> = Vec::new();
    let mut i: usize = from;
    assert(lines.deep_view().len() == lines.len());
    assert(r.deep_view() =~= lines.deep_view().subrange(from as int, from as int));
    while i < to
        invariant
            from <= i <= to <= lines.len(),
            lines.deep_view().len() == lines.len(),
            r.deep_view() == lines.deep_view().subrange(from as int, i as int),
        decreases to - i,
    {
        let ghost before = r;
        let line = lines[i].clone();
        r.push(line);
        proof {
            lemma_deep_push(before, r, line);
            assert(lines.deep_view()[i as int] == lines[i as int]@);
            assert(lines.deep_view().subrange(from as int, i + 1) =~= lines.deep_view().subrange(
                from as int,
                i as int,
            ).push(lines[i as int]@));
        }
        i += 1;
    }
    r
}

/// The lines as they are laid out in a place of the given width, broken at
/// `limit`.
fn fit_lines(lines: &[SongLine], width: usize, limit: usize) -> (r: Vec<SongLine>)
    ensures
        r.deep_view() == fitted_lines(lines.deep_view(), width as int, limit as int),
{
    let mut all: Vec<SongLine> = Vec::new();
    let ghost views = lines.deep_view();
    let mut i: usize = 0;
    assert(views.len() == lines.len());
    assert(views.take(0) == Seq::<LineView>::empty());
    assert(all.deep_view() =~= Seq::<LineView>::empty());
    while i < lines.len()
        invariant
            i <= lines.len(),
            views == lines.deep_view(),
            views.len() == lines.len(),
            all.deep_view() == fitted_lines(views.take(i as int), width as int, limit as int),
        decreases lines.len() - i,
    {
        proof {
            assert(views.take(i + 1).drop_last() == views.take(i as int));
            assert(views[i as int] == lines[i as int]@);
        }
        let wide = match lines[i].measured() {
            Some(w) => w > width || w > limit,
            None => true,
        };
        let mut more = if wide {
            lines[i].break_at(limit)
        } else {
            let mut one: Vec<SongLine> = Vec::new();
            let ghost none = one;
            let line = lines[i].clone();
            one.push(line);
            proof {
                lemma_deep_push(none, one, line);
                assert(one.deep_view() =~= seq![lines[i as int]@]);
            }
            one
        };
        let ghost a = all;
        let ghost b = more;
        all.append(&mut more);
        proof {
            lemma_deep_append(a, b, all);
        }
        i += 1;
    }
    assert(views.take(i as int) == views);
    all
}

/// Packs lines into columns for a place of the given height, of which two
/// rows are kept for the border.
fn pack_lines(all: &Vec<SongLine>, height: usize) -> (r: Vec<Column>)
    ensures
        r.deep_view() == packed(all.deep_view(), height as int - 2),
{
    let mut columns: Vec<Column> = Vec::new();
    let mut start: usize = 0;
    let mut count: usize = 0;
    let mut filled: usize = 0;
    let mut n: usize = 0;
    let ghost views = all.deep_view();
    let ghost room = height as int - 2;
    assert(views.len() == all.len());
    assert(columns.deep_view() =~= Seq::<Seq<LineView>>::empty());
    while n < all.len()
        invariant
            n <= all.len(),
            views == all.deep_view(),
            views.len() == all.len(),
            room == height as int - 2,
            columns.deep_view() == packing(views, n as int, room).columns,
            start == packing(views, n as int, room).start,
            count == packing(views, n as int, room).count,
            filled == packing(views, n as int, room).height,
        decreases all.len() - n,
    {
        proof {
            lemma_packing(views, n as int, room);
            assert(views[n as int] == all[n as int]@);
        }
        let h = all[n].height();
        let over = count > 0 && (height < 2 || filled + h > height - 2);
        if over {
            let column = Column::from(clone_lines(all, start, start + count));
            let ghost before = columns;
            columns.push(column);
            proof {
                lemma_deep_push(before, columns, column);
            }
            start = start + count;
            count = 1;
            filled = h;
        } else {
            filled = filled + h;
            count = count + 1;
        }
        n += 1;
    }
    proof {
        lemma_packing(views, n as int, room);
    }
    let column = Column::from(clone_lines(all, start, all.len()));
    let ghost before = columns;
    columns.push(column);
    proof {
        lemma_deep_push(before, columns, column);
    }
    columns
}

/// Sets the lines of a song in columns for a place of the given width and
/// height. Lines wider than the place, or wider than the median line and
/// `extra_column_size` together, are broken between their words; the lines
/// are then packed into columns, of which none is empty and each either
/// fits the height less the two rows of the border or is one line that is
/// too high. Without lines there is no column.
pub fn wrap_lines(lines: &[SongLine], width: usize, height: usize, extra_column_size: usize) -> (r:
    Vec<Column>)
    ensures
        r.deep_view() == columns_of(
            lines.deep_view(),
            width as int,
            height as int,
            extra_column_size as int,
        ),
        forall|i: int|
            0 <= i < r.deep_view().len() ==> column_fits(
                #[trigger] r.deep_view()[i],
                height as int - 2,
            ),
{
    assert(lines.deep_view().len() == lines.len());
    if lines.len() == 0 {
        let none: Vec<Column> = Vec::new();
        assert(none.deep_view() =~= Seq::<Seq<LineView>>::empty());
        return none;
    }
    let sorted = sorted_widths(lines);
    let middle = sorted[sorted.len() / 2];
    let limit = match middle.checked_add(extra_column_size) {
        Some(n) => n,
        None => usize::MAX,
    };
    let all = fit_lines(lines, width, limit);
    let columns = pack_lines(&all, height);
    proof {
        let expected = columns_of(
            lines.deep_view(),
            width as int,
            height as int,
            extra_column_size as int,
        );
        lemma_columns_fit(
            lines.deep_view(),
            width as int,
            height as int,
            extra_column_size as int,
        );
        assert(columns.deep_view() == expected);
        assert forall|i: int| 0 <= i < columns.deep_view().len() implies column_fits(
            #[trigger] columns.deep_view()[i],
            height as int - 2,
        ) by {
            assert(column_fits(expected[i], height as int - 2));
        }
    }
    columns
}

} // verus!
