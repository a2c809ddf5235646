//! What a block map shows at one moment: rows of wrapped text and rows of blocks, and how
//! positions among them correspond to positions in the wrapped text.
use vstd::prelude::*;
use crate::block_map::{
    arranged_places_ok, block_rows, blocks_ok, edits_account, edits_ok, moved, places_ok,
    BlockMap, RowEdit,
};
use crate::block_transforms::{
    all_fit, all_wf, in_rows, lines_of, out_rows, placed, placed_split,
    rows_are_counted, transform_views, AlignedView, BlockDisposition, BlockId,
    BlockStyle, Transform, TransformSummary, TransformView,
};
use crate::block_chunks::{
    block_text_feeds, count_feeds, feeds, feeds_add, piece_of, row_offset, row_offset_is,
    row_offset_whole, runs_len, BlockChunks, Chunk,
};
use crate::point::{Bias, Point};
use crate::shown_text::{
    feed_if, row_text, rows_text, rows_text_of_block, rows_text_of_rows, runs_fit, wrap_row_at,
    wrapped_bytes, wrapped_style_list, wrapped_styles, wrapped_styles_split, wrapped_text,
    wrapped_text_feeds, wrapped_text_splits,
};
use crate::wrap_rows::{
    char_count, clipped, clipped_is_valid, goes_on, is_wrapping, longest_among, plain_style,
    TextStyle, WrapLineView, WrapSnapshot,
};

verus! {

/// A position among the rows that a block map shows.
#[derive(Clone, Copy, Debug, Default, PartialEq, Eq, PartialOrd, Ord, Structural)]
pub struct BlockPoint(pub Point);

impl BlockPoint {
    /// The position in row `row` and column `column`.
    pub fn new(row: u32, column: u32) -> (r: BlockPoint)
        ensures
            r == BlockPoint(Point { row, column }),
    {
        BlockPoint(Point { row, column })
    }
}

/// What a row shows: a block, a line of the buffer, or the continuation of one.
#[derive(Clone, Copy, Debug, PartialEq, Eq, Structural)]
pub enum DisplayRow {
    Block(BlockId, Option<BlockStyle>),
    Buffer(u32),
    Wrap,
}

/// The transform that shows row `r`, or their number if none does.
pub open spec fn at_row(t: Seq<TransformView>, r: int) -> int
    decreases t.len(),
{
    if t.len() == 0 {
        0
    } else if out_rows(t.drop_last()) <= r {
        if r < out_rows(t) {
            t.len() - 1
        } else {
            t.len() as int
        }
    } else {
        at_row(t.drop_last(), r)
    }
}

/// The stretch of wrapped rows that contains row `w`, or the number of transforms if none does.
pub open spec fn at_wrap_row(t: Seq<TransformView>, w: int) -> int
    decreases t.len(),
{
    if t.len() == 0 {
        0
    } else if in_rows(t.drop_last()) <= w {
        if w < in_rows(t) {
            t.len() - 1
        } else {
            t.len() as int
        }
    } else {
        at_wrap_row(t.drop_last(), w)
    }
}

proof fn lemma_rows_ascend(t: Seq<TransformView>, i: int, j: int)
    requires
        all_fit(t),
        0 <= i <= j <= t.len(),
    ensures
        0 <= in_rows(t.take(i)) <= in_rows(t.take(j)),
        0 <= out_rows(t.take(i)) <= out_rows(t.take(j)),
        i < j ==> out_rows(t.take(i)) < out_rows(t.take(j)),
    decreases j - i,
{
    assert(all_fit(t.take(i)));
    rows_are_counted(t.take(i));
    if i < j {
        lemma_rows_ascend(t, i, j - 1);
        assert(t.take(j).drop_last() =~= t.take(j - 1));
        assert(t[j - 1].fits());
        match t[j - 1] {
            TransformView::Rows(_) => {},
            TransformView::Block(b) => crate::block_transforms::line_count_bounds(b.body.text),
        }
    }
}

/// Transforms in front of others count no more rows than all of them.
pub proof fn rows_within(t: Seq<TransformView>, i: int)
    requires
        all_fit(t),
        0 <= i <= t.len(),
    ensures
        0 <= in_rows(t.take(i)) <= in_rows(t),
        0 <= out_rows(t.take(i)) <= out_rows(t),
{
    assert(t.take(t.len() as int) =~= t);
    lemma_rows_ascend(t, i, t.len() as int);
}

proof fn lemma_take_step(t: Seq<TransformView>, i: int)
    requires
        0 <= i < t.len(),
    ensures
        in_rows(t.take(i + 1)) == in_rows(t.take(i)) + t[i].input_rows(),
        out_rows(t.take(i + 1)) == out_rows(t.take(i)) + t[i].output_rows(),
{
    assert(t.take(i + 1).drop_last() =~= t.take(i));
}

/// The transform that shows a row begins at or before the row and ends after it.
pub proof fn at_row_contains(t: Seq<TransformView>, r: int)
    requires
        all_fit(t),
        0 <= r,
    ensures
        0 <= at_row(t, r) <= t.len(),
        at_row(t, r) < t.len() ==> out_rows(t.take(at_row(t, r))) <= r < out_rows(
            t.take(at_row(t, r) + 1),
        ),
        at_row(t, r) == t.len() <==> r >= out_rows(t),
    decreases t.len(),
{
    if t.len() > 0 {
        let rest = t.drop_last();
        assert(all_fit(rest));
        assert(t.take(t.len() as int) =~= t);
        assert(t.take(t.len() - 1) =~= rest);
        lemma_rows_ascend(t, t.len() - 1, t.len() as int);
        if out_rows(rest) > r {
            at_row_contains(rest, r);
            let i = at_row(rest, r);
            assert(rest.take(i) =~= t.take(i));
            assert(rest.take(i + 1) =~= t.take(i + 1));
        }
    }
}

/// Only one transform shows a row.
pub proof fn at_row_is(t: Seq<TransformView>, r: int, i: int)
    requires
        all_fit(t),
        0 <= i < t.len(),
        out_rows(t.take(i)) <= r < out_rows(t.take(i + 1)),
    ensures
        at_row(t, r) == i,
{
    lemma_rows_ascend(t, 0, i);
    at_row_contains(t, r);
    let k = at_row(t, r);
    assert(t.take(t.len() as int) =~= t);
    if k < i {
        lemma_rows_ascend(t, k + 1, i);
    } else if k > i {
        lemma_rows_ascend(t, i + 1, k);
    }
}

/// The stretch that contains a wrapped row begins at or before the row and ends after it.
pub proof fn at_wrap_row_contains(t: Seq<TransformView>, w: int)
    requires
        all_fit(t),
        0 <= w,
    ensures
        0 <= at_wrap_row(t, w) <= t.len(),
        at_wrap_row(t, w) < t.len() ==> {
            let i = at_wrap_row(t, w);
            &&& t[i] is Rows
            &&& in_rows(t.take(i)) <= w < in_rows(t.take(i + 1))
        },
        at_wrap_row(t, w) == t.len() <==> w >= in_rows(t),
    decreases t.len(),
{
    if t.len() > 0 {
        let rest = t.drop_last();
        assert(all_fit(rest));
        assert(t.take(t.len() as int) =~= t);
        assert(t.take(t.len() - 1) =~= rest);
        lemma_rows_ascend(t, t.len() - 1, t.len() as int);
        if in_rows(rest) > w {
            at_wrap_row_contains(rest, w);
            let i = at_wrap_row(rest, w);
            assert(rest.take(i) =~= t.take(i));
            assert(rest.take(i + 1) =~= t.take(i + 1));
        }
    }
}

/// Only one stretch contains a wrapped row.
pub proof fn at_wrap_row_is(t: Seq<TransformView>, w: int, i: int)
    requires
        all_fit(t),
        0 <= i < t.len(),
        in_rows(t.take(i)) <= w < in_rows(t.take(i + 1)),
    ensures
        at_wrap_row(t, w) == i,
{
    lemma_rows_ascend(t, 0, i);
    at_wrap_row_contains(t, w);
    let k = at_wrap_row(t, w);
    assert(t.take(t.len() as int) =~= t);
    if k < i {
        lemma_rows_ascend(t, k + 1, i);
    } else if k > i {
        lemma_rows_ascend(t, i + 1, k);
    }
}

/// The length of a row of a block: its text, moved to the column of the block unless it is empty.
pub open spec fn block_line_len(b: AlignedView, line: int) -> int {
    let len = lines_of(b.body.text)[line].len() as int;
    if len > 0 {
        len + b.column
    } else {
        0
    }
}

/// The length of a row that is shown.
pub open spec fn shown_len(t: Seq<TransformView>, lines: Seq<WrapLineView>, r: int) -> int {
    let i = at_row(t, r);
    let over = r - out_rows(t.take(i));
    match t[i] {
        TransformView::Rows(_) => lines[in_rows(t.take(i)) + over].text.len() as int,
        TransformView::Block(b) => block_line_len(b, over),
    }
}

/// The end of the last row that is shown.
pub open spec fn end_point(t: Seq<TransformView>, lines: Seq<WrapLineView>) -> Point {
    let row = out_rows(t) - 1;
    Point { row: row as u32, column: shown_len(t, lines, row) as u32 }
}

/// Where a position of the wrapped text is shown.
pub open spec fn shown_point(t: Seq<TransformView>, lines: Seq<WrapLineView>, p: Point) -> Point {
    let i = at_wrap_row(t, p.row as int);
    if i == t.len() {
        end_point(t, lines)
    } else {
        Point {
            row: (out_rows(t.take(i)) + (p.row - in_rows(t.take(i)))) as u32,
            column: p.column,
        }
    }
}

/// The position of the wrapped text that a shown position stands for. A block above a line stands
/// for the beginning of its first row, one below a line for the end of its last row.
pub open spec fn wrapped_point(t: Seq<TransformView>, lines: Seq<WrapLineView>, p: Point) -> Point {
    let i = at_row(t, p.row as int);
    let start = in_rows(t.take(i));
    if i == t.len() {
        Point { row: (lines.len() - 1) as u32, column: lines.last().text.len() as u32 }
    } else {
        match t[i] {
            TransformView::Rows(_) => Point {
                row: (start + (p.row - out_rows(t.take(i)))) as u32,
                column: p.column,
            },
            TransformView::Block(b) => if b.disposition == BlockDisposition::Above {
                Point { row: start as u32, column: 0 }
            } else {
                Point { row: (start - 1) as u32, column: lines[start - 1].text.len() as u32 }
            },
        }
    }
}

/// The longest row that is shown: that of the wrapped text, unless a block has a longer one.
pub open spec fn longest_shown(t: Seq<TransformView>, lines: Seq<WrapLineView>) -> int {
    let row = longest_among(lines, lines.len() as int);
    let s = total_summary(t);
    if s.longest_row_in_block_chars > char_count(lines[row].text) {
        s.longest_row_in_block as int
    } else {
        shown_point(t, lines, Point { row: row as u32, column: 0 }).row as int
    }
}

/// The last stretch of wrapped rows among the first `i` transforms, or -1.
pub open spec fn rows_before(t: Seq<TransformView>, i: int) -> int
    decreases i,
{
    if i <= 0 {
        -1
    } else if t[i - 1] is Rows {
        i - 1
    } else {
        rows_before(t, i - 1)
    }
}

/// The first stretch of wrapped rows from transform `i` on, or their number.
pub open spec fn rows_from(t: Seq<TransformView>, i: int) -> int
    decreases t.len() - i,
{
    if i >= t.len() || t[i] is Rows {
        i
    } else {
        rows_from(t, i + 1)
    }
}

/// The valid position that a shown position stands for: one in the wrapped text. In a block it is
/// the end of the text before it or the beginning of the text behind it.
pub open spec fn clipped_point(
    t: Seq<TransformView>,
    lines: Seq<WrapLineView>,
    p: Point,
    bias: Bias,
) -> Point {
    let i = at_row(t, p.row as int);
    if i == t.len() {
        end_point(t, lines)
    } else {
        let start = in_rows(t.take(i));
        let end = in_rows(t.take(i + 1));
        if t[i] is Rows && p.column == 0 && p.row == out_rows(t.take(i)) {
            p
        } else if t[i] is Rows {
            let row = start + (p.row - out_rows(t.take(i)));
            shown_point(t, lines, clipped(lines, Point { row: row as u32, column: p.column }, bias))
        } else if (bias == Bias::Left && start > 0) || end == in_rows(t) {
            let j = rows_before(t, i);
            Point {
                row: (out_rows(t.take(j + 1)) - 1) as u32,
                column: lines[in_rows(t.take(j + 1)) - 1].text.len() as u32,
            }
        } else {
            Point { row: out_rows(t.take(rows_from(t, i))) as u32, column: 0 }
        }
    }
}

proof fn lemma_rows_before(t: Seq<TransformView>, i: int)
    requires
        all_fit(t),
        0 <= i <= t.len(),
    ensures
        -1 <= rows_before(t, i) < i,
        rows_before(t, i) >= 0 ==> t[rows_before(t, i)] is Rows,
        in_rows(t.take(rows_before(t, i) + 1)) == in_rows(t.take(i)),
        in_rows(t.take(i)) > 0 ==> rows_before(t, i) >= 0,
    decreases i,
{
    if i > 0 {
        lemma_take_step(t, i - 1);
        if !(t[i - 1] is Rows) {
            lemma_rows_before(t, i - 1);
        }
    } else {
        assert(t.take(0) =~= Seq::empty());
    }
}

proof fn lemma_rows_from(t: Seq<TransformView>, i: int)
    requires
        all_fit(t),
        0 <= i <= t.len(),
    ensures
        i <= rows_from(t, i) <= t.len(),
        rows_from(t, i) < t.len() ==> t[rows_from(t, i)] is Rows,
        in_rows(t.take(rows_from(t, i))) == in_rows(t.take(i)),
        in_rows(t.take(i)) < in_rows(t) ==> rows_from(t, i) < t.len(),
    decreases t.len() - i,
{
    if i < t.len() && !(t[i] is Rows) {
        lemma_take_step(t, i);
        lemma_rows_from(t, i + 1);
    }
    assert(t.take(t.len() as int) =~= t);
}

/// What a row shows.
pub open spec fn display_row(t: Seq<TransformView>, lines: Seq<WrapLineView>, r: int) -> DisplayRow {
    let i = at_row(t, r);
    match t[i] {
        TransformView::Block(b) => DisplayRow::Block(b.id, b.body.style),
        TransformView::Rows(_) => {
            let w = in_rows(t.take(i)) + (r - out_rows(t.take(i)));
            if w > 0 && goes_on(lines, w - 1) {
                DisplayRow::Wrap
            } else {
                DisplayRow::Buffer(lines[w].start.row)
            }
        },
    }
}

/// What transforms add up to.
pub open spec fn total_summary(t: Seq<TransformView>) -> TransformSummary
    decreases t.len(),
{
    if t.len() == 0 {
        TransformSummary {
            input_rows: 0,
            output_rows: 0,
            longest_row_in_block: 0,
            longest_row_in_block_chars: 0,
        }
    } else {
        total_summary(t.drop_last()).plus(t.last().summary())
    }
}

/// Whether transforms belong to wrapped rows and everything can be counted.
pub open spec fn snapshot_ok(t: Seq<TransformView>, lines: Seq<WrapLineView>) -> bool {
    &&& is_wrapping(lines)
    &&& all_fit(t)
    &&& in_rows(t) == lines.len()
    &&& out_rows(t) <= u32::MAX
    &&& places_ok(placed(t), in_rows(t))
}

/// A row of wrapped text leads to where it is shown and back.
pub proof fn wrapped_text_round_trip(t: Seq<TransformView>, lines: Seq<WrapLineView>, p: Point)
    requires
        snapshot_ok(t, lines),
        p.row < lines.len(),
    ensures
        wrapped_point(t, lines, shown_point(t, lines, p)) == p,
{
    at_wrap_row_contains(t, p.row as int);
    let i = at_wrap_row(t, p.row as int);
    lemma_take_step(t, i);
    let r = out_rows(t.take(i)) + (p.row - in_rows(t.take(i)));
    lemma_rows_ascend(t, 0, i);
    assert(t.take(t.len() as int) =~= t);
    lemma_rows_ascend(t, i + 1, t.len() as int);
    at_row_is(t, r, i);
}

/// Every shown position stands for one in a row of the wrapped text; the end of a row stands for a
/// position within that row.
pub proof fn wrapped_point_in_rows(t: Seq<TransformView>, lines: Seq<WrapLineView>, p: Point)
    requires
        snapshot_ok(t, lines),
    ensures
        wrapped_point(t, lines, p).row < lines.len(),
{
    at_row_contains(t, p.row as int);
    let i = at_row(t, p.row as int);
    assert(t.take(t.len() as int) =~= t);
    if i < t.len() {
        lemma_take_step(t, i);
        lemma_rows_ascend(t, 0, i);
        lemma_rows_ascend(t, i + 1, t.len() as int);
        match t[i] {
            TransformView::Rows(_) => {},
            TransformView::Block(b) => if b.disposition == BlockDisposition::Below {
                lemma_below_has_row(t, i);
            } else {
                lemma_above_has_row(t, i);
            },
        }
    }
}

/// A row shows a block exactly if no row of wrapped text is shown there.
pub proof fn block_rows_show_no_text(t: Seq<TransformView>, lines: Seq<WrapLineView>, r: u32)
    requires
        snapshot_ok(t, lines),
        r < out_rows(t),
    ensures
        t[at_row(t, r as int)] is Block <==> forall|w: u32|
            w < lines.len() ==> #[trigger] shown_point(t, lines, Point { row: w, column: 0 }).row != r,
{
    at_row_contains(t, r as int);
    let i = at_row(t, r as int);
    lemma_take_step(t, i);
    assert(t.take(t.len() as int) =~= t);
    lemma_rows_ascend(t, i + 1, t.len() as int);
    lemma_rows_ascend(t, 0, i);
    if t[i] is Block {
        assert forall|w: u32| w < lines.len() implies #[trigger] shown_point(
            t,
            lines,
            Point { row: w, column: 0 },
        ).row != r by {
            at_wrap_row_contains(t, w as int);
            let k = at_wrap_row(t, w as int);
            lemma_take_step(t, k);
            lemma_rows_ascend(t, 0, k);
            lemma_rows_ascend(t, k + 1, t.len() as int);
            let shown = out_rows(t.take(k)) + (w - in_rows(t.take(k)));
            at_row_is(t, shown, k);
        }
    } else {
        let w = in_rows(t.take(i)) + (r - out_rows(t.take(i)));
        at_wrap_row_is(t, w, i);
        assert(shown_point(t, lines, Point { row: w as u32, column: 0 }).row == r);
    }
}

/// A position in a row of wrapped text leads there and back.
pub proof fn rows_point(t: Seq<TransformView>, lines: Seq<WrapLineView>, p: Point)
    requires
        snapshot_ok(t, lines),
        p.row < out_rows(t),
        t[at_row(t, p.row as int)] is Rows,
    ensures
        shown_point(t, lines, wrapped_point(t, lines, p)) == p,
{
    at_row_contains(t, p.row as int);
    let i = at_row(t, p.row as int);
    lemma_take_step(t, i);
    assert(t.take(t.len() as int) =~= t);
    lemma_rows_ascend(t, i + 1, t.len() as int);
    lemma_rows_ascend(t, 0, i);
    let w = in_rows(t.take(i)) + (p.row - out_rows(t.take(i)));
    at_wrap_row_is(t, w, i);
}

/// A row of wrapped text is shown in a row of its own, which is as long.
pub proof fn shown_in_rows(t: Seq<TransformView>, lines: Seq<WrapLineView>, p: Point)
    requires
        snapshot_ok(t, lines),
        p.row < lines.len(),
    ensures
        ({
            let s = shown_point(t, lines, p);
            &&& s.column == p.column
            &&& s.row < out_rows(t)
            &&& t[at_row(t, s.row as int)] is Rows
            &&& shown_len(t, lines, s.row as int) == lines[p.row as int].text.len()
        }),
{
    at_wrap_row_contains(t, p.row as int);
    let i = at_wrap_row(t, p.row as int);
    lemma_take_step(t, i);
    let r = out_rows(t.take(i)) + (p.row - in_rows(t.take(i)));
    lemma_rows_ascend(t, 0, i);
    assert(t.take(t.len() as int) =~= t);
    lemma_rows_ascend(t, i + 1, t.len() as int);
    at_row_is(t, r, i);
}

/// Clipping leads to a row of wrapped text, unless the position is behind the last row and a
/// block is shown there.
pub proof fn clipped_is_in_text(
    t: Seq<TransformView>,
    lines: Seq<WrapLineView>,
    p: Point,
    bias: Bias,
)
    requires
        snapshot_ok(t, lines),
        p.row < out_rows(t),
    ensures
        clipped_point(t, lines, p, bias).row < out_rows(t),
        t[at_row(t, clipped_point(t, lines, p, bias).row as int)] is Rows,
        clipped_point(t, lines, p, bias).column <= shown_len(
            t,
            lines,
            clipped_point(t, lines, p, bias).row as int,
        ),
{
    at_row_contains(t, p.row as int);
    let i = at_row(t, p.row as int);
    lemma_take_step(t, i);
    assert(t.take(t.len() as int) =~= t);
    lemma_rows_ascend(t, 0, i);
    lemma_rows_ascend(t, i + 1, t.len() as int);
    if t[i] is Rows {
        let w = in_rows(t.take(i)) + (p.row - out_rows(t.take(i)));
        let q = Point { row: w as u32, column: p.column };
        clipped_is_valid(lines, q, bias);
        shown_in_rows(t, lines, clipped(lines, q, bias));
    } else if (bias == Bias::Left && in_rows(t.take(i)) > 0) || in_rows(t.take(i + 1))
        == in_rows(t) {
        lemma_rows_before(t, i);
        let j = rows_before(t, i);
        lemma_take_step(t, j);
        lemma_rows_ascend(t, 0, j);
        lemma_rows_ascend(t, j + 1, i);
        assert(t[j].fits());
        at_row_is(t, out_rows(t.take(j + 1)) - 1, j);
    } else {
        lemma_rows_from(t, i);
        let j = rows_from(t, i);
        lemma_take_step(t, j);
        lemma_rows_ascend(t, 0, j);
        lemma_rows_ascend(t, j + 1, t.len() as int);
        assert(t[j].fits());
        at_row_is(t, out_rows(t.take(j)), j);
    }
}

/// A clipped position leads to the wrapped text and back.
pub proof fn clipped_round_trip(
    t: Seq<TransformView>,
    lines: Seq<WrapLineView>,
    p: Point,
    bias: Bias,
)
    requires
        snapshot_ok(t, lines),
        p.row < out_rows(t),
    ensures
        ({
            let c = clipped_point(t, lines, p, bias);
            shown_point(t, lines, wrapped_point(t, lines, c)) == c
        }),
{
    clipped_is_in_text(t, lines, p, bias);
    rows_point(t, lines, clipped_point(t, lines, p, bias));
}

/// Without a block below it, the last row of wrapped text is the last one that is shown.
pub proof fn last_row_is_last(t: Seq<TransformView>, lines: Seq<WrapLineView>)
    requires
        snapshot_ok(t, lines),
        t.last() is Rows,
    ensures
        ({
            let p = Point {
                row: (lines.len() - 1) as u32,
                column: lines.last().text.len() as u32,
            };
            shown_point(t, lines, p) == end_point(t, lines)
        }),
{
    let n = t.len() as int;
    let w = lines.len() - 1;
    rows_are_counted(t);
    at_wrap_row_contains(t, w);
    at_row_contains(t, out_rows(t) - 1);
    let i = n - 1;
    assert(t.take(n) =~= t);
    assert(t.take(i + 1).drop_last() =~= t.take(i));
    lemma_take_step(t, i);
    lemma_rows_ascend(t, 0, i);
    assert(t[i].fits());
    at_wrap_row_is(t, w, i);
    at_row_is(t, out_rows(t) - 1, i);
}

/// Rows of wrapped text are shown in their order.
pub proof fn wrapped_rows_ascend(t: Seq<TransformView>, lines: Seq<WrapLineView>, p: Point, q: Point)
    requires
        snapshot_ok(t, lines),
        p.row < q.row < lines.len(),
    ensures
        shown_point(t, lines, p).row < shown_point(t, lines, q).row < out_rows(t),
{
    at_wrap_row_contains(t, p.row as int);
    at_wrap_row_contains(t, q.row as int);
    let i = at_wrap_row(t, p.row as int);
    let j = at_wrap_row(t, q.row as int);
    assert(t.take(t.len() as int) =~= t);
    lemma_take_step(t, i);
    lemma_take_step(t, j);
    lemma_rows_ascend(t, 0, i);
    lemma_rows_ascend(t, j + 1, t.len() as int);
    if i < j {
        lemma_rows_ascend(t, i + 1, j);
    } else if j < i {
        lemma_rows_ascend(t, j + 1, i);
    }
}

/// What a block map shows at one moment.
#[derive(Debug)]
pub struct BlockSnapshot {
    wrap_snapshot: WrapSnapshot,
    transforms: Vec<Transform>,
}

// A transform with the rows shown and the wrapped rows in front of it.
struct Place {
    index: usize,
    output: u32,
    input: u32,
}

spec fn place_ok(p: Place, t: Seq<TransformView>, i: int) -> bool {
    &&& p.index == i
    &&& 0 <= i <= t.len()
    &&& p.output == out_rows(t.take(i))
    &&& p.input == in_rows(t.take(i))
}

impl BlockSnapshot {
    /// The rows and blocks in the order in which they are shown.
    pub closed spec fn transforms(&self) -> Seq<TransformView> {
        transform_views(self.transforms@)
    }

    /// The wrapped rows.
    pub closed spec fn lines(&self) -> Seq<WrapLineView> {
        self.wrap_snapshot@
    }

    /// Whether the transforms belong to the wrapped rows and everything can be counted.
    pub closed spec fn wf(&self) -> bool {
        &&& all_wf(self.transforms@)
        &&& snapshot_ok(transform_views(self.transforms@), self.wrap_snapshot@)
    }

    /// A well-formed snapshot satisfies what the laws of snapshots ask for.
    pub proof fn wf_is_ok(&self)
        requires
            self.wf(),
        ensures
            snapshot_ok(self.transforms(), self.lines()),
    {
    }

    proof fn lemma_transform(&self, i: int)
        requires
            self.wf(),
            0 <= i < self.transforms().len(),
        ensures
            self.transforms@[i].wf(),
            self.transforms()[i] == self.transforms@[i]@,
            self.transforms()[i].fits(),
            self.transforms@[i].summary.input_rows == self.transforms()[i].input_rows(),
            self.transforms@[i].summary.output_rows == self.transforms()[i].output_rows(),
            in_rows(self.transforms().take(i + 1)) == in_rows(self.transforms().take(i))
                + self.transforms()[i].input_rows(),
            out_rows(self.transforms().take(i + 1)) == out_rows(self.transforms().take(i))
                + self.transforms()[i].output_rows(),
            0 <= in_rows(self.transforms().take(i)) <= in_rows(self.transforms().take(i + 1))
                <= self.lines().len(),
            0 <= out_rows(self.transforms().take(i)) < out_rows(self.transforms().take(i + 1))
                <= u32::MAX,
            out_rows(self.transforms().take(i + 1)) <= out_rows(self.transforms()),
            is_wrapping(self.lines()),
    {
        let t = self.transforms();
        assert(self.transforms@[i].wf());
        lemma_take_step(t, i);
        lemma_rows_ascend(t, 0, i);
        lemma_rows_ascend(t, i, i + 1);
        assert(t.take(t.len() as int) =~= t);
        lemma_rows_ascend(t, i + 1, t.len() as int);
        match t[i] {
            TransformView::Rows(_) => {},
            TransformView::Block(b) => crate::block_transforms::line_count_bounds(b.body.text),
        }
    }

    fn seek(&self, row: u32) -> (r: Place)
        requires
            self.wf(),
        ensures
            place_ok(r, self.transforms(), at_row(self.transforms(), row as int)),
            r.index < self.transforms@.len() ==> {
                &&& r.output <= row
                &&& row - r.output < self.transforms()[r.index as int].output_rows()
            },
            r.index == self.transforms@.len() <==> row >= out_rows(self.transforms()),
    {
        let ghost t = self.transforms();
        let mut index: usize = 0;
        let mut output: u32 = 0;
        let mut input: u32 = 0;
        proof {
            assert(t.take(0) =~= Seq::empty());
        }
        while index < self.transforms.len()
            invariant
                self.wf(),
                t == self.transforms(),
                index <= t.len(),
                output == out_rows(t.take(index as int)),
                input == in_rows(t.take(index as int)),
                output <= row,
            decreases self.transforms.len() - index,
        {
            proof {
                self.lemma_transform(index as int);
            }
            let next: u32 = output + self.transforms[index].summary.output_rows;
            if row < next {
                proof {
                    at_row_is(t, row as int, index as int);
                }
                return Place { index, output, input };
            }
            output = next;
            input = input + self.transforms[index].summary.input_rows;
            index += 1;
        }
        proof {
            assert(t.take(t.len() as int) =~= t);
            at_row_contains(t, row as int);
        }
        Place { index, output, input }
    }

    fn seek_wrap_row(&self, row: u32) -> (r: Place)
        requires
            self.wf(),
        ensures
            place_ok(r, self.transforms(), at_wrap_row(self.transforms(), row as int)),
            r.index < self.transforms@.len() ==> {
                &&& r.input <= row
                &&& row - r.input < self.transforms()[r.index as int].input_rows()
            },
            r.index == self.transforms@.len() <==> row >= in_rows(self.transforms()),
    {
        let ghost t = self.transforms();
        let mut index: usize = 0;
        let mut output: u32 = 0;
        let mut input: u32 = 0;
        proof {
            assert(t.take(0) =~= Seq::empty());
        }
        while index < self.transforms.len()
            invariant
                self.wf(),
                t == self.transforms(),
                index <= t.len(),
                output == out_rows(t.take(index as int)),
                input == in_rows(t.take(index as int)),
                input <= row,
            decreases self.transforms.len() - index,
        {
            proof {
                self.lemma_transform(index as int);
            }
            let next: u32 = input + self.transforms[index].summary.input_rows;
            if row < next {
                proof {
                    at_wrap_row_is(t, row as int, index as int);
                }
                return Place { index, output, input };
            }
            input = next;
            output = output + self.transforms[index].summary.output_rows;
            index += 1;
        }
        proof {
            assert(t.take(t.len() as int) =~= t);
            at_wrap_row_contains(t, row as int);
        }
        Place { index, output, input }
    }

    /// What all transforms add up to.
    pub fn summary(&self) -> (r: TransformSummary)
        requires
            self.wf(),
        ensures
            r == total_summary(self.transforms()),
            r.input_rows == in_rows(self.transforms()),
            r.output_rows == out_rows(self.transforms()),
    {
        let ghost t = self.transforms();
        let mut total = TransformSummary {
            input_rows: 0,
            output_rows: 0,
            longest_row_in_block: 0,
            longest_row_in_block_chars: 0,
        };
        let mut i: usize = 0;
        proof {
            assert(t.take(0) =~= Seq::empty());
        }
        while i < self.transforms.len()
            invariant
                self.wf(),
                t == self.transforms(),
                i <= t.len(),
                total == total_summary(t.take(i as int)),
                total.input_rows == in_rows(t.take(i as int)),
                total.output_rows == out_rows(t.take(i as int)),
            decreases self.transforms.len() - i,
        {
            proof {
                self.lemma_transform(i as int);
                assert(t.take(i + 1).drop_last() =~= t.take(i as int));
                match t[i as int] {
                    TransformView::Rows(_) => {},
                    TransformView::Block(b) => {
                        let lines = lines_of(b.body.text);
                        crate::block_transforms::longest_line_exists(lines, lines.len() as int);
                    },
                }
            }
            total.add_summary(&self.transforms[i].summary);
            i += 1;
        }
        assert(t.take(i as int) =~= t);
        total
    }

    /// The length of a row in bytes.
    pub fn line_len(&self, row: u32) -> (r: u32)
        requires
            self.wf(),
            row < out_rows(self.transforms()),
        ensures
            r == shown_len(self.transforms(), self.lines(), row as int),
    {
        let p = self.seek(row);
        let over: u32 = row - p.output;
        proof {
            self.lemma_transform(p.index as int);
        }
        let transform: &Transform = &self.transforms[p.index];
        match &transform.block {
            Some(b) => {
                let (start, end) = crate::block_chunks::line_range(&b.body.text, over);
                let len: u32 = (end - start) as u32;
                if len > 0 {
                    len + b.column
                } else {
                    0
                }
            },
            None => self.wrap_snapshot.line_len(p.input + over),
        }
    }

    /// Whether a row shows a block.
    pub fn is_block_line(&self, row: u32) -> (r: bool)
        requires
            self.wf(),
        ensures
            r == (row < out_rows(self.transforms()) && self.transforms()[at_row(
                self.transforms(),
                row as int,
            )] is Block),
    {
        let p = self.seek(row);
        p.index < self.transforms.len() && !self.transforms[p.index].is_isomorphic()
    }

    /// The end of the last row.
    pub fn max_point(&self) -> (r: BlockPoint)
        requires
            self.wf(),
        ensures
            r.0 == end_point(self.transforms(), self.lines()),
    {
        let total: TransformSummary = self.summary();
        proof {
            rows_are_counted(self.transforms());
        }
        let row: u32 = total.output_rows - 1;
        BlockPoint::new(row, self.line_len(row))
    }

    /// Where a position of the wrapped text is shown.
    pub fn to_block_point(&self, wrap_point: Point) -> (r: BlockPoint)
        requires
            self.wf(),
        ensures
            r.0 == shown_point(self.transforms(), self.lines(), wrap_point),
    {
        let p = self.seek_wrap_row(wrap_point.row);
        if p.index == self.transforms.len() {
            return self.max_point();
        }
        proof {
            self.lemma_transform(p.index as int);
        }
        BlockPoint::new(p.output + (wrap_point.row - p.input), wrap_point.column)
    }

    /// The position of the wrapped text that a shown position stands for.
    pub fn to_wrap_point(&self, block_point: BlockPoint) -> (r: Point)
        requires
            self.wf(),
        ensures
            r == wrapped_point(self.transforms(), self.lines(), block_point.0),
    {
        let ghost t = self.transforms();
        let p = self.seek(block_point.0.row);
        if p.index == self.transforms.len() {
            return self.wrap_snapshot.max_point();
        }
        proof {
            self.lemma_transform(p.index as int);
        }
        match &self.transforms[p.index].block {
            Some(b) => match b.disposition {
                BlockDisposition::Above => Point { row: p.input, column: 0 },
                BlockDisposition::Below => {
                    proof {
                        lemma_below_has_row(t, p.index as int);
                    }
                    let row: u32 = p.input - 1;
                    Point { row, column: self.wrap_snapshot.line_len(row) }
                },
            },
            None => Point {
                row: p.input + (block_point.0.row - p.output),
                column: block_point.0.column,
            },
        }
    }

    /// The longest row: that of the wrapped text, unless a block has a longer one.
    pub fn longest_row(&self) -> (r: u32)
        requires
            self.wf(),
        ensures
            r == longest_shown(self.transforms(), self.lines()),
    {
        let row: u32 = self.wrap_snapshot.longest_row();
        let chars: u32 = self.wrap_snapshot.line_char_count(row);
        let total: TransformSummary = self.summary();
        if total.longest_row_in_block_chars > chars {
            total.longest_row_in_block
        } else {
            self.to_block_point(Point { row, column: 0 }).0.row
        }
    }

    /// The valid position that a shown position stands for.
    pub fn clip_point(&self, point: BlockPoint, bias: Bias) -> (r: BlockPoint)
        requires
            self.wf(),
        ensures
            r.0 == clipped_point(self.transforms(), self.lines(), point.0, bias),
    {
        let ghost t = self.transforms();
        let p = self.seek(point.0.row);
        if p.index == self.transforms.len() {
            return self.max_point();
        }
        proof {
            self.lemma_transform(p.index as int);
        }
        let transform: &Transform = &self.transforms[p.index];
        if transform.is_isomorphic() {
            if point.0.column == 0 && point.0.row == p.output {
                return point;
            }
            let row: u32 = p.input + (point.0.row - p.output);
            let clip: Point = self.wrap_snapshot.clip_point(
                Point { row, column: point.0.column },
                bias,
            );
            return self.to_block_point(clip);
        }
        let rows: u32 = self.wrap_snapshot.row_count();
        let left: bool = match bias {
            Bias::Left => p.input > 0,
            Bias::Right => false,
        };
        if left || p.input == rows {
            proof {
                lemma_rows_before(t, p.index as int);
            }
            let mut i: usize = p.index;
            let mut output: u32 = p.output;
            while !self.transforms[i - 1].is_isomorphic()
                invariant
                    self.wf(),
                    t == self.transforms(),
                    0 < i <= t.len(),
                    output == out_rows(t.take(i as int)),
                    in_rows(t.take(i as int)) > 0,
                    rows_before(t, i as int) == rows_before(t, p.index as int),
                    rows_before(t, i as int) >= 0,
                decreases i,
            {
                proof {
                    self.lemma_transform(i - 1);
                    lemma_rows_before(t, i - 1);
                }
                output = output - self.transforms[i - 1].summary.output_rows;
                i -= 1;
                proof {
                    if i == 0 {
                        assert(t.take(0) =~= Seq::empty());
                    }
                }
            }
            proof {
                self.lemma_transform(i - 1);
            }
            BlockPoint::new(output - 1, self.wrap_snapshot.line_len(p.input - 1))
        } else {
            proof {
                lemma_rows_from(t, p.index as int);
            }
            let mut i: usize = p.index;
            let mut output: u32 = p.output;
            while !self.transforms[i].is_isomorphic()
                invariant
                    self.wf(),
                    t == self.transforms(),
                    i < self.transforms.len(),
                    output == out_rows(t.take(i as int)),
                    in_rows(t.take(i as int)) < in_rows(t),
                    rows_from(t, i as int) == rows_from(t, p.index as int),
                decreases t.len() - i,
            {
                proof {
                    self.lemma_transform(i as int);
                    lemma_rows_from(t, i + 1);
                    assert(t.take(t.len() as int) =~= t);
                }
                output = output + self.transforms[i].summary.output_rows;
                i += 1;
            }
            BlockPoint::new(output, 0)
        }
    }

    /// The rows from `start_row` on, one after the other.
    pub fn buffer_rows(&self, start_row: u32) -> (r: BufferRows<'_>)
        requires
            self.wf(),
        ensures
            r.wf(),
            r.snapshot() == *self,
            r.next_row() == start_row,
    {
        let p = self.seek(start_row);
        BufferRows { snapshot: self, place: p, output_row: start_row }
    }

    /// What a row shows.
    fn row_at(&self, p: &Place, row: u32) -> (r: DisplayRow)
        requires
            self.wf(),
            p.index < self.transforms@.len(),
            place_ok(*p, self.transforms(), at_row(self.transforms(), row as int)),
            p.output <= row,
            row - p.output < self.transforms()[p.index as int].output_rows(),
        ensures
            r == display_row(self.transforms(), self.lines(), row as int),
    {
        proof {
            self.lemma_transform(p.index as int);
        }
        match &self.transforms[p.index].block {
            Some(b) => DisplayRow::Block(b.id, b.body.style),
            None => {
                let w: u32 = p.input + (row - p.output);
                if w > 0 && self.wrap_snapshot.goes_on(w - 1) {
                    DisplayRow::Wrap
                } else {
                    DisplayRow::Buffer(self.wrap_snapshot.start(w).row)
                }
            },
        }
    }
}

proof fn lemma_below_has_row(t: Seq<TransformView>, i: int)
    requires
        all_fit(t),
        places_ok(placed(t), in_rows(t)),
        0 <= i < t.len(),
        t[i] matches TransformView::Block(b) && b.disposition == BlockDisposition::Below,
    ensures
        in_rows(t.take(i)) >= 1,
{
    placed_split(t, i);
    placed_split(t, i + 1);
    assert(t.take(i + 1).drop_last() =~= t.take(i));
    let m = placed(t.take(i)).len() as int;
    assert(placed(t.take(i + 1))[m] == placed(t).take(m + 1)[m]);
    assert(placed(t)[m].line_row() >= 0);
}

proof fn lemma_above_has_row(t: Seq<TransformView>, i: int)
    requires
        all_fit(t),
        places_ok(placed(t), in_rows(t)),
        0 <= i < t.len(),
        t[i] matches TransformView::Block(b) && b.disposition == BlockDisposition::Above,
    ensures
        in_rows(t.take(i)) < in_rows(t),
{
    placed_split(t, i);
    placed_split(t, i + 1);
    assert(t.take(i + 1).drop_last() =~= t.take(i));
    let m = placed(t.take(i)).len() as int;
    assert(placed(t.take(i + 1))[m] == placed(t).take(m + 1)[m]);
    assert(placed(t)[m].line_row() < in_rows(t));
}

/// Goes over the rows of a snapshot.
pub struct BufferRows<'a> {
    snapshot: &'a BlockSnapshot,
    place: Place,
    output_row: u32,
}

impl<'a> BufferRows<'a> {
    /// The snapshot whose rows these are.
    pub closed spec fn snapshot(&self) -> BlockSnapshot {
        *self.snapshot
    }

    /// The row that comes next.
    pub closed spec fn next_row(&self) -> int {
        self.output_row as int
    }

    /// Whether the rows can be gone over.
    pub closed spec fn wf(&self) -> bool {
        &&& self.snapshot.wf()
        &&& place_ok(
            self.place,
            self.snapshot.transforms(),
            at_row(self.snapshot.transforms(), self.output_row as int),
        )
        &&& self.place.index < self.snapshot.transforms@.len() ==> {
            &&& self.place.output <= self.output_row
            &&& self.output_row - self.place.output < self.snapshot.transforms()[self.place.index as int].output_rows()
        }
        &&& self.place.index == self.snapshot.transforms@.len() <==> self.output_row >= out_rows(
            self.snapshot.transforms(),
        )
    }

    /// What the next row shows, or nothing behind the last one.
    pub fn next(&mut self) -> (r: Option<DisplayRow>)
        requires
            old(self).wf(),
        ensures
            final(self).wf(),
            final(self).snapshot() == old(self).snapshot(),
            old(self).next_row() < out_rows(old(self).snapshot().transforms()) ==> {
                &&& r == Some(
                    display_row(
                        old(self).snapshot().transforms(),
                        old(self).snapshot().lines(),
                        old(self).next_row(),
                    ),
                )
                &&& final(self).next_row() == old(self).next_row() + 1
            },
            old(self).next_row() >= out_rows(old(self).snapshot().transforms()) ==> {
                &&& r is None
                &&& final(self).next_row() == old(self).next_row()
            },
    {
        let ghost t = self.snapshot.transforms();
        if self.place.index == self.snapshot.transforms.len() {
            return None;
        }
        let row: DisplayRow = self.snapshot.row_at(&self.place, self.output_row);
        proof {
            self.snapshot.lemma_transform(self.place.index as int);
        }
        let transform: &Transform = &self.snapshot.transforms[self.place.index];
        let end: u32 = self.place.output + transform.summary.output_rows;
        let next: u32 = self.output_row + 1;
        if next == end {
            let index: usize = self.place.index + 1;
            self.place = Place {
                index,
                output: end,
                input: self.place.input + transform.summary.input_rows,
            };
            proof {
                assert(t.take(t.len() as int) =~= t);
                if index < t.len() {
                    self.snapshot.lemma_transform(index as int);
                    at_row_is(t, next as int, index as int);
                } else {
                    at_row_contains(t, next as int);
                }
            }
        } else {
            proof {
                at_row_is(t, next as int, self.place.index as int);
                at_row_contains(t, next as int);
            }
        }
        self.output_row = next;
        Some(row)
    }
}

/// Goes over the text of some rows of a snapshot.
pub struct Chunks<'a> {
    snapshot: &'a BlockSnapshot,
    place: Place,
    input: Vec<u8>,
    styles: Vec<TextStyle>,
    first: Ghost<int>,
    given: usize,
    input_pos: usize,
    block_chunks: Option<BlockChunks<'a>>,
    output_row: u32,
    max_output_row: u32,
    styled: bool,
}

proof fn lemma_wrap_row_at(t: Seq<TransformView>, i: int, m: int)
    requires
        all_fit(t),
        0 <= i <= t.len(),
        0 <= out_rows(t.take(i)) <= m,
    ensures
        in_rows(t.take(i)) <= wrap_row_at(t, m) <= in_rows(t),
        i < t.len() && t[i] is Rows && m <= out_rows(t.take(i + 1)) ==> wrap_row_at(t, m)
            == in_rows(t.take(i)) + (m - out_rows(t.take(i))),
{
    at_row_contains(t, m);
    let j = at_row(t, m);
    assert(t.take(t.len() as int) =~= t);
    if j < i {
        lemma_rows_ascend(t, j + 1, i);
    }
    lemma_rows_ascend(t, i, j);
    lemma_rows_ascend(t, j, t.len() as int);
    if j < t.len() {
        lemma_take_step(t, j);
        lemma_rows_ascend(t, j + 1, t.len() as int);
    }
    if i < t.len() && t[i] is Rows && m <= out_rows(t.take(i + 1)) {
        lemma_take_step(t, i);
        if m < out_rows(t.take(i + 1)) {
            at_row_is(t, m, i);
        } else if i + 1 < t.len() {
            lemma_take_step(t, i + 1);
            lemma_rows_ascend(t, i + 1, i + 2);
            at_row_is(t, m, i + 1);
        }
    }
}

proof fn lemma_one_feed()
    ensures
        feeds(seq![10u8]) == 1,
{
    reveal_with_fuel(feeds, 2);
    assert(seq![10u8].drop_last() =~= Seq::empty());
}

/// A piece of the rows from `w` to `we` is found in all rows from `w` on, and in those from `first` to
/// `ie`, with the same styles.
proof fn lemma_piece(
    lines: Seq<WrapLineView>,
    first: int,
    w: int,
    we: int,
    ie: int,
    c: int,
    k: int,
    styled: bool,
)
    requires
        first <= w <= we <= ie <= lines.len(),
        0 <= c,
        0 <= k,
        c + k <= wrapped_text(lines, w, we).len(),
    ensures
        ({
            let n = lines.len() as int;
            let x = wrapped_text(lines, first, w).len();
            let text = wrapped_text(lines, first, ie).subrange(x + c, x + c + k);
            &&& c + k <= wrapped_text(lines, w, n).len()
            &&& text == wrapped_text(lines, w, n).subrange(c, c + k)
            &&& text == wrapped_text(lines, w, we).subrange(c, c + k)
            &&& forall|j: int|
                c <= j < c + k ==> #[trigger] wrapped_styles(lines, w, n, styled)[j]
                    == wrapped_styles(lines, first, ie, styled)[x + j]
        }),
{
    let n = lines.len() as int;
    let x = wrapped_text(lines, first, w).len();
    wrapped_text_splits(lines, first, w, ie);
    wrapped_text_splits(lines, w, we, ie);
    wrapped_text_splits(lines, w, we, n);
    let text = wrapped_text(lines, first, ie).subrange(x + c, x + c + k);
    assert(text =~= wrapped_text(lines, w, n).subrange(c, c + k));
    assert(text =~= wrapped_text(lines, w, we).subrange(c, c + k));
    wrapped_styles_split(lines, first, w, ie, styled);
    wrapped_styles_split(lines, w, we, ie, styled);
    wrapped_styles_split(lines, w, we, n, styled);
}

/// Text that ends in front of the end of rows ends in the row that as many line feeds lead to.
proof fn lemma_rows_passed(lines: Seq<WrapLineView>, w: int, we: int, c: int, k: int)
    requires
        is_wrapping(lines),
        0 <= w < we <= lines.len(),
        0 <= c,
        0 <= k,
        c + k < wrapped_text(lines, w, we).len(),
    ensures
        ({
            let f = feeds(wrapped_text(lines, w, we).subrange(c, c + k));
            &&& 0 <= f
            &&& w + f < we
            &&& wrapped_text(lines, w, w + f).len() <= c + k
        }),
{
    let head = wrapped_text(lines, w, we);
    let before = head.take(c);
    let text = head.subrange(c, c + k);
    let after = head.skip(c + k);
    let f = feeds(text);
    assert(head =~= before + text + after);
    feeds_add(before, text);
    feeds_add(before + text, after);
    feeds_add(Seq::empty(), before);
    assert(Seq::<u8>::empty() + before =~= before);
    wrapped_text_feeds(lines, w, we);
    if we < lines.len() {
        assert(after.last() == 10);
        feeds_add(Seq::empty(), after.drop_last());
    }
    assert(w + f < we);
    wrapped_text_splits(lines, w, w + f, we);
    let passed = wrapped_text(lines, w, w + f);
    if f > 0 && c + k < passed.len() {
        wrapped_text_feeds(lines, w, w + f);
        let short = passed.drop_last();
        assert(short =~= (before + text) + short.skip(c + k));
        feeds_add(before + text, short.skip(c + k));
    }
}

impl<'a> Chunks<'a> {
    /// The snapshot whose text this is.
    pub closed spec fn snapshot(&self) -> BlockSnapshot {
        *self.snapshot
    }

    /// The block whose text comes next, if its text has been begun.
    pub closed spec fn begun(&self) -> Option<BlockChunks<'a>> {
        self.block_chunks
    }

    /// Whether the text has its styles.
    pub closed spec fn styled(&self) -> bool {
        self.styled
    }

    /// The row that the text has come to.
    pub closed spec fn row(&self) -> int {
        if self.given < self.input_pos {
            self.output_row - feeds(self.pending())
        } else {
            self.output_row as int
        }
    }

    /// The wrapped text that has been cut off and not been given yet.
    spec fn pending(&self) -> Seq<u8> {
        self.input@.subrange(self.given as int, self.input_pos as int)
    }

    /// The row at which the text ends.
    pub closed spec fn end_row(&self) -> int {
        self.max_output_row as int
    }

    /// The number of the transform that shows the row that the text has come to.
    pub open spec fn transform_here(&self) -> int {
        at_row(self.snapshot().transforms(), self.row())
    }

    /// Whether the row that the text has come to is one of wrapped text.
    pub open spec fn in_wrapped_rows(&self) -> bool {
        self.snapshot().transforms()[self.transform_here()] is Rows
    }

    /// The row of wrapped text that the text has come to.
    pub open spec fn wrapped_here(&self) -> int {
        let t = self.snapshot().transforms();
        in_rows(t.take(self.transform_here())) + (self.row() - out_rows(
            t.take(self.transform_here()),
        ))
    }

    /// How much of the row that the text has come to has been given.
    pub open spec fn column(&self) -> int {
        rows_text(
            self.snapshot().transforms(),
            self.snapshot().lines(),
            self.row(),
            self.end_row(),
        ).len() - self.remaining().len()
    }

    /// Whether a piece is the next one of wrapped text: the text from here on, as far as it goes, with
    /// the style that every byte of it has; or, behind the last row of wrapped text, a plain line
    /// feed.
    pub open spec fn is_wrapped_piece(&self, chunk: Chunk) -> bool {
        let lines = self.snapshot().lines();
        let w = self.wrapped_here();
        let c = self.column();
        let n = lines.len() as int;
        let text = wrapped_text(lines, w, n);
        let style = TextStyle {
            highlight: chunk.highlight_style,
            diagnostic: chunk.diagnostic,
        };
        &&& 0 <= c <= text.len()
        &&& if c < text.len() {
            &&& 0 < chunk.text@.len() <= text.len() - c
            &&& chunk.text@ == text.subrange(c, c + chunk.text@.len())
            &&& forall|j: int|
                c <= j < c + chunk.text@.len() ==> #[trigger] wrapped_styles(
                    lines,
                    w,
                    n,
                    self.styled(),
                )[j] == style
        } else {
            &&& chunk.text@ == seq![10u8]
            &&& style == plain_style()
        }
    }

    /// Whether this is the text of the block whose row the text has come to, from that row on.
    pub open spec fn opens(&self, a: BlockChunks<'a>) -> bool {
        let t = self.snapshot().transforms();
        let i = self.transform_here();
        let top = out_rows(t.take(i));
        let bottom = out_rows(t.take(i + 1));
        &&& t[i] matches TransformView::Block(b)
        &&& a.begins(
            b,
            self.row() - top,
            (if bottom <= self.end_row() {
                bottom
            } else {
                self.end_row()
            }) - top,
            self.styled(),
        )
    }

    /// Whether a piece is the next one of a block whose text is gone over: a piece of that text, or,
    /// behind its end, a line feed without a style.
    pub open spec fn follows(a: BlockChunks<'a>, chunk: Chunk, b: Option<BlockChunks<'a>>) -> bool {
        if a.offset() < a.end() {
            b is Some && a.gives(chunk, b->0)
        } else {
            &&& b is None
            &&& chunk.text@ == seq![10u8]
            &&& chunk.highlight_style is None
            &&& chunk.diagnostic is None
        }
    }

    /// The block whose text has been begun has its own styles, or none if styles are not asked for.
    pub proof fn begun_block_has_its_styles(&self)
        requires
            self.wf(),
            self.row() < self.end_row(),
            self.begun() is Some,
        ensures
            self.begun()->0.runs() == (if self.styled() {
                self.begun()->0.block().body.runs
            } else {
                Seq::empty()
            }),
            self.snapshot().transforms().contains(TransformView::Block(self.begun()->0.block())),
    {
        let i = self.place.index - 1;
        let t = self.snapshot.transforms();
        assert(self.block_ok(self.block_chunks->0));
        assert(0 <= i < t.len() && t[i] == TransformView::Block(self.begun()->0.block()));
    }

    /// The text that is still to come.
    pub closed spec fn remaining(&self) -> Seq<u8> {
        if self.given < self.input_pos {
            self.pending() + self.rest()
        } else {
            self.rest()
        }
    }

    /// The text behind what has been cut off.
    spec fn rest(&self) -> Seq<u8> {
        let t = self.snapshot.transforms();
        let lines = self.snapshot.lines();
        let r = self.output_row as int;
        let m = self.max_output_row as int;
        if r >= m {
            Seq::empty()
        } else {
            match self.block_chunks {
                Some(b) => b.remaining() + self.after(self.place.output as int),
                None => if t[self.place.index as int] is Rows && self.input_pos
                    == self.input@.len() {
                    self.after(r + 1)
                } else {
                    rows_text(t, lines, r, m)
                },
            }
        }
    }

    /// A line feed and the rows from `r` on, if there are any.
    spec fn after(&self, r: int) -> Seq<u8> {
        if r < self.max_output_row {
            seq![10u8] + rows_text(
                self.snapshot.transforms(),
                self.snapshot.lines(),
                r,
                self.max_output_row as int,
            )
        } else {
            Seq::empty()
        }
    }

    /// The wrapped text from row `w` to the end of what is shown.
    spec fn input_from(&self, w: int) -> Seq<u8> {
        wrapped_text(
            self.snapshot.lines(),
            w,
            wrap_row_at(self.snapshot.transforms(), self.max_output_row as int),
        )
    }

    /// Whether the text can be gone over.
    pub closed spec fn wf(&self) -> bool {
        let t = self.snapshot.transforms();
        &&& self.snapshot.wf()
        &&& self.styled ==> runs_fit(t)
        &&& self.max_output_row <= out_rows(t)
        &&& place_ok(self.place, t, self.place.index as int)
        &&& self.given <= self.input_pos <= self.input@.len()
        &&& self.input_ok()
        &&& self.given < self.input_pos ==> self.block_chunks is None && self.pending_ok()
        &&& self.output_row < self.max_output_row ==> match self.block_chunks {
            Some(b) => self.block_ok(b),
            None => self.between_ok(),
        }
    }

    /// Whether the wrapped text and its styles are those from the first row on.
    spec fn input_ok(&self) -> bool {
        let lines = self.snapshot.lines();
        let ie = wrap_row_at(self.snapshot.transforms(), self.max_output_row as int);
        &&& 0 <= self.first@ <= ie <= lines.len()
        &&& self.input@ == wrapped_text(lines, self.first@, ie)
        &&& self.styles@ == wrapped_styles(lines, self.first@, ie, self.styled)
    }

    /// Whether what has been cut off is the end of the wrapped rows that are shown together.
    spec fn pending_ok(&self) -> bool {
        let t = self.snapshot.transforms();
        let lines = self.snapshot.lines();
        let m = self.max_output_row as int;
        let r = self.row();
        let i = at_row(t, r);
        let end = out_rows(t.take(i + 1));
        let e = if end <= m {
            end
        } else {
            m
        };
        let w = in_rows(t.take(i)) + (r - out_rows(t.take(i)));
        let we = w + (e - r);
        &&& 0 <= i < t.len()
        &&& t[i] is Rows
        &&& out_rows(t.take(i)) <= r < end
        &&& r < m
        &&& self.first@ <= w
        &&& we <= wrap_row_at(t, m)
        &&& wrapped_text(lines, self.first@, w).len() <= self.given
        &&& wrapped_text(lines, self.first@, we).len() == self.input_pos
        &&& self.rest() == (if we < lines.len() {
            rows_text(t, lines, e, m)
        } else {
            self.after(end)
        })
    }

    spec fn block_ok(&self, b: BlockChunks<'a>) -> bool {
        let m = self.max_output_row as int;
        &&& self.first@ <= self.place.input
        &&& b.wf()
        &&& b.runs() == (if self.styled {
            b.block().body.runs
        } else {
            Seq::empty()
        })
        &&& 0 < self.place.index
        &&& self.snapshot.transforms()[self.place.index - 1] == TransformView::Block(b.block())
        &&& self.output_row + feeds(b.remaining()) == if self.place.output <= m {
            self.place.output - 1
        } else {
            m
        }
        &&& self.place.output > m && b.remaining().len() > 0 ==> b.remaining().last() == 10
        &&& self.place.output < m ==> self.input@.skip(self.input_pos as int) == self.input_from(
            self.place.input as int,
        )
    }

    spec fn between_ok(&self) -> bool {
        let t = self.snapshot.transforms();
        let w = self.place.input + (self.output_row - self.place.output);
        &&& self.place.index < t.len()
        &&& self.place.output <= self.output_row < out_rows(t.take(self.place.index + 1))
        &&& self.first@ <= (if t[self.place.index as int] is Rows {
            w
        } else {
            self.place.input as int
        })
        &&& if t[self.place.index as int] is Rows {
            ||| self.input@.skip(self.input_pos as int) == self.input_from(w)
            ||| self.input_pos == self.input@.len() && w + 1 == self.snapshot.lines().len()
        } else {
            self.input@.skip(self.input_pos as int) == self.input_from(self.place.input as int)
        }
    }

    fn begin_block(&mut self)
        requires
            old(self).wf(),
            old(self).given == old(self).input_pos,
            old(self).output_row < old(self).max_output_row,
            old(self).block_chunks is None,
            old(self).snapshot.transforms()[old(self).place.index as int] is Block,
        ensures
            final(self).wf(),
            final(self).given == final(self).input_pos,
            final(self).snapshot() == old(self).snapshot(),
            final(self).styled == old(self).styled,
            final(self).output_row == old(self).output_row,
            final(self).max_output_row == old(self).max_output_row,
            final(self).block_chunks is Some,
            old(self).opens(final(self).block_chunks->0),
            final(self).rest() == old(self).rest(),
    {
        let ghost t = self.snapshot.transforms();
        let ghost lines = self.snapshot.lines();
        let ghost i = self.place.index as int;
        proof {
            self.snapshot.lemma_transform(i);
            at_row_is(t, self.output_row as int, i);
        }
        let snapshot: &'a BlockSnapshot = self.snapshot;
        let transform: &'a Transform = &snapshot.transforms[self.place.index];
        if let Some(block) = &transform.block {
            let block_start: u32 = self.place.output;
            let block_end: u32 = block_start + transform.summary.output_rows;
            let start: u32 = self.output_row - block_start;
            let end: u32 = if self.max_output_row < block_end {
                self.max_output_row - block_start
            } else {
                block_end - block_start
            };
            proof {
                assert(t[i] == TransformView::Block(block@));
                if self.styled {
                    assert(runs_len(block@.body.runs) <= usize::MAX);
                }
                rows_text_of_block(
                    t,
                    lines,
                    i,
                    block@,
                    self.output_row as int,
                    self.max_output_row as int,
                );
                block_text_feeds(block@, start as int, end as int);
            }
            assert(self.place.index < self.snapshot.transforms.len());
            self.place = Place {
                index: self.place.index + 1,
                output: block_end,
                input: self.place.input + transform.summary.input_rows,
            };
            self.block_chunks = Some(BlockChunks::new(block, start, end, self.styled));
        }
    }

    fn next_of_block(&mut self) -> (r: Option<Chunk>)
        requires
            old(self).wf(),
            old(self).given == old(self).input_pos,
            old(self).output_row < old(self).max_output_row,
            old(self).block_chunks is Some,
        ensures
            final(self).wf(),
            final(self).given == final(self).input_pos,
            final(self).snapshot() == old(self).snapshot(),
            final(self).styled == old(self).styled,
            final(self).max_output_row == old(self).max_output_row,
            match r {
                Some(chunk) => {
                    &&& old(self).rest() == chunk.text@ + final(self).rest()
                    &&& final(self).output_row == old(self).output_row + feeds(chunk.text@)
                    &&& Chunks::follows(old(self).begun()->0, chunk, final(self).begun())
                    &&& !old(self).styled ==> chunk.text@.len() > 0
                },
                None => old(self).rest().len() == 0 && final(self).rest().len() == 0,
            },
    {
        let ghost t = self.snapshot.transforms();
        let ghost lines = self.snapshot.lines();
        let ghost m = self.max_output_row as int;
        if let Some(mut b) = self.block_chunks.take() {
            let ghost before = b;
            let ghost after = self.after(self.place.output as int);
            assert(old(self).block_ok(before));
            proof {
                b.offset_is_in_rows();
            }
            match b.next() {
                Some(chunk) => {
                    let n: usize = count_feeds(&chunk.text);
                    proof {
                        feeds_add(chunk.text@, b.remaining());
                        feeds_add(Seq::empty(), chunk.text@);
                        assert(before.remaining() + after =~= chunk.text@ + (b.remaining() + after));
                    }
                    self.output_row = self.output_row + n as u32;
                    proof {
                        if b.remaining().len() > 0 {
                            assert(before.remaining().last() == b.remaining().last());
                            if b.remaining().last() == 10 {
                                feeds_add(Seq::empty(), b.remaining().drop_last());
                            }
                        }
                    }
                    self.block_chunks = Some(b);
                    proof {
                        if self.output_row >= m {
                            assert(b.remaining().len() == 0);
                            assert(after.len() == 0);
                            assert(b.remaining() + after =~= Seq::empty());
                        }
                    }
                    Some(chunk)
                },
                None => {
                    proof {
                        assert(feeds(before.remaining()) == 0);
                        assert(before.remaining() + after =~= after);
                    }
                    self.output_row = self.output_row + 1;
                    if self.output_row < self.max_output_row {
                        proof {
                            self.lemma_at_place();
                        }
                        let mut text: Vec<u8> = Vec::new();
                        text.push(10);
                        assert(text@ =~= seq![10u8]);
                        proof {
                            lemma_one_feed();
                        }
                        Some(Chunk { text, highlight_style: None, diagnostic: None })
                    } else {
                        None
                    }
                },
            }
        } else {
            None
        }
    }

    /// At the beginning of a row, the rest of the text is that of the rows from there on.
    proof fn lemma_remaining_rows(&self)
        requires
            self.snapshot.wf(),
            place_ok(self.place, self.snapshot.transforms(), self.place.index as int),
            self.max_output_row <= out_rows(self.snapshot.transforms()),
            self.place.index < self.snapshot.transforms().len(),
            self.place.output <= self.output_row < out_rows(
                self.snapshot.transforms().take(self.place.index + 1),
            ),
            self.output_row < self.max_output_row,
            self.block_chunks is None,
            self.input_pos <= self.input@.len(),
            self.first@ <= self.place.input + (if self.snapshot.transforms()[self.place.index as int] is Rows {
                self.output_row - self.place.output
            } else {
                0
            }),
            self.input@.skip(self.input_pos as int) == self.input_from(
                self.place.input + (if self.snapshot.transforms()[self.place.index as int] is Rows {
                    self.output_row - self.place.output
                } else {
                    0
                }),
            ),
        ensures
            self.between_ok(),
            self.rest() == rows_text(
                self.snapshot.transforms(),
                self.snapshot.lines(),
                self.output_row as int,
                self.max_output_row as int,
            ),
    {
        let t = self.snapshot.transforms();
        let lines = self.snapshot.lines();
        let r = self.output_row as int;
        let m = self.max_output_row as int;
        let i = self.place.index as int;
        self.snapshot.lemma_transform(i);
        if t[i] is Rows && self.input_pos == self.input@.len() {
            let w = self.place.input + (r - self.place.output);
            assert(self.input@.skip(self.input_pos as int).len() == 0);
            lemma_wrap_row_at(t, i, m);
            let ie = wrap_row_at(t, m);
            assert(w < ie) by {
                if m > out_rows(t.take(i + 1)) {
                    lemma_wrap_row_at(t, i + 1, m);
                }
            }
            assert(wrapped_text(lines, w, ie) == lines[w].text + feed_if(w + 1 < lines.len())
                + wrapped_text(lines, w + 1, ie));
            assert(lines[w].text.len() == 0);
            assert(w + 1 == lines.len());
            at_row_is(t, r, i);
            assert(row_text(t, lines, r) =~= Seq::empty());
            if r + 1 < m {
                assert(row_text(t, lines, r) + feed_if(true) + rows_text(t, lines, r + 1, m)
                    =~= seq![10u8] + rows_text(t, lines, r + 1, m));
            } else {
                assert(rows_text(t, lines, r + 1, m) =~= Seq::empty());
                assert(rows_text(t, lines, r, m) =~= Seq::empty());
            }
        }
    }

    /// Between two transforms, the rest of the text begins with the rows of the second one.
    proof fn lemma_at_place(&self)
        requires
            self.snapshot.wf(),
            place_ok(self.place, self.snapshot.transforms(), self.place.index as int),
            self.max_output_row <= out_rows(self.snapshot.transforms()),
            self.output_row == self.place.output,
            self.output_row < self.max_output_row,
            self.block_chunks is None,
            self.input_pos <= self.input@.len(),
            self.first@ <= self.place.input,
            self.input@.skip(self.input_pos as int) == self.input_from(self.place.input as int),
        ensures
            self.between_ok(),
            self.rest() == rows_text(
                self.snapshot.transforms(),
                self.snapshot.lines(),
                self.output_row as int,
                self.max_output_row as int,
            ),
    {
        let t = self.snapshot.transforms();
        let i = self.place.index as int;
        assert(t.take(t.len() as int) =~= t);
        assert(i < t.len());
        self.snapshot.lemma_transform(i);
        self.lemma_remaining_rows();
    }

    /// In wrapped rows, row `r` stands in front of the end of what is shown.
    proof fn lemma_in_rows(&self)
        requires
            self.wf(),
            self.given == self.input_pos,
            self.output_row < self.max_output_row,
            self.block_chunks is None,
            self.snapshot.transforms()[self.place.index as int] is Rows,
        ensures
            ({
                let t = self.snapshot.transforms();
                let lines = self.snapshot.lines();
                let i = self.place.index as int;
                let m = self.max_output_row as int;
                let end = out_rows(t.take(i + 1));
                let e = if end <= m {
                    end
                } else {
                    m
                };
                let w = self.place.input + (self.output_row - self.place.output);
                let we = w + (e - self.output_row);
                let ie = wrap_row_at(t, m);
                &&& w < we <= ie <= lines.len()
                &&& e < end || we == lines.len() ==> we == ie
                &&& end - self.output_row == in_rows(t.take(i + 1)) - w
                &&& rows_text(t, lines, self.output_row as int, m) == wrapped_text(lines, w, we)
                    + (if we < lines.len() {
                    rows_text(t, lines, e, m)
                } else {
                    self.after(end)
                })
                &&& self.input_pos == self.input@.len() ==> w + 1 == lines.len()
                &&& self.input_pos < self.input@.len() ==> self.input@.skip(self.input_pos as int)
                    == wrapped_text(lines, w, ie)
            }),
    {
        let t = self.snapshot.transforms();
        let lines = self.snapshot.lines();
        let i = self.place.index as int;
        let m = self.max_output_row as int;
        let w = self.place.input + (self.output_row - self.place.output);
        let ie = wrap_row_at(t, m);
        self.snapshot.lemma_transform(i);
        rows_text_of_rows(t, lines, i, self.output_row as int, m);
        lemma_wrap_row_at(t, i, m);
        if m > out_rows(t.take(i + 1)) {
            lemma_wrap_row_at(t, i + 1, m);
        }
        if self.input_pos == self.input@.len() && w + 1 != lines.len() {
            assert(wrapped_text(lines, w, ie) == lines[w].text + feed_if(w + 1 < lines.len())
                + wrapped_text(lines, w + 1, ie));
            assert(self.input@.skip(self.input_pos as int).len() == 0);
        }
    }

    /// When all of the wrapped text has been given, all of its last row has been.
    proof fn lemma_rows_ended(&self)
        requires
            self.wf(),
            self.given == self.input_pos,
            self.output_row < self.max_output_row,
            self.block_chunks is None,
            self.snapshot.transforms()[self.place.index as int] is Rows,
            self.input_pos == self.input@.len(),
        ensures
            self.column() == wrapped_text(
                self.snapshot.lines(),
                self.wrapped_here(),
                self.snapshot.lines().len() as int,
            ).len(),
    {
        let t = self.snapshot.transforms();
        let lines = self.snapshot.lines();
        let i = self.place.index as int;
        let r = self.output_row as int;
        self.lemma_in_rows();
        self.snapshot.lemma_transform(i);
        at_row_is(t, r, i);
        assert(self.wrapped_here() == lines.len() - 1);
    }

    fn end_rows(&mut self) -> (r: Option<Chunk>)
        requires
            old(self).wf(),
            old(self).given == old(self).input_pos,
            old(self).output_row < old(self).max_output_row,
            old(self).block_chunks is None,
            old(self).snapshot.transforms()[old(self).place.index as int] is Rows,
            old(self).input_pos == old(self).input@.len(),
        ensures
            final(self).wf(),
            final(self).given == final(self).input_pos,
            final(self).snapshot() == old(self).snapshot(),
            final(self).styled == old(self).styled,
            final(self).max_output_row == old(self).max_output_row,
            match r {
                Some(chunk) => {
                    &&& old(self).rest() == chunk.text@ + final(self).rest()
                    &&& final(self).output_row == old(self).output_row + feeds(chunk.text@)
                    &&& final(self).begun() is None
                    &&& chunk.highlight_style is None
                    &&& chunk.diagnostic is None
                    &&& chunk.text@ == seq![10u8]
                },
                None => old(self).rest().len() == 0 && final(self).rest().len() == 0,
            },
    {
        proof {
            self.lemma_in_rows();
            self.snapshot.lemma_transform(self.place.index as int);
            assert(self.place.index < self.snapshot.transforms.len());
        }
        let summary: TransformSummary = self.snapshot.transforms[self.place.index].summary;
        self.output_row = self.output_row + 1;
        if self.output_row < self.max_output_row {
            self.place = Place {
                index: self.place.index + 1,
                output: self.place.output + summary.output_rows,
                input: self.place.input + summary.input_rows,
            };
            proof {
                assert(self.input@.skip(self.input_pos as int) =~= self.input_from(
                    self.place.input as int,
                ));
                self.lemma_at_place();
            }
            let mut text: Vec<u8> = Vec::new();
            text.push(10);
            assert(text@ =~= seq![10u8]);
            proof {
                lemma_one_feed();
            }
            Some(Chunk { text, highlight_style: None, diagnostic: None })
        } else {
            None
        }
    }

    /// Finds the end of the rows that come next in the wrapped text.
    fn rows_piece(&self, transform_end: u32) -> (r: (u32, usize))
        requires
            self.wf(),
            self.given == self.input_pos,
            self.output_row < self.max_output_row,
            self.block_chunks is None,
            self.snapshot.transforms()[self.place.index as int] is Rows,
            self.input_pos < self.input@.len(),
            transform_end == out_rows(self.snapshot.transforms().take(self.place.index + 1)),
        ensures
            ({
                let t = self.snapshot.transforms();
                let lines = self.snapshot.lines();
                let m = self.max_output_row as int;
                let e = if transform_end <= m {
                    transform_end as int
                } else {
                    m
                };
                let w = self.place.input + (self.output_row - self.place.output);
                let we = w + (e - self.output_row);
                let head = wrapped_text(lines, w, we);
                let rest = self.input@.skip(self.input_pos as int);
                &&& r.1 == head.len()
                &&& 0 < r.1 <= rest.len()
                &&& rest.take(r.1 as int) == head
                &&& rest.skip(r.1 as int) == wrapped_text(lines, we, wrap_row_at(t, m))
                &&& self.output_row + r.0 == if we < lines.len() {
                    e
                } else {
                    e - 1
                }
                &&& r.0 == feeds(head)
            }),
    {
        let ghost t = self.snapshot.transforms();
        let ghost lines = self.snapshot.lines();
        let ghost m = self.max_output_row as int;
        let ghost e = if transform_end <= m {
            transform_end as int
        } else {
            m
        };
        let ghost w = self.place.input + (self.output_row - self.place.output);
        let ghost we = w + (e - self.output_row);
        let ghost ie = wrap_row_at(t, m);
        let ghost rest = self.input@.skip(self.input_pos as int);
        let (rows, bytes) = row_offset(
            self.input.as_slice(),
            self.input_pos,
            transform_end - self.output_row,
        );
        proof {
            self.lemma_in_rows();
            wrapped_text_splits(lines, w, we, ie);
            wrapped_text_feeds(lines, w, we);
            let head = wrapped_text(lines, w, we);
            assert(rest.take(head.len() as int) =~= head);
            assert(rest.skip(head.len() as int) =~= wrapped_text(lines, we, ie));
            let target = transform_end - self.output_row;
            if we < lines.len() && e == transform_end {
                assert(rest[head.len() - 1] == head.last());
                row_offset_is(rest, target, rows as int, bytes as int, head.len() as int);
            } else {
                assert(we == ie);
                assert(wrapped_text(lines, we, ie) =~= Seq::empty());
                assert(rest =~= head);
                row_offset_whole(rest, target, rows as int, bytes as int);
            }
        }
        (rows, bytes)
    }

    /// Cuts off the wrapped rows that come next.
    fn begin_rows(&mut self)
        requires
            old(self).wf(),
            old(self).given == old(self).input_pos,
            old(self).output_row < old(self).max_output_row,
            old(self).block_chunks is None,
            old(self).snapshot.transforms()[old(self).place.index as int] is Rows,
            old(self).input_pos < old(self).input@.len(),
        ensures
            final(self).wf(),
            final(self).given < final(self).input_pos,
            final(self).snapshot() == old(self).snapshot(),
            final(self).styled == old(self).styled,
            final(self).max_output_row == old(self).max_output_row,
            final(self).row() == old(self).row(),
            final(self).remaining() == old(self).remaining(),
    {
        let ghost t = self.snapshot.transforms();
        let ghost lines = self.snapshot.lines();
        let ghost m = self.max_output_row as int;
        let ghost rest = self.input@.skip(self.input_pos as int);
        let ghost i = self.place.index as int;
        proof {
            self.lemma_in_rows();
            self.snapshot.lemma_transform(i);
            assert(self.place.index < self.snapshot.transforms.len());
        }
        let summary: TransformSummary = self.snapshot.transforms[self.place.index].summary;
        let transform_end: u32 = self.place.output + summary.output_rows;
        let ghost e = if transform_end <= m {
            transform_end as int
        } else {
            m
        };
        let ghost w = self.place.input + (self.output_row - self.place.output);
        let ghost we = w + (e - self.output_row);
        let ghost ie = wrap_row_at(t, m);
        let (rows, bytes) = self.rows_piece(transform_end);
        proof {
            assert(self.input_pos + bytes <= self.input.len());
            at_row_is(t, self.output_row as int, i);
            wrapped_text_splits(lines, self.first@, w, ie);
            wrapped_text_splits(lines, self.first@, w, we);
            assert(self.input@.skip(self.input_pos + bytes) =~= rest.skip(bytes as int));
            assert(self.input@.subrange(self.input_pos as int, self.input_pos + bytes)
                =~= rest.take(bytes as int));
        }
        self.input_pos = self.input_pos + bytes;
        self.output_row = self.output_row + rows;
        if self.output_row == transform_end {
            self.place = Place {
                index: self.place.index + 1,
                output: transform_end,
                input: self.place.input + summary.input_rows,
            };
            proof {
                if self.output_row < m {
                    self.lemma_at_place();
                } else {
                    assert(rows_text(t, lines, e, m) =~= Seq::empty());
                }
            }
        } else {
            proof {
                if we < lines.len() {
                    assert(rows_text(t, lines, e, m) =~= Seq::empty());
                } else {
                    assert(wrapped_text(lines, we, ie) =~= Seq::empty());
                    assert(self.input_pos == self.input@.len());
                }
            }
        }
    }

    /// Gives what has been cut off, as far as it has one style.
    fn take_pending(&mut self) -> (chunk: Chunk)
        requires
            old(self).wf(),
            old(self).given < old(self).input_pos,
        ensures
            final(self).wf(),
            final(self).snapshot() == old(self).snapshot(),
            final(self).styled == old(self).styled,
            final(self).max_output_row == old(self).max_output_row,
            final(self).begun() is None,
            old(self).remaining() == chunk.text@ + final(self).remaining(),
            final(self).row() == old(self).row() + feeds(chunk.text@),
            old(self).in_wrapped_rows(),
            old(self).is_wrapped_piece(chunk),
            chunk.text@.len() > 0,
    {
        let ghost t = self.snapshot.transforms();
        let ghost lines = self.snapshot.lines();
        let ghost ie = wrap_row_at(t, self.max_output_row as int);
        proof {
            wrapped_styles_split(lines, self.first@, ie, ie, self.styled);
        }
        let style: TextStyle = self.styles[self.given];
        let mut end: usize = self.given + 1;
        while end < self.input_pos && self.styles[end] == style
            invariant
                self.given < end <= self.input_pos <= self.styles@.len(),
                forall|j: int| self.given <= j < end ==> self.styles@[j] == style,
            decreases self.input_pos - end,
        {
            end += 1;
        }
        let text: Vec<u8> = piece_of(&self.input, self.given, end);
        self.given = end;
        proof {
            let before = old(self).pending();
            assert(before =~= text@ + self.pending());
            feeds_add(text@, self.pending());
            assert((text@ + self.pending()) + self.rest() =~= text@ + (self.pending() + self.rest()));
            old(self).lemma_pending(text@.len() as int);
            let i = at_row(t, old(self).row());
            let f = feeds(text@);
            if self.given < self.input_pos {
                at_row_is(t, old(self).row() + f, i);
            } else {
                assert(self.pending() =~= Seq::empty());
                assert(text@ + Seq::<u8>::empty() =~= text@);
            }
        }
        Chunk { text, highlight_style: style.highlight, diagnostic: style.diagnostic }
    }

    /// The first bytes of what has been cut off, in the wrapped text.
    proof fn lemma_pending(&self, k: int)
        requires
            self.wf(),
            self.given < self.input_pos,
            0 < k <= self.input_pos - self.given,
        ensures
            ({
                let t = self.snapshot.transforms();
                let lines = self.snapshot.lines();
                let m = self.max_output_row as int;
                let i = at_row(t, self.row());
                let w = self.wrapped_here();
                let c = self.column();
                let n = lines.len() as int;
                let text = self.input@.subrange(self.given as int, self.given + k);
                let f = feeds(text);
                &&& 0 <= c
                &&& c + k <= wrapped_text(lines, w, n).len()
                &&& text == wrapped_text(lines, w, n).subrange(c, c + k)
                &&& forall|j: int|
                    c <= j < c + k ==> #[trigger] wrapped_styles(lines, w, n, self.styled)[j]
                        == self.styles@[self.given + (j - c)]
                &&& f >= 0
                &&& self.given + k < self.input_pos ==> {
                    &&& self.row() + f < out_rows(t.take(i + 1))
                    &&& self.row() + f < m
                    &&& wrapped_text(lines, self.first@, w + f).len() <= self.given + k
                }
            }),
    {
        let t = self.snapshot.transforms();
        let lines = self.snapshot.lines();
        let m = self.max_output_row as int;
        let r = self.row();
        let i = at_row(t, r);
        let end = out_rows(t.take(i + 1));
        let e = if end <= m {
            end
        } else {
            m
        };
        let w = self.wrapped_here();
        let we = w + (e - r);
        let ie = wrap_row_at(t, m);
        let n = lines.len() as int;
        let first = self.first@;
        let x = wrapped_text(lines, first, w).len() as int;
        let c = self.given - x;
        wrapped_text_splits(lines, first, w, we);
        lemma_piece(lines, first, w, we, ie, c, k, self.styled);
        assert(self.column() == c) by {
            wrapped_text_splits(lines, first, we, ie);
            rows_text_of_rows(t, lines, i, r, m);
        }
        let text = self.input@.subrange(self.given as int, self.given + k);
        feeds_add(Seq::empty(), text);
        if self.given + k < self.input_pos {
            lemma_rows_passed(lines, w, we, c, k);
            wrapped_text_splits(lines, first, w, w + feeds(text));
        }
    }

    /// The next piece of text.
    pub fn next(&mut self) -> (r: Option<Chunk>)
        requires
            old(self).wf(),
        ensures
            final(self).wf(),
            final(self).snapshot() == old(self).snapshot(),
            final(self).styled() == old(self).styled(),
            final(self).end_row() == old(self).end_row(),
            match r {
                Some(chunk) => {
                    &&& old(self).remaining() == chunk.text@ + final(self).remaining()
                    &&& final(self).row() == old(self).row() + feeds(chunk.text@)
                    &&& old(self).begun() is None && old(self).in_wrapped_rows() ==> {
                        &&& final(self).begun() is None
                        &&& old(self).is_wrapped_piece(chunk)
                    }
                    &&& old(self).begun() is None && !old(self).in_wrapped_rows()
                        ==> exists|a: BlockChunks<'a>| #[trigger]
                        old(self).opens(a) && Chunks::follows(a, chunk, final(self).begun())
                    &&& old(self).begun() matches Some(a) ==> Chunks::follows(
                        a,
                        chunk,
                        final(self).begun(),
                    )
                    &&& !old(self).styled() ==> chunk.text@.len() > 0
                },
                None => old(self).remaining().len() == 0 && final(self).remaining().len() == 0,
            },
    {
        if self.given < self.input_pos {
            return Some(self.take_pending());
        }
        if self.output_row >= self.max_output_row {
            return None;
        }
        if self.block_chunks.is_none() {
            let ghost i = self.place.index as int;
            proof {
                self.snapshot.lemma_transform(i);
                at_row_is(self.snapshot.transforms(), self.output_row as int, i);
            }
            if self.snapshot.transforms[self.place.index].is_isomorphic() {
                if self.input_pos == self.input.len() {
                    proof {
                        self.lemma_rows_ended();
                    }
                    return self.end_rows();
                }
                self.begin_rows();
                return Some(self.take_pending());
            }
            self.begin_block();
            assert(old(self).opens(self.block_chunks->0));
        }
        self.next_of_block()
    }

    /// Takes all the text that is still to come.
    pub fn collect_text(self) -> (r: Vec<u8>)
        requires
            self.wf(),
            !self.styled(),
        ensures
            r@ == self.remaining(),
    {
        let mut chunks: Chunks<'a> = self;
        let mut r: Vec<u8> = Vec::new();
        let ghost all = chunks.remaining();
        assert(r@ + all =~= all);
        loop
            invariant
                chunks.wf(),
                !chunks.styled(),
                r@ + chunks.remaining() == all,
            ensures
                r@ + chunks.remaining() == all,
                chunks.remaining().len() == 0,
            decreases chunks.remaining().len(),
        {
            let ghost before = r@;
            match chunks.next() {
                Some(chunk) => {
                    let mut text: Vec<u8> = chunk.text;
                    let ghost piece = text@;
                    r.append(&mut text);
                    assert(before + (piece + chunks.remaining()) =~= r@ + chunks.remaining());
                },
                None => {
                    assert(r@ + chunks.remaining() =~= all);
                    break;
                },
            }
        }
        assert(r@ =~= all);
        r
    }
}

impl BlockSnapshot {
    /// The text of the rows from `start` to `end`, piece by piece, with its styles if `styled` is
    /// set.
    #[verifier::rlimit(30)]
    pub fn chunks(&self, start: u32, end: u32, styled: bool) -> (r: Chunks<'_>)
        requires
            self.wf(),
            styled ==> runs_fit(self.transforms()),
        ensures
            r.wf(),
            r.snapshot() == *self,
            r.styled() == styled,
            r.begun() is None,
            r.row() == start,
            r.end_row() == (if end <= out_rows(self.transforms()) {
                end as int
            } else {
                out_rows(self.transforms())
            }),
            r.remaining() == rows_text(
                self.transforms(),
                self.lines(),
                start as int,
                if end <= out_rows(self.transforms()) {
                    end as int
                } else {
                    out_rows(self.transforms())
                },
            ),
    {
        let ghost t = self.transforms();
        let ghost lines = self.lines();
        let total: TransformSummary = self.summary();
        let max_output_row: u32 = if end < total.output_rows { end } else { total.output_rows };
        let p = self.seek(max_output_row);
        let q = self.seek(start);
        proof {
            assert(t.take(t.len() as int) =~= t);
            at_row_contains(t, max_output_row as int);
            lemma_wrap_row_at(t, p.index as int, max_output_row as int);
        }
        let input_end: u32 = if p.index < self.transforms.len()
            && self.transforms[p.index].is_isomorphic() {
            proof {
                self.lemma_transform(p.index as int);
            }
            p.input + (max_output_row - p.output)
        } else {
            p.input
        };
        assert(input_end == wrap_row_at(t, max_output_row as int));
        if start >= max_output_row {
            proof {
                assert(rows_text(t, lines, start as int, max_output_row as int) =~= Seq::empty());
            }
            return Chunks {
                snapshot: self,
                place: q,
                input: Vec::new(),
                styles: Vec::new(),
                first: Ghost(input_end as int),
                given: 0,
                input_pos: 0,
                block_chunks: None,
                output_row: start,
                max_output_row,
                styled,
            };
        }
        proof {
            self.lemma_transform(q.index as int);
            lemma_wrap_row_at(t, q.index as int, max_output_row as int);
            if max_output_row > out_rows(t.take(q.index + 1)) {
                lemma_wrap_row_at(t, q.index + 1, max_output_row as int);
            }
        }
        let input_start: u32 = if self.transforms[q.index].is_isomorphic() {
            q.input + (start - q.output)
        } else {
            q.input
        };
        let input: Vec<u8> = wrapped_bytes(&self.wrap_snapshot, input_start, input_end);
        let styles: Vec<TextStyle> = wrapped_style_list(
            &self.wrap_snapshot,
            input_start,
            input_end,
            styled,
        );
        assert(input@.skip(0) =~= input@);
        let r = Chunks {
            snapshot: self,
            place: q,
            input,
            styles,
            first: Ghost(input_start as int),
            given: 0,
            input_pos: 0,
            block_chunks: None,
            output_row: start,
            max_output_row,
            styled,
        };
        proof {
            r.lemma_remaining_rows();
        }
        r
    }

    /// The text of all rows.
    pub fn text(&self) -> (r: Vec<u8>)
        requires
            self.wf(),
        ensures
            r@ == rows_text(self.transforms(), self.lines(), 0, out_rows(self.transforms())),
    {
        let total: TransformSummary = self.summary();
        self.chunks(0, total.output_rows, false).collect_text()
    }

    /// The wrapped rows that are shown.
    pub fn wrap_snapshot(&self) -> (r: &WrapSnapshot)
        ensures
            r@ == self.lines(),
    {
        &self.wrap_snapshot
    }
}

impl BlockMap {
    /// What the map shows now.
    pub fn snapshot(&self) -> (r: BlockSnapshot)
        requires
            self.wf(),
        ensures
            r.wf(),
            r.transforms() == self.transforms(),
            r.lines() == self.lines(),
    {
        let (wrap_snapshot, transforms) = self.copy_parts();
        proof {
            self.wf_arranges();
            arranged_places_ok(placed(self.transforms()), self.blocks(), self.lines());
            crate::block_map::views_fit(transforms@);
        }
        BlockSnapshot { wrap_snapshot, transforms }
    }

    /// Follows a change of the rows and shows the result.
    pub fn read(
        &mut self,
        wrap_snapshot: WrapSnapshot,
        positions: &Vec<Point>,
        edits: &Vec<RowEdit>,
    ) -> (r: BlockSnapshot)
        requires
            old(self).wf(),
            positions@.len() == old(self).blocks().len(),
            blocks_ok(moved(old(self).blocks(), positions@), wrap_snapshot@),
            edits_ok(edits@, old(self).lines().len() as int, wrap_snapshot@),
            edits_account(
                edits@,
                placed(old(self).transforms()),
                old(self).lines().len() as int,
                moved(old(self).blocks(), positions@),
                wrap_snapshot@,
            ),
            wrap_snapshot@.len() + block_rows(old(self).blocks()) <= u32::MAX,
        ensures
            final(self).wf(),
            final(self).lines() == wrap_snapshot@,
            final(self).blocks() == moved(old(self).blocks(), positions@),
            final(self).next_id() == old(self).next_id(),
            r.wf(),
            r.transforms() == final(self).transforms(),
            r.lines() == wrap_snapshot@,
            edits@.len() == 0 ==> r.transforms() == old(self).transforms(),
    {
        self.write(wrap_snapshot, positions, edits);
        self.snapshot()
    }
}

/// A place in a block above a line stands for the start of the text behind the block; one in a block
/// below a line for the end of the row in front of it.
pub proof fn blocks_lead_to_their_line(
    t: Seq<TransformView>,
    lines: Seq<WrapLineView>,
    i: int,
    b: AlignedView,
    p: Point,
)
    requires
        snapshot_ok(t, lines),
        0 <= i < t.len(),
        t[i] == TransformView::Block(b),
        out_rows(t.take(i)) <= p.row < out_rows(t.take(i)) + lines_of(b.body.text).len(),
    ensures
        b.disposition is Above ==> wrapped_point(t, lines, p).row == in_rows(t.take(i))
            && wrapped_point(t, lines, p).column == 0,
        b.disposition is Below ==> in_rows(t.take(i)) > 0 && wrapped_point(t, lines, p).row == in_rows(
            t.take(i),
        ) - 1 && wrapped_point(t, lines, p).column == lines[in_rows(t.take(i)) - 1].text.len(),
{
    lemma_take_step(t, i);
    at_row_is(t, p.row as int, i);
    rows_within(t, i);
    if b.disposition is Below {
        lemma_below_has_row(t, i);
        let w = in_rows(t.take(i)) - 1;
        assert(crate::wrap_rows::row_fits(lines[w]));
    }
}

/// From a block, clipping goes to text in front of it or, to the right, to text behind it, where
/// there is any on that side.
pub proof fn clipping_leaves_blocks_on_its_side(
    t: Seq<TransformView>,
    lines: Seq<WrapLineView>,
    i: int,
    p: Point,
)
    requires
        snapshot_ok(t, lines),
        0 <= i < t.len(),
        t[i] is Block,
        out_rows(t.take(i)) <= p.row < out_rows(t.take(i + 1)),
    ensures
        in_rows(t.take(i)) > 0 ==> clipped_point(t, lines, p, Bias::Left).row < out_rows(t.take(i)),
        in_rows(t.take(i)) < in_rows(t) ==> clipped_point(t, lines, p, Bias::Right).row >= out_rows(
            t.take(i + 1),
        ) && clipped_point(t, lines, p, Bias::Right).column == 0,
{
    at_row_is(t, p.row as int, i);
    lemma_take_step(t, i);
    rows_within(t, i);
    rows_within(t, i + 1);
    if in_rows(t.take(i)) > 0 {
        lemma_rows_before(t, i);
        let j = rows_before(t, i);
        lemma_rows_ascend(t, j + 1, i);
        lemma_rows_ascend(t, j, j + 1);
        rows_within(t, j + 1);
    }
    if in_rows(t.take(i)) < in_rows(t) {
        lemma_rows_from(t, i);
        let k = rows_from(t, i);
        lemma_rows_ascend(t, i + 1, k);
        rows_within(t, k);
    }
}

/// A row of text shows the number of its line where the line begins, and that it goes on elsewhere; a
/// row of a block shows the block.
pub proof fn rows_tell_what_they_show(
    t: Seq<TransformView>,
    lines: Seq<WrapLineView>,
    i: int,
    over: int,
)
    requires
        snapshot_ok(t, lines),
        0 <= i < t.len(),
        0 <= over < t[i].output_rows(),
    ensures
        t[i] matches TransformView::Block(b) ==> display_row(t, lines, out_rows(t.take(i)) + over)
            == DisplayRow::Block(b.id, b.body.style),
        t[i] is Rows ==> ({
            let w = in_rows(t.take(i)) + over;
            let shown = display_row(t, lines, out_rows(t.take(i)) + over);
            &&& w == 0 ==> shown == DisplayRow::Buffer(lines[w].start.row)
            &&& w > 0 && lines[w].start == crate::wrap_rows::row_end(lines[w - 1]) ==> shown == DisplayRow::Wrap
            &&& w > 0 && lines[w].start != crate::wrap_rows::row_end(lines[w - 1]) ==> shown == DisplayRow::Buffer(
                lines[w].start.row,
            )
        }),
{
    lemma_take_step(t, i);
    at_row_is(t, out_rows(t.take(i)) + over, i);
    rows_within(t, i);
    rows_within(t, i + 1);
}

/// The last place is the end of the last row.
pub proof fn end_is_the_end_of_the_last_row(t: Seq<TransformView>, lines: Seq<WrapLineView>)
    requires
        snapshot_ok(t, lines),
        t.len() > 0,
    ensures
        end_point(t, lines).row == out_rows(t) - 1,
        t.last() is Rows ==> end_point(t, lines).column == lines.last().text.len(),
{
    rows_are_counted(t);
    let n = t.len() as int;
    assert(t.take(n) == t);
    lemma_rows_ascend(t, n - 1, n);
    if t.last() is Rows {
        at_row_is(t, out_rows(t) - 1, n - 1);
        lemma_take_step(t, n - 1);
        assert(crate::wrap_rows::row_fits(lines[lines.len() - 1]));
    }
}

/// The summaries of transforms count their rows.
pub proof fn summaries_count_rows(t: Seq<TransformView>)
    requires
        all_fit(t),
        in_rows(t) <= u32::MAX,
        out_rows(t) <= u32::MAX,
    ensures
        total_summary(t).input_rows == in_rows(t),
        total_summary(t).output_rows == out_rows(t),
    decreases t.len(),
{
    if t.len() > 0 {
        assert(t.take(t.len() - 1) == t.drop_last());
        rows_within(t, t.len() - 1);
        assert forall|i: int| 0 <= i < t.drop_last().len() implies (#[trigger] t.drop_last()[i]).fits() by {
            assert(t[i].fits());
        }
        summaries_count_rows(t.drop_last());
        assert(t[t.len() - 1].fits());
    }
}

} // verus!
