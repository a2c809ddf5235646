//! Positions and text as the user sees them: wrapped rows with blocks between them.
use vstd::prelude::*;
use crate::block_chunks::Chunk;
use crate::block_snapshot::{
    at_row, at_row_contains, clipped_is_in_text, clipped_point, end_point, last_row_is_last, rows_point,
    shown_in_rows, shown_len, shown_point, snapshot_ok, wrapped_point, wrapped_point_in_rows,
    wrapped_rows_ascend, wrapped_text_round_trip, BlockPoint, BlockSnapshot, BufferRows, Chunks,
};
use crate::block_map::{
    arranged, block_rows, blocks_ok, edits_account, edits_ok, is_made, made_block, moved,
    moved_rows, new_rows, restyled_blocks, showable, without, BlockMap, BlockProperties, BlockView,
    Restyle, RowEdit,
};
use crate::block_transforms::{out_rows, placed, BlockId, Placed, TransformView};
use crate::point::{Bias, Point};
use crate::shown_text::{row_text, row_text_is_a_line, rows_text};
use crate::wrap_rows::{
    begins_char, boundary_right, char_count, clip_offset, clipped, clipped_is_valid, column_in_row,
    column_of, column_of_in_row, column_round_trip, count_chars, first_row, fold_edge, follows,
    goes_on, head_row, head_row_is_last, is_wrapping, no_feed, piece_from, piece_from_is,
    piece_from_shows, piece_holding, piece_holding_holds, piece_holding_is, piece_ok, pieces_ascend,
    position_in, position_in_row, position_round_trip, row_end, row_fits, row_of, row_of_is,
    row_of_is_last_start, rows_of_line, starts_ascend, tail_row, tail_row_is_first, valid_column,
    WrapLineView, WrapSnapshot,
};

verus! {

/// A position on the screen.
#[derive(Clone, Copy, Debug, Default, PartialEq, Eq, PartialOrd, Ord, Structural)]
pub struct DisplayPoint(pub BlockPoint);

impl DisplayPoint {
    /// The position in row `row` and column `column`.
    pub fn new(row: u32, column: u32) -> (r: DisplayPoint)
        ensures
            r.0.0 == (Point { row, column }),
    {
        DisplayPoint(BlockPoint(Point { row, column }))
    }

    /// The beginning of the first row.
    pub fn zero() -> (r: DisplayPoint)
        ensures
            r.0.0 == (Point { row: 0, column: 0 }),
    {
        DisplayPoint::new(0, 0)
    }

    /// Whether this is the beginning of the first row.
    pub fn is_zero(&self) -> (r: bool)
        ensures
            r == (self.0.0 == Point { row: 0, column: 0 }),
    {
        self.0.0.is_zero()
    }

    /// The row.
    pub fn row(self) -> (r: u32)
        ensures
            r == self.0.0.row,
    {
        self.0.0.row
    }

    /// The column.
    pub fn column(self) -> (r: u32)
        ensures
            r == self.0.0.column,
    {
        self.0.0.column
    }

    /// The row, to be changed.
    pub fn row_mut(&mut self) -> (r: &mut u32)
        ensures
            *r == old(self).0.0.row,
            final(self).0.0 == (Point { row: *final(r), column: old(self).0.0.column }),
    {
        &mut self.0.0.row
    }

    /// The column, to be changed.
    pub fn column_mut(&mut self) -> (r: &mut u32)
        ensures
            *r == old(self).0.0.column,
            final(self).0.0 == (Point { row: old(self).0.0.row, column: *final(r) }),
    {
        &mut self.0.0.column
    }
}

/// The position of the buffer at a position of the wrapped text.
pub open spec fn buffer_point(lines: Seq<WrapLineView>, p: Point, bias: Bias) -> Point {
    position_in(lines[p.row as int], p.column as int, bias)
}

/// Where a position of the buffer is in the wrapped text.
pub open spec fn wrap_place(lines: Seq<WrapLineView>, p: Point) -> Point {
    Point { row: row_of(lines, p) as u32, column: column_of(lines, p) as u32 }
}

/// Where a position of the buffer is shown; one within a fold at the beginning or the end of it.
pub open spec fn display_point(
    t: Seq<TransformView>,
    lines: Seq<WrapLineView>,
    p: Point,
    bias: Bias,
) -> Point {
    shown_point(t, lines, wrap_place(lines, fold_edge(lines, p, bias)))
}

/// Whether these are the lengths of the lines of a buffer with these rows: a row that does not go on
/// ends at the end of a line.
pub open spec fn buffer_ok(lines: Seq<WrapLineView>, lens: Seq<u32>) -> bool {
    &&& lens.len() == row_end(lines.last()).row + 1
    &&& forall|w: int| 0 <= w < lines.len() ==> #[trigger] ends_in_line(lines, w, lens)
}

/// Whether a row ends within a line of a buffer: at its end, unless the row goes on.
pub open spec fn ends_in_line(lines: Seq<WrapLineView>, w: int, lens: Seq<u32>) -> bool {
    let e = row_end(lines[w]);
    &&& e.row < lens.len()
    &&& e.column <= lens[e.row as int]
    &&& !goes_on(lines, w) ==> e.column == lens[e.row as int]
}

/// Whether no row that begins a buffer line has an indentation of its own. Only a row that goes on
/// right behind a fold could have one.
pub open spec fn lines_begin_plain(lines: Seq<WrapLineView>) -> bool {
    forall|w: int|
        0 <= w < lines.len() && (#[trigger] lines[w]).start.column == 0 ==> lines[w].indent == 0
}

/// The row of wrapped text with which the line begins that a row on the screen shows or stands by.
pub open spec fn head_of(t: Seq<TransformView>, lines: Seq<WrapLineView>, row: u32) -> int {
    let w = wrapped_point(t, lines, Point { row, column: 0 });
    let line = buffer_point(lines, w, Bias::Left).row;
    head_row(lines, row_of(lines, Point { row: line, column: 0 }))
}

/// The row of wrapped text with which the text ends that a row on the screen shows or stands by.
pub open spec fn tail_of(t: Seq<TransformView>, lines: Seq<WrapLineView>, row: u32) -> int {
    let end = Point { row, column: shown_len(t, lines, row as int) as u32 };
    tail_row(lines, wrapped_point(t, lines, end).row as int)
}

/// The end of a row of wrapped text.
pub open spec fn wrap_end(lines: Seq<WrapLineView>, w: int) -> Point {
    Point { row: w as u32, column: lines[w].text.len() as u32 }
}

/// A valid column leads to the buffer and back, with either bias.
pub proof fn valid_place_leads_back(lines: Seq<WrapLineView>, c: Point, bias: Bias)
    requires
        is_wrapping(lines),
        c.row < lines.len(),
        valid_column(lines[c.row as int], c.column as int),
        goes_on(lines, c.row as int) ==> c.column < lines[c.row as int].text.len(),
    ensures
        wrap_place(lines, buffer_point(lines, c, bias)) == c,
        fold_edge(lines, buffer_point(lines, c, bias), bias) == buffer_point(lines, c, bias),
{
    let w = c.row as int;
    let line = lines[w];
    let p = buffer_point(lines, c, bias);
    assert(row_fits(line));
    column_round_trip(line, c.column as int, bias);
    if w + 1 < lines.len() {
        assert(follows(lines, w + 1));
    }
    row_of_is(lines, p, w);
    piece_holding_holds(line, p, 0);
    let k = piece_holding(line, p, 0);
    pieces_ascend(line, 0, 0);
    piece_from_shows(line, c.column as int, 0);
    let j = piece_from(line, c.column as int, 0);
    pieces_ascend(line, 0, j);
    if j < line.pieces.len() {
        pieces_ascend(line, j, j + 1);
    }
    piece_holding_is(line, p, j);
}

/// A clipped position on the screen leads to the buffer and back.
pub proof fn clipped_leads_back(
    t: Seq<TransformView>,
    lines: Seq<WrapLineView>,
    p: Point,
    bias: Bias,
)
    requires
        snapshot_ok(t, lines),
        p.row < out_rows(t),
        t[at_row(t, p.row as int)] is Rows,
        p.column > 0,
    ensures
        ({
            let c = clipped_point(t, lines, p, bias);
            let b = buffer_point(lines, wrapped_point(t, lines, c), bias);
            display_point(t, lines, b, bias) == c
        }),
{
    let q = wrapped_point(t, lines, p);
    at_row_contains(t, p.row as int);
    rows_point(t, lines, p);
    wrapped_point_in_rows(t, lines, p);
    clipped_is_valid(lines, q, bias);
    let k = clipped(lines, q, bias);
    wrapped_text_round_trip(t, lines, k);
    valid_place_leads_back(lines, k, bias);
}

/// A position of the buffer that is not within a fold leads to the screen and back.
pub proof fn position_leads_back(t: Seq<TransformView>, lines: Seq<WrapLineView>, p: Point, bias: Bias)
    requires
        snapshot_ok(t, lines),
        p.at_most(row_end(lines[row_of(lines, p)])),
        fold_edge(lines, p, bias) == p,
    ensures
        buffer_point(
            lines,
            wrapped_point(t, lines, display_point(t, lines, p, bias)),
            Bias::Left,
        ) == p,
{
    row_of_is_last_start(lines, p);
    let line = lines[row_of(lines, p)];
    assert(row_fits(line));
    column_in_row(line, p);
    piece_holding_holds(line, p, 0);
    let k = piece_holding(line, p, 0);
    if k < line.pieces.len() {
        assert(piece_ok(line, k));
    }
    position_round_trip(line, p, Bias::Left);
    wrapped_text_round_trip(t, lines, wrap_place(lines, p));
}

/// The beginning of a row that begins a line leads to the screen and back.
pub proof fn head_leads_back(t: Seq<TransformView>, lines: Seq<WrapLineView>, g: int)
    requires
        snapshot_ok(t, lines),
        0 <= g < lines.len(),
        lines[g].start.column == 0,
        lines[g].indent == 0,
    ensures
        display_point(t, lines, lines[g].start, Bias::Left) == shown_point(
            t,
            lines,
            Point { row: g as u32, column: 0 },
        ),
        buffer_point(lines, Point { row: g as u32, column: 0 }, Bias::Left) == lines[g].start,
        wrapped_point(
            t,
            lines,
            display_point(t, lines, lines[g].start, Bias::Left),
        ) == (Point { row: g as u32, column: 0 }),
{
    let line = lines[g];
    assert(row_fits(line));
    start_is_shown(lines, g);
    wrapped_text_round_trip(t, lines, Point { row: g as u32, column: 0 });
}

/// The beginning of a row is shown behind its indentation.
proof fn start_is_shown(lines: Seq<WrapLineView>, w: int)
    requires
        is_wrapping(lines),
        0 <= w < lines.len(),
    ensures
        position_in(lines[w], 0, Bias::Left) == lines[w].start,
        row_of(lines, lines[w].start) == w,
        column_of(lines, lines[w].start) == lines[w].indent,
        fold_edge(lines, lines[w].start, Bias::Left) == lines[w].start,
        fold_edge(lines, lines[w].start, Bias::Right) == lines[w].start,
{
    let line = lines[w];
    assert(row_fits(line));
    if w + 1 < lines.len() {
        starts_ascend(lines, w, w + 1);
    }
    row_of_is(lines, line.start, w);
    pieces_ascend(line, 0, 0);
    if line.pieces.len() > 0 {
        assert(piece_ok(line, 0));
        pieces_ascend(line, 0, 1);
        piece_from_is(line, line.indent as int, 0);
    }
    piece_holding_is(line, line.start, 0);
}

/// The end of a row that does not go on is shown at its end.
proof fn end_is_shown(lines: Seq<WrapLineView>, w: int)
    requires
        is_wrapping(lines),
        0 <= w < lines.len(),
        !goes_on(lines, w),
    ensures
        position_in(lines[w], lines[w].text.len() as int, Bias::Left) == row_end(lines[w]),
        row_of(lines, row_end(lines[w])) == w,
        column_of(lines, row_end(lines[w])) == lines[w].text.len(),
        lines[w].text.len() < u32::MAX,
        fold_edge(lines, row_end(lines[w]), Bias::Left) == row_end(lines[w]),
        fold_edge(lines, row_end(lines[w]), Bias::Right) == row_end(lines[w]),
{
    let line = lines[w];
    let n = line.pieces.len() as int;
    assert(row_fits(line));
    pieces_ascend(line, 0, n);
    if w + 1 < lines.len() {
        assert(follows(lines, w + 1));
    }
    row_of_is(lines, row_end(line), w);
    piece_holding_is(line, row_end(line), n);
    piece_from_is(line, line.text.len() as int, n);
}

/// The end of a row that does not go on leads to the screen and back.
pub proof fn tail_leads_back(t: Seq<TransformView>, lines: Seq<WrapLineView>, h: int)
    requires
        snapshot_ok(t, lines),
        0 <= h < lines.len(),
        !goes_on(lines, h),
    ensures
        display_point(t, lines, row_end(lines[h]), Bias::Left) == shown_point(
            t,
            lines,
            wrap_end(lines, h),
        ),
        buffer_point(lines, wrap_end(lines, h), Bias::Left) == row_end(lines[h]),
        wrapped_point(
            t,
            lines,
            display_point(t, lines, row_end(lines[h]), Bias::Left),
        ) == wrap_end(lines, h),
{
    end_is_shown(lines, h);
    wrapped_text_round_trip(t, lines, wrap_end(lines, h));
}

// A position that is moved to the beginning of a fold stays in its row and column.
proof fn left_edge_is_in_row(lines: Seq<WrapLineView>, p: Point)
    requires
        is_wrapping(lines),
    ensures
        row_of(lines, fold_edge(lines, p, Bias::Left)) == row_of(lines, p),
        column_of(lines, fold_edge(lines, p, Bias::Left)) == column_of(lines, p),
{
    row_of_is_last_start(lines, p);
    let w = row_of(lines, p);
    let line = lines[w];
    assert(row_fits(line));
    piece_holding_holds(line, p, 0);
    let k = piece_holding(line, p, 0);
    let e = fold_edge(lines, p, Bias::Left);
    if e != p {
        pieces_ascend(line, 0, k);
        if w + 1 < lines.len() {
            assert(p.precedes(lines[w + 1].start));
        }
        row_of_is(lines, e, w);
        piece_holding_is(line, e, k);
    }
}

// The end of a row, as a column.
proof fn end_of_row(lines: Seq<WrapLineView>, w: int)
    requires
        is_wrapping(lines),
        0 <= w < lines.len(),
    ensures
        position_in(lines[w], lines[w].text.len() as int, Bias::Left) == row_end(lines[w]),
        lines[w].text.len() < u32::MAX,
{
    let line = lines[w];
    assert(row_fits(line));
    pieces_ascend(line, 0, line.pieces.len() as int);
    piece_from_is(line, line.text.len() as int, line.pieces.len() as int);
}

// A row ends at or behind the end of those above it.
proof fn lemma_ends_ascend(lines: Seq<WrapLineView>, v: int, w: int)
    requires
        is_wrapping(lines),
        0 <= v <= w < lines.len(),
    ensures
        row_end(lines[v]).at_most(row_end(lines[w])),
        lines[v].start.at_most(row_end(lines[w])),
    decreases w - v,
{
    assert(row_fits(lines[w]));
    pieces_ascend(lines[w], 0, lines[w].pieces.len() as int);
    if v < w {
        lemma_ends_ascend(lines, v, w - 1);
        assert(follows(lines, w));
    }
}

// From a position in a row, the end of its line leads to the row or one that it goes on in; from the
// end of the row it leads further, unless the line ends there.
proof fn boundary_step(lines: Seq<WrapLineView>, lens: Seq<u32>, w: int, found: Point)
    requires
        is_wrapping(lines),
        buffer_ok(lines, lens),
        0 <= w < lines.len(),
        lines[w].start.at_most(found),
        found.at_most(row_end(lines[w])),
    ensures
        found.row < lens.len(),
        ({
            let boundary = Point { row: found.row, column: lens[found.row as int] };
            let edge = fold_edge(lines, boundary, Bias::Right);
            let u = row_of(lines, edge);
            &&& w <= u <= tail_row(lines, w)
            &&& goes_on(lines, w) && found == row_end(lines[w]) ==> u > w
            &&& !goes_on(lines, w) && found == row_end(lines[w]) ==> boundary == found && edge
                == found && u == w
        }),
{
    let h = tail_row(lines, w);
    tail_row_is_first(lines, w);
    lemma_ends_ascend(lines, w, h);
    assert(ends_in_line(lines, w, lens));
    assert(ends_in_line(lines, h, lens));
    if w > 0 {
        assert(follows(lines, w));
        assert(ends_in_line(lines, w - 1, lens));
    }
    let boundary = Point { row: found.row, column: lens[found.row as int] };
    assert(lines[w].start.at_most(boundary));
    assert(boundary.at_most(row_end(lines[h])));
    row_of_is_last_start(lines, boundary);
    let x = row_of(lines, boundary);
    if x < w {
        assert(boundary.precedes(lines[w].start));
    }
    if x > h {
        if x > h + 1 {
            starts_ascend(lines, h + 1, x);
        }
    }
    let line = lines[x];
    assert(row_fits(line));
    piece_holding_holds(line, boundary, 0);
    let k = piece_holding(line, boundary, 0);
    if k < line.pieces.len() {
        pieces_ascend(line, k + 1, line.pieces.len() as int);
    }
    let edge = fold_edge(lines, boundary, Bias::Right);
    lemma_ends_ascend(lines, x, h);
    assert(boundary.at_most(edge));
    assert(edge.at_most(row_end(lines[h])));
    row_of_is_last_start(lines, edge);
    let u = row_of(lines, edge);
    if u < x {
        assert(edge.precedes(lines[x].start));
    }
    if u > h {
        if u > h + 1 {
            starts_ascend(lines, h + 1, u);
        }
    }
    if goes_on(lines, w) && found == row_end(lines[w]) && x == w {
        assert(boundary.precedes(lines[w + 1].start));
    }
    if !goes_on(lines, w) && found == row_end(lines[w]) {
        end_is_shown(lines, w);
    }
}

// Rows that go on, one in the next, have the same last row.
proof fn lemma_same_tail(lines: Seq<WrapLineView>, w: int, v: int)
    requires
        is_wrapping(lines),
        0 <= w <= v <= tail_row(lines, w),
        w < lines.len(),
    ensures
        tail_row(lines, v) == tail_row(lines, w),
    decreases v - w,
{
    tail_row_is_first(lines, w);
    if w < v {
        assert(goes_on(lines, w));
        lemma_same_tail(lines, w + 1, v);
    }
}

// The line of a row begins with the last row that begins a line.
proof fn lemma_same_head(lines: Seq<WrapLineView>, w: int)
    requires
        is_wrapping(lines),
        0 <= w < lines.len(),
    ensures
        ({
            let v = row_of(lines, Point { row: lines[w].start.row, column: 0 });
            &&& 0 <= v <= w
            &&& head_row(lines, v) == head_row(lines, w)
            &&& lines[w].start.column == 0 <==> v == w
        }),
{
    let line = lines[w].start.row;
    rows_of_line(lines, line, w);
    head_row_is_last(lines, w);
    let v = first_row(lines, line);
    head_row_is_last(lines, v);
    let a = head_row(lines, w);
    let b = head_row(lines, v);
    row_of_is_last_start(lines, Point { row: line, column: 0 });
    if b < a {
        if a <= v {
            assert(lines[a].start.column > 0);
        } else {
            starts_ascend(lines, a, w);
            rows_of_line(lines, line, a);
        }
    } else if a < b {
        assert(lines[b].start.column > 0);
    }
}

/// A position that is clipped, in a row of text, is not in front of the beginning of its line and not
/// behind its end, also where folds join several lines. Both lead back to themselves, and the end has
/// a line feed behind it: it is the end of the buffer only where the last row is reached, if no block
/// is below it.
pub proof fn boundaries_enclose(
    t: Seq<TransformView>,
    lines: Seq<WrapLineView>,
    p: Point,
    bias: Bias,
)
    requires
        snapshot_ok(t, lines),
        lines_begin_plain(lines),
        p.row < out_rows(t),
    ensures
        ({
            let c = clipped_point(t, lines, p, bias);
            let g = head_of(t, lines, c.row);
            let h = tail_of(t, lines, c.row);
            let start = lines[g].start;
            let end = row_end(lines[h]);
            let first = display_point(t, lines, start, Bias::Left);
            let last = display_point(t, lines, end, Bias::Left);
            &&& 0 <= g <= h < lines.len()
            &&& start.column == 0
            &&& first.column == 0
            &&& first.at_most(c)
            &&& c.at_most(last)
            &&& first == shown_point(t, lines, Point { row: g as u32, column: 0 })
            &&& last == shown_point(t, lines, wrap_end(lines, h))
            &&& buffer_point(lines, wrapped_point(t, lines, first), Bias::Left) == start
            &&& buffer_point(lines, wrapped_point(t, lines, last), Bias::Left) == end
            &&& t.last() is Rows && last.precedes(end_point(t, lines)) ==> end.row < row_end(
                lines.last(),
            ).row
        }),
{
    let c = clipped_point(t, lines, p, bias);
    clipped_is_in_text(t, lines, p, bias);
    at_row_contains(t, c.row as int);
    rows_point(t, lines, c);
    wrapped_point_in_rows(t, lines, c);
    let w = wrapped_point(t, lines, c).row as int;
    start_is_shown(lines, w);
    lemma_same_head(lines, w);
    head_row_is_last(lines, w);
    tail_row_is_first(lines, w);
    let g = head_row(lines, w);
    let h = tail_row(lines, w);
    assert(head_of(t, lines, c.row) == g);
    assert(tail_of(t, lines, c.row) == h);
    head_leads_back(t, lines, g);
    tail_leads_back(t, lines, h);
    let here = Point { row: w as u32, column: c.column };
    assert(row_fits(lines[h]));
    assert(shown_point(t, lines, here) == c);
    shown_in_rows(t, lines, here);
    shown_in_rows(t, lines, Point { row: g as u32, column: 0 });
    shown_in_rows(t, lines, wrap_end(lines, h));
    if g < w {
        wrapped_rows_ascend(t, lines, Point { row: g as u32, column: 0 }, here);
    }
    if w < h {
        wrapped_rows_ascend(t, lines, here, wrap_end(lines, h));
    }
    if t.last() is Rows {
        let n = lines.len() - 1;
        last_row_is_last(t, lines);
        if h < n {
            if h + 1 < n {
                starts_ascend(lines, h + 1, n);
            }
            assert(row_fits(lines[n]));
            pieces_ascend(lines[n], 0, lines[n].pieces.len() as int);
        }
    }
}

/// A fold of a buffer.
#[derive(Clone, Copy, Debug, PartialEq, Eq, Structural)]
pub struct FoldRange {
    pub start: Point,
    pub end: Point,
}

/// What is known of a buffer besides its rows: the lengths of its lines, and its folds in order.
#[derive(Debug)]
pub struct BufferShape {
    pub line_lens: Vec<u32>,
    pub folds: Vec<FoldRange>,
}

/// The folds that overlap a range.
pub open spec fn folds_between(folds: Seq<FoldRange>, start: Point, end: Point) -> Seq<FoldRange>
    decreases folds.len(),
{
    if folds.len() == 0 {
        Seq::empty()
    } else {
        let before = folds_between(folds.drop_last(), start, end);
        let f = folds.last();
        if start.precedes(f.end) && f.start.precedes(end) {
            before.push(f)
        } else {
            before
        }
    }
}

/// Of the rows up to `w`, the last one that is not the continuation of the row before it.
pub open spec fn lead_row(lines: Seq<WrapLineView>, w: int) -> int
    decreases w,
{
    if w <= 0 || !goes_on(lines, w - 1) {
        w
    } else {
        lead_row(lines, w - 1)
    }
}

/// Whether a row shows a fold.
pub open spec fn shows_fold(line: WrapLineView) -> bool {
    exists|k: int| 0 <= k < line.pieces.len() && (#[trigger] line.pieces[k]).kind is Fold
}

/// Whether a fold is shown in a row, or in one of those that go on to it or that it goes on in.
pub open spec fn folded_around(lines: Seq<WrapLineView>, w: int) -> bool {
    exists|v: int| lead_row(lines, w) <= v <= tail_row(lines, w) && shows_fold(#[trigger] lines[v])
}

/// Whether a position is in a fold: at its beginning or within it.
pub open spec fn in_fold(lines: Seq<WrapLineView>, p: Point) -> bool {
    let line = lines[row_of(lines, p)];
    let k = piece_holding(line, p, 0);
    k < line.pieces.len() && line.pieces[k].kind is Fold
}

/// The number of spaces that a text begins with.
pub open spec fn leading_spaces(text: Seq<u8>) -> int
    decreases text.len(),
{
    if text.len() > 0 && text[0] == 32 {
        1 + leading_spaces(text.skip(1))
    } else {
        0
    }
}

/// Whether a column is as many characters into a text as asked, or at its end if it has no more.
pub open spec fn is_column_of_chars(text: Seq<u8>, chars: int, column: int) -> bool {
    &&& 0 <= column <= text.len()
    &&& column < text.len() ==> begins_char(text[column]) && char_count(text.take(column)) == chars
    &&& column == text.len() ==> char_count(text) <= chars
}

/// The text of a row is the first line of what is shown from that row on.
pub proof fn row_comes_first(t: Seq<TransformView>, lines: Seq<WrapLineView>, r: int)
    requires
        snapshot_ok(t, lines),
        0 <= r < out_rows(t),
    ensures
        ({
            let all = rows_text(t, lines, r, out_rows(t));
            let row = row_text(t, lines, r);
            &&& no_feed(row)
            &&& row.len() <= all.len()
            &&& all.take(row.len() as int) == row
            &&& row.len() < all.len() ==> all[row.len() as int] == 10
        }),
{
    row_text_is_a_line(t, lines, r);
    let row = row_text(t, lines, r);
    let all = rows_text(t, lines, r, out_rows(t));
    assert(all.take(row.len() as int) =~= row);
    assert(rows_text(t, lines, r + 1, out_rows(t)).len() > 0 ==> r + 1 < out_rows(t));
}

/// What is on the screen at one moment.
pub struct DisplayMapSnapshot {
    blocks_snapshot: BlockSnapshot,
    buffer: BufferShape,
}

impl DisplayMapSnapshot {
    /// The rows and blocks in the order in which they are shown.
    pub closed spec fn transforms(&self) -> Seq<TransformView> {
        self.blocks_snapshot.transforms()
    }

    /// The wrapped rows.
    pub closed spec fn lines(&self) -> Seq<WrapLineView> {
        self.blocks_snapshot.lines()
    }

    /// The lengths of the lines of the buffer.
    pub closed spec fn line_lens(&self) -> Seq<u32> {
        self.buffer.line_lens@
    }

    /// The folds of the buffer.
    pub closed spec fn folds(&self) -> Seq<FoldRange> {
        self.buffer.folds@
    }

    /// Whether the parts belong together.
    pub closed spec fn wf(&self) -> bool {
        &&& self.blocks_snapshot.wf()
        &&& buffer_ok(self.blocks_snapshot.lines(), self.buffer.line_lens@)
    }

    /// A well-formed snapshot satisfies what the laws of snapshots ask for.
    pub proof fn wf_is_ok(&self)
        requires
            self.wf(),
        ensures
            snapshot_ok(self.transforms(), self.lines()),
            buffer_ok(self.lines(), self.line_lens()),
    {
        self.blocks_snapshot.wf_is_ok();
    }

    /// The blocks and rows of a block map, on the screen.
    pub fn new(blocks_snapshot: BlockSnapshot, buffer: BufferShape) -> (r: DisplayMapSnapshot)
        requires
            blocks_snapshot.wf(),
            buffer_ok(blocks_snapshot.lines(), buffer.line_lens@),
        ensures
            r.wf(),
            r.transforms() == blocks_snapshot.transforms(),
            r.lines() == blocks_snapshot.lines(),
            r.line_lens() == buffer.line_lens@,
            r.folds() == buffer.folds@,
    {
        DisplayMapSnapshot { blocks_snapshot, buffer }
    }

    /// The number of folds.
    pub fn fold_count(&self) -> (r: usize)
        ensures
            r == self.folds().len(),
    {
        self.buffer.folds.len()
    }

    /// Whether the buffer is empty.
    pub fn is_empty(&self) -> (r: bool)
        requires
            self.wf(),
        ensures
            r == (self.line_lens().len() == 1 && self.line_lens()[0] == 0),
    {
        self.buffer.line_lens.len() == 1 && self.buffer.line_lens[0] == 0
    }

    /// The rows from `start_row` on, one after the other.
    pub fn buffer_rows(&self, start_row: u32) -> (r: BufferRows<'_>)
        requires
            self.wf(),
        ensures
            r.wf(),
            r.snapshot().transforms() == self.transforms(),
            r.snapshot().lines() == self.lines(),
            r.next_row() == start_row,
    {
        self.blocks_snapshot.buffer_rows(start_row)
    }

    /// The number of lines in the buffer.
    pub fn buffer_row_count(&self) -> (r: u32)
        requires
            self.wf(),
            self.line_lens().len() <= u32::MAX,
        ensures
            r == self.line_lens().len(),
    {
        self.buffer.line_lens.len() as u32
    }

    /// The position of the buffer that a position on the screen stands for.
    pub fn to_point(&self, point: DisplayPoint) -> (r: Point)
        requires
            self.wf(),
        ensures
            r == buffer_point(
                self.lines(),
                wrapped_point(self.transforms(), self.lines(), point.0.0),
                Bias::Left,
            ),
    {
        self.display_point_to_point(point, Bias::Left)
    }

    /// The position of the buffer that a position on the screen stands for; within a tab or a fold,
    /// its beginning or its end.
    pub fn display_point_to_point(&self, point: DisplayPoint, bias: Bias) -> (r: Point)
        requires
            self.wf(),
        ensures
            r == buffer_point(
                self.lines(),
                wrapped_point(self.transforms(), self.lines(), point.0.0),
                bias,
            ),
    {
        let wraps: &WrapSnapshot = self.blocks_snapshot.wrap_snapshot();
        let p: Point = self.blocks_snapshot.to_wrap_point(point.0);
        proof {
            self.wf_is_ok();
            wrapped_point_in_rows(self.transforms(), self.lines(), point.0.0);
        }
        wraps.position(p, bias)
    }

    /// Where a position of the buffer is shown.
    pub fn to_display_point(&self, point: Point) -> (r: DisplayPoint)
        requires
            self.wf(),
        ensures
            r.0.0 == display_point(self.transforms(), self.lines(), point, Bias::Left),
    {
        self.point_to_display_point(point, Bias::Left)
    }

    /// Where a position of the buffer is shown; one within a fold at the beginning or the end of it.
    pub fn point_to_display_point(&self, point: Point, bias: Bias) -> (r: DisplayPoint)
        requires
            self.wf(),
        ensures
            r.0.0 == display_point(self.transforms(), self.lines(), point, bias),
    {
        let wraps: &WrapSnapshot = self.blocks_snapshot.wrap_snapshot();
        let edge: Point = wraps.fold_edge(point, bias);
        let row: u32 = wraps.row_of(edge);
        let column: u32 = wraps.column_of(edge);
        DisplayPoint(self.blocks_snapshot.to_block_point(Point { row, column }))
    }

    /// The beginning of the buffer line that a row shows, on the screen and in the buffer: where folds
    /// join lines, of the first of them.
    pub fn prev_row_boundary(&self, point: DisplayPoint) -> (r: (DisplayPoint, Point))
        requires
            self.wf(),
            lines_begin_plain(self.lines()),
        ensures
            ({
                let g = head_of(self.transforms(), self.lines(), point.0.0.row);
                &&& r.1 == self.lines()[g].start
                &&& r.1.column == 0
                &&& r.0.0.0 == shown_point(
                    self.transforms(),
                    self.lines(),
                    Point { row: g as u32, column: 0 },
                )
                &&& r.0.0.0 == display_point(self.transforms(), self.lines(), r.1, Bias::Left)
            }),
    {
        let ghost t = self.transforms();
        let ghost lines = self.lines();
        let ghost g = head_of(t, lines, point.0.0.row);
        let mut display_point: DisplayPoint = point;
        let ghost mut v: int = lines.len() as int;
        proof {
            self.wf_is_ok();
        }
        loop
            invariant
                self.wf(),
                t == self.transforms(),
                lines == self.lines(),
                snapshot_ok(t, lines),
                lines_begin_plain(lines),
                g == head_of(t, lines, point.0.0.row),
                g == head_of(t, lines, display_point.0.0.row),
                0 <= v <= lines.len(),
                v < lines.len() ==> display_point.0.0.row == shown_point(
                    t,
                    lines,
                    Point { row: v as u32, column: 0 },
                ).row,
            decreases v,
        {
            *display_point.column_mut() = 0;
            let found: Point = self.to_point(display_point);
            let boundary = Point { row: found.row, column: 0 };
            let next: DisplayPoint = self.point_to_display_point(boundary, Bias::Left);
            let ghost u = row_of(lines, boundary);
            proof {
                let here = display_point.0.0;
                wrapped_point_in_rows(t, lines, here);
                row_of_is_last_start(lines, boundary);
                left_edge_is_in_row(lines, boundary);
                column_of_in_row(lines, boundary);
                let place = wrap_place(lines, fold_edge(lines, boundary, Bias::Left));
                let head = Point { row: u as u32, column: 0 };
                lemma_same_head(lines, u);
                start_is_shown(lines, u);
                wrapped_text_round_trip(t, lines, place);
                wrapped_text_round_trip(t, lines, head);
                shown_in_rows(t, lines, place);
                shown_in_rows(t, lines, head);
                assert(shown_point(t, lines, head) == Point { row: next.0.0.row, column: 0 });
                if next.0.0 == here {
                    assert(wrapped_point(t, lines, here) == head);
                    head_leads_back(t, lines, u);
                } else if v < lines.len() {
                    let top = Point { row: v as u32, column: 0 };
                    shown_in_rows(t, lines, top);
                    wrapped_text_round_trip(t, lines, top);
                    start_is_shown(lines, v);
                    lemma_same_head(lines, v);
                }
            }
            if next.0.0.row == display_point.0.0.row && next.0.0.column
                == display_point.0.0.column {
                return (display_point, boundary);
            }
            proof {
                v = u;
            }
            display_point = next;
        }
    }

    /// The end of the buffer line that a row shows, on the screen and in the buffer: where folds join
    /// lines, of the last of them.
    pub fn next_row_boundary(&self, point: DisplayPoint) -> (r: (DisplayPoint, Point))
        requires
            self.wf(),
            point.0.0.row < out_rows(self.transforms()),
        ensures
            ({
                let h = tail_of(self.transforms(), self.lines(), point.0.0.row);
                &&& r.1 == row_end(self.lines()[h])
                &&& r.1.column == self.line_lens()[r.1.row as int]
                &&& r.0.0.0 == shown_point(
                    self.transforms(),
                    self.lines(),
                    wrap_end(self.lines(), h),
                )
                &&& r.0.0.0 == display_point(self.transforms(), self.lines(), r.1, Bias::Left)
            }),
    {
        let ghost t = self.transforms();
        let ghost lines = self.lines();
        let ghost lens = self.line_lens();
        let ghost h = tail_of(t, lines, point.0.0.row);
        let mut display_point: DisplayPoint = point;
        let ghost mut v: int = -1;
        proof {
            self.wf_is_ok();
            let end = Point {
                row: point.0.0.row,
                column: shown_len(t, lines, point.0.0.row as int) as u32,
            };
            wrapped_point_in_rows(t, lines, end);
            tail_row_is_first(lines, wrapped_point(t, lines, end).row as int);
        }
        loop
            invariant
                self.wf(),
                t == self.transforms(),
                lines == self.lines(),
                lens == self.line_lens(),
                snapshot_ok(t, lines),
                buffer_ok(lines, lens),
                display_point.0.0.row < out_rows(t),
                h == tail_of(t, lines, point.0.0.row),
                h == tail_of(t, lines, display_point.0.0.row),
                -1 <= v <= h < lines.len(),
                v >= 0 ==> display_point.0.0.row == shown_point(t, lines, wrap_end(lines, v)).row,
            decreases h - v,
        {
            let len: u32 = self.blocks_snapshot.line_len(display_point.row());
            *display_point.column_mut() = len;
            let found: Point = self.to_point(display_point);
            let ghost w = wrapped_point(t, lines, display_point.0.0).row as int;
            proof {
                wrapped_point_in_rows(t, lines, display_point.0.0);
                assert(row_fits(lines[w]));
                position_in_row(
                    lines[w],
                    wrapped_point(t, lines, display_point.0.0).column as int,
                    Bias::Left,
                );
                boundary_step(lines, lens, w, found);
            }
            let boundary = Point {
                row: found.row,
                column: self.buffer.line_lens[found.row as usize],
            };
            let next: DisplayPoint = self.point_to_display_point(boundary, Bias::Right);
            let ghost edge = fold_edge(lines, boundary, Bias::Right);
            let ghost u = row_of(lines, edge);
            proof {
                let here = display_point.0.0;
                let place = wrap_place(lines, edge);
                column_of_in_row(lines, edge);
                row_of_is_last_start(lines, edge);
                assert(row_fits(lines[u]));
                column_in_row(lines[u], edge);
                tail_row_is_first(lines, w);
                lemma_same_tail(lines, w, u);
                shown_in_rows(t, lines, place);
                shown_in_rows(t, lines, wrap_end(lines, u));
                wrapped_text_round_trip(t, lines, place);
                wrapped_text_round_trip(t, lines, wrap_end(lines, u));
                if next.0.0 == here {
                    assert(wrapped_point(t, lines, here) == place);
                    end_of_row(lines, u);
                    tail_leads_back(t, lines, h);
                } else if v >= 0 {
                    shown_in_rows(t, lines, wrap_end(lines, v));
                    wrapped_text_round_trip(t, lines, wrap_end(lines, v));
                    assert(here == shown_point(t, lines, wrap_end(lines, v)));
                    end_of_row(lines, v);
                    if v == h {
                        end_is_shown(lines, h);
                    }
                }
            }
            if next.0.0.row == display_point.0.0.row && next.0.0.column
                == display_point.0.0.column {
                return (display_point, boundary);
            }
            proof {
                v = u;
            }
            display_point = next;
        }
    }

    /// The end of the last row.
    pub fn max_point(&self) -> (r: DisplayPoint)
        requires
            self.wf(),
        ensures
            r.0.0 == crate::block_snapshot::end_point(self.transforms(), self.lines()),
    {
        DisplayPoint(self.blocks_snapshot.max_point())
    }

    /// The text from a row on, piece by piece and without styles.
    pub fn text_chunks(&self, display_row: u32) -> (r: Chunks<'_>)
        requires
            self.wf(),
        ensures
            r.wf(),
            !r.styled(),
            r.begun() is None,
            r.snapshot().transforms() == self.transforms(),
            r.snapshot().lines() == self.lines(),
            r.row() == display_row,
            r.end_row() == out_rows(self.transforms()),
            r.remaining() == rows_text(
                self.transforms(),
                self.lines(),
                display_row as int,
                out_rows(self.transforms()),
            ),
    {
        let total: u32 = self.blocks_snapshot.summary().output_rows;
        self.blocks_snapshot.chunks(display_row, total, false)
    }

    /// The text of some rows, piece by piece, with its styles.
    pub fn chunks(&self, start: u32, end: u32) -> (r: Chunks<'_>)
        requires
            self.wf(),
            crate::shown_text::runs_fit(self.transforms()),
        ensures
            r.wf(),
            r.styled(),
            r.begun() is None,
            r.snapshot().transforms() == self.transforms(),
            r.snapshot().lines() == self.lines(),
            r.row() == start,
            r.end_row() == (if end <= out_rows(self.transforms()) {
                end as int
            } else {
                out_rows(self.transforms())
            }),
            r.remaining() == rows_text(
                self.transforms(),
                self.lines(),
                start as int,
                if end <= out_rows(self.transforms()) {
                    end as int
                } else {
                    out_rows(self.transforms())
                },
            ),
    {
        self.blocks_snapshot.chunks(start, end, true)
    }

    /// The text from a position on: characters that begin in front of it are left out.
    pub fn chars_at(&self, point: DisplayPoint) -> (r: Vec<u8>)
        requires
            self.wf(),
        ensures
            ({
                let text = rows_text(
                    self.transforms(),
                    self.lines(),
                    point.0.0.row as int,
                    out_rows(self.transforms()),
                );
                r@ == text.skip(boundary_right(text, point.0.0.column as int))
            }),
    {
        let text: Vec<u8> = self.text_chunks(point.row()).collect_text();
        let from: usize = clip_offset(&text, point.column() as usize, Bias::Right);
        let r: Vec<u8> = crate::block_chunks::piece_of(&text, from, text.len());
        assert(r@ =~= text@.skip(from as int));
        r
    }

    /// The number of characters that begin in front of column `target`, from the beginning of a
    /// row on.
    pub fn column_to_chars(&self, display_row: u32, target: u32) -> (r: u32)
        requires
            self.wf(),
        ensures
            ({
                let text = rows_text(
                    self.transforms(),
                    self.lines(),
                    display_row as int,
                    out_rows(self.transforms()),
                );
                r == char_count(
                    text.take(
                        if target <= text.len() {
                            target as int
                        } else {
                            text.len() as int
                        },
                    ),
                )
            }),
    {
        let text: Vec<u8> = self.chars_at(DisplayPoint::new(display_row, 0));
        proof {
            let all = rows_text(
                self.transforms(),
                self.lines(),
                display_row as int,
                out_rows(self.transforms()),
            );
            assert(all.skip(0) =~= all);
        }
        let end: usize = if (target as usize) < text.len() {
            target as usize
        } else {
            text.len()
        };
        assert(text@.subrange(0, end as int) =~= text@.take(end as int));
        count_chars(&text, 0, end) as u32
    }

    /// The column behind the first `chars` characters of a row, or its end if it has no more.
    pub fn column_from_chars(&self, display_row: u32, chars: u32) -> (r: u32)
        requires
            self.wf(),
            display_row < out_rows(self.transforms()),
        ensures
            is_column_of_chars(
                row_text(self.transforms(), self.lines(), display_row as int),
                chars as int,
                r as int,
            ),
    {
        let line: Vec<u8> = self.line(display_row);
        proof {
            self.wf_is_ok();
            row_text_is_a_line(self.transforms(), self.lines(), display_row as int);
        }
        let len: u32 = self.blocks_snapshot.line_len(display_row);
        let mut count: u32 = 0;
        let mut column: u32 = 0;
        assert(line@.take(0) =~= Seq::empty());
        while column < len
            invariant
                line@ == row_text(self.transforms(), self.lines(), display_row as int),
                len == line@.len(),
                column <= len,
                count <= chars,
                count == char_count(line@.take(column as int)),
            decreases len - column,
        {
            let b: u8 = line[column as usize];
            if !(0x80 <= b && b < 0xc0) {
                if count == chars {
                    return column;
                }
                count += 1;
            }
            assert(line@.take(column + 1).drop_last() =~= line@.take(column as int));
            column += 1;
        }
        assert(line@.take(column as int) =~= line@);
        column
    }

    /// The valid position that a position on the screen stands for.
    pub fn clip_point(&self, point: DisplayPoint, bias: Bias) -> (r: DisplayPoint)
        requires
            self.wf(),
        ensures
            r.0.0 == crate::block_snapshot::clipped_point(
                self.transforms(),
                self.lines(),
                point.0.0,
                bias,
            ),
    {
        DisplayPoint(self.blocks_snapshot.clip_point(point.0, bias))
    }

    /// The folds that overlap a range of the buffer.
    pub fn folds_in_range(&self, start: Point, end: Point) -> (r: Vec<FoldRange>)
        ensures
            r@ == folds_between(self.folds(), start, end),
    {
        let mut r: Vec<FoldRange> = Vec::new();
        let ghost folds = self.folds();
        let mut i: usize = 0;
        assert(folds.take(0) =~= Seq::empty());
        while i < self.buffer.folds.len()
            invariant
                folds == self.buffer.folds@,
                i <= folds.len(),
                r@ == folds_between(folds.take(i as int), start, end),
            decreases self.buffer.folds.len() - i,
        {
            assert(folds.take(i + 1).drop_last() =~= folds.take(i as int));
            let fold: FoldRange = self.buffer.folds[i];
            if start.before(&fold.end) && fold.start.before(&end) {
                r.push(fold);
            }
            i += 1;
        }
        assert(folds.take(i as int) =~= folds);
        r
    }

    /// Whether a position of the buffer is in a fold.
    pub fn intersects_fold(&self, point: Point) -> (r: bool)
        requires
            self.wf(),
        ensures
            r == in_fold(self.lines(), point),
    {
        self.blocks_snapshot.wrap_snapshot().in_fold(point)
    }

    /// Whether a fold is shown in the line that a row on the screen shows or stands by.
    pub fn is_line_folded(&self, display_row: u32) -> (r: bool)
        requires
            self.wf(),
        ensures
            ({
                let head = Point { row: display_row, column: 0 };
                r == folded_around(
                    self.lines(),
                    wrapped_point(self.transforms(), self.lines(), head).row as int,
                )
            }),
    {
        let wraps: &WrapSnapshot = self.blocks_snapshot.wrap_snapshot();
        let ghost lines = self.lines();
        proof {
            self.wf_is_ok();
            wrapped_point_in_rows(
                self.transforms(),
                self.lines(),
                Point { row: display_row, column: 0 },
            );
        }
        let w: u32 = self.blocks_snapshot.to_wrap_point(BlockPoint::new(display_row, 0)).row;
        let mut first: u32 = w;
        while first > 0 && wraps.goes_on(first - 1)
            invariant
                first <= w,
                w < wraps@.len(),
                lead_row(wraps@, w as int) == lead_row(wraps@, first as int),
            decreases first,
        {
            first -= 1;
        }
        let mut v: u32 = first;
        proof {
            tail_row_is_first(lines, w as int);
        }
        loop
            invariant
                lines == wraps@,
                lines == self.lines(),
                w == wrapped_point(
                    self.transforms(),
                    lines,
                    Point { row: display_row, column: 0 },
                ).row,
                is_wrapping(lines),
                w < lines.len(),
                first == lead_row(lines, w as int),
                first <= w <= tail_row(lines, w as int) < lines.len(),
                first <= v <= tail_row(lines, w as int),
                forall|x: int| first <= x < v ==> !shows_fold(#[trigger] lines[x]),
            decreases lines.len() - v,
        {
            if wraps.row_shows_fold(v) {
                assert(shows_fold(lines[v as int]));
                return true;
            }
            if v >= w && !wraps.goes_on(v) {
                proof {
                    tail_row_is_first(lines, w as int);
                    if v < tail_row(lines, w as int) {
                        assert(goes_on(lines, v as int));
                    }
                }
                return false;
            }
            proof {
                if v == tail_row(lines, w as int) {
                    tail_row_is_first(lines, w as int);
                }
            }
            v += 1;
        }
    }

    /// Whether a row shows a block.
    pub fn is_block_line(&self, display_row: u32) -> (r: bool)
        requires
            self.wf(),
        ensures
            r == (display_row < out_rows(self.transforms())
                && self.transforms()[crate::block_snapshot::at_row(
                self.transforms(),
                display_row as int,
            )] is Block),
    {
        self.blocks_snapshot.is_block_line(display_row)
    }

    /// The indentation with which the text that a row stands for goes on in the next row, if it does.
    pub fn soft_wrap_indent(&self, display_row: u32) -> (r: Option<u32>)
        requires
            self.wf(),
        ensures
            ({
                let head = Point { row: display_row, column: 0 };
                let w = wrapped_point(self.transforms(), self.lines(), head).row as int;
                r == if goes_on(self.lines(), w) {
                    Some(self.lines()[w + 1].indent)
                } else {
                    None
                }
            }),
    {
        let wraps: &WrapSnapshot = self.blocks_snapshot.wrap_snapshot();
        proof {
            self.wf_is_ok();
            crate::block_snapshot::wrapped_point_in_rows(
                self.transforms(),
                self.lines(),
                Point { row: display_row, column: 0 },
            );
        }
        let w: u32 = self.blocks_snapshot.to_wrap_point(BlockPoint::new(display_row, 0)).row;
        if wraps.goes_on(w) {
            Some(wraps.indent(w + 1))
        } else {
            None
        }
    }

    /// The text of all rows.
    pub fn text(&self) -> (r: Vec<u8>)
        requires
            self.wf(),
        ensures
            r@ == rows_text(self.transforms(), self.lines(), 0, out_rows(self.transforms())),
    {
        self.text_chunks(0).collect_text()
    }

    /// The text of a row.
    pub fn line(&self, display_row: u32) -> (r: Vec<u8>)
        requires
            self.wf(),
        ensures
            r@ == if display_row < out_rows(self.transforms()) {
                row_text(self.transforms(), self.lines(), display_row as int)
            } else {
                Seq::empty()
            },
    {
        let mut chunks: Chunks<'_> = self.text_chunks(display_row);
        let mut result: Vec<u8> = Vec::new();
        let ghost all = chunks.remaining();
        let ghost row = if display_row < out_rows(self.transforms()) {
            row_text(self.transforms(), self.lines(), display_row as int)
        } else {
            Seq::empty()
        };
        proof {
            self.wf_is_ok();
            if display_row < out_rows(self.transforms()) {
                row_comes_first(self.transforms(), self.lines(), display_row as int);
            } else {
                assert(all.take(0) =~= row);
            }
            assert(result@ + all =~= all);
        }
        loop
            invariant_except_break
                result@ + chunks.remaining() == all,
            invariant
                chunks.wf(),
                !chunks.styled(),
                no_feed(result@),
                no_feed(row),
                row.len() <= all.len(),
                all.take(row.len() as int) == row,
                row.len() < all.len() ==> all[row.len() as int] == 10,
            ensures
                result@ == row,
            decreases chunks.remaining().len(),
        {
            let ghost before = result@;
            match chunks.next() {
                Some(chunk) => {
                    let Chunk { text, highlight_style, diagnostic } = chunk;
                    let ghost rest = chunks.remaining();
                    assert(all =~= before + text@ + rest);
                    let mut i: usize = 0;
                    while i < text.len() && text[i] != 10
                        invariant
                            i <= text@.len(),
                            result@ == before + text@.take(i as int),
                            no_feed(result@),
                        decreases text.len() - i,
                    {
                        result.push(text[i]);
                        i += 1;
                        assert(result@ =~= before + text@.take(i as int));
                    }
                    if i < text.len() {
                        proof {
                            let n = result@.len() as int;
                            assert(all.take(n) =~= result@);
                            assert(all[n] == 10);
                            if n < row.len() {
                                assert(row[n] == all.take(row.len() as int)[n]);
                            } else if n > row.len() {
                                assert(result@[row.len() as int] == all.take(n)[row.len() as int]);
                            }
                        }
                        break;
                    }
                    assert(text@.take(i as int) =~= text@);
                    assert(result@ + rest =~= all);
                },
                None => {
                    assert(result@ + chunks.remaining() =~= result@);
                    proof {
                        if row.len() < all.len() {
                            assert(result@[row.len() as int] != 10);
                        }
                        assert(all.take(all.len() as int) =~= all);
                    }
                    break;
                },
            }
        }
        result
    }

    /// The number of spaces that a row begins with, and whether nothing else is in it.
    pub fn line_indent(&self, display_row: u32) -> (r: (u32, bool))
        requires
            self.wf(),
            display_row < out_rows(self.transforms()),
        ensures
            ({
                let row = row_text(self.transforms(), self.lines(), display_row as int);
                &&& r.0 == leading_spaces(row)
                &&& r.1 == (leading_spaces(row) == row.len())
            }),
    {
        let line: Vec<u8> = self.line(display_row);
        proof {
            self.wf_is_ok();
            row_text_is_a_line(self.transforms(), self.lines(), display_row as int);
        }
        let len: u32 = self.blocks_snapshot.line_len(display_row);
        let mut indent: u32 = 0;
        assert(line@.skip(0) =~= line@);
        while indent < len && line[indent as usize] == 32
            invariant
                len == line@.len(),
                indent <= len,
                leading_spaces(line@) == indent + leading_spaces(line@.skip(indent as int)),
            decreases len - indent,
        {
            assert(line@.skip(indent as int).skip(1) =~= line@.skip(indent + 1));
            indent += 1;
        }
        (indent, indent == len)
    }

    /// The length of a row in bytes.
    pub fn line_len(&self, row: u32) -> (r: u32)
        requires
            self.wf(),
            row < out_rows(self.transforms()),
        ensures
            r == shown_len(self.transforms(), self.lines(), row as int),
    {
        self.blocks_snapshot.line_len(row)
    }

    /// The longest row.
    pub fn longest_row(&self) -> (r: u32)
        requires
            self.wf(),
        ensures
            r == crate::block_snapshot::longest_shown(self.transforms(), self.lines()),
    {
        self.blocks_snapshot.longest_row()
    }
}

/// The rows that a change leaves behind, and what it did to them: where the blocks stand now, in
/// their order, and which rows were replaced.
pub struct RowChange {
    pub wrap_snapshot: WrapSnapshot,
    pub positions: Vec<Point>,
    pub edits: Vec<RowEdit>,
}

/// Keeps what is on the screen up to date with the wrapped rows of a buffer and with the blocks
/// that were put among them.
pub struct DisplayMap {
    block_map: BlockMap,
}

impl DisplayMap {
    /// The blocks, in the order in which they are shown.
    pub closed spec fn blocks(&self) -> Seq<BlockView> {
        self.block_map.blocks()
    }

    /// The wrapped rows that the map knows.
    pub closed spec fn lines(&self) -> Seq<WrapLineView> {
        self.block_map.lines()
    }

    /// The rows and blocks in the order in which they are shown.
    pub closed spec fn transforms(&self) -> Seq<TransformView> {
        self.block_map.transforms()
    }

    /// The identity that the next block gets.
    pub closed spec fn next_id(&self) -> int {
        self.block_map.next_id()
    }

    /// Whether what is shown is what the blocks and rows ask for.
    pub closed spec fn wf(&self) -> bool {
        self.block_map.wf()
    }

    /// What is shown is the blocks, each at its place among the rows.
    pub proof fn wf_arranges(&self)
        requires
            self.wf(),
        ensures
            is_wrapping(self.lines()),
            blocks_ok(self.blocks(), self.lines()),
            arranged(placed(self.transforms()), self.blocks(), self.lines()),
    {
        self.block_map.wf_arranges();
    }

    /// Whether a change is one of the rows that the map knows.
    pub open spec fn follows(&self, change: RowChange) -> bool {
        &&& change.positions@.len() == self.blocks().len()
        &&& blocks_ok(moved(self.blocks(), change.positions@), change.wrap_snapshot@)
        &&& edits_ok(change.edits@, self.lines().len() as int, change.wrap_snapshot@)
        &&& edits_account(
            change.edits@,
            placed(self.transforms()),
            self.lines().len() as int,
            moved(self.blocks(), change.positions@),
            change.wrap_snapshot@,
        )
        &&& change.wrap_snapshot@.len() + block_rows(self.blocks()) <= u32::MAX
    }

    /// A map of rows without blocks.
    pub fn new(wrap_snapshot: WrapSnapshot) -> (r: DisplayMap)
        ensures
            r.wf(),
            r.blocks() == Seq::<BlockView>::empty(),
            r.lines() == wrap_snapshot@,
            r.next_id() == 0,
    {
        DisplayMap { block_map: BlockMap::new(wrap_snapshot) }
    }

    /// Whether a change is one of rows among which blocks are arranged.
    pub open spec fn follows_on(
        blocks: Seq<BlockView>,
        lines: Seq<WrapLineView>,
        change: RowChange,
    ) -> bool {
        &&& change.positions@.len() == blocks.len()
        &&& blocks_ok(moved(blocks, change.positions@), change.wrap_snapshot@)
        &&& edits_ok(change.edits@, lines.len() as int, change.wrap_snapshot@)
        &&& forall|p: Seq<Placed>| #[trigger]
            arranged(p, blocks, lines) ==> edits_account(
                change.edits@,
                p,
                lines.len() as int,
                moved(blocks, change.positions@),
                change.wrap_snapshot@,
            )
        &&& change.wrap_snapshot@.len() + block_rows(blocks) <= u32::MAX
    }

    /// Follows a change of the rows, and then what folding made of them.
    pub fn fold(&mut self, change: RowChange, folded: RowChange)
        requires
            old(self).wf(),
            old(self).follows(change),
            DisplayMap::follows_on(
                moved(old(self).blocks(), change.positions@),
                change.wrap_snapshot@,
                folded,
            ),
        ensures
            final(self).wf(),
            final(self).lines() == folded.wrap_snapshot@,
            final(self).blocks() == moved(
                moved(old(self).blocks(), change.positions@),
                folded.positions@,
            ),
            final(self).next_id() == old(self).next_id(),
    {
        self.block_map.write(change.wrap_snapshot, &change.positions, &change.edits);
        proof {
            self.block_map.wf_arranges();
        }
        self.block_map.write(folded.wrap_snapshot, &folded.positions, &folded.edits);
    }

    /// Follows a change of the rows, and then what unfolding made of them.
    pub fn unfold(&mut self, change: RowChange, unfolded: RowChange)
        requires
            old(self).wf(),
            old(self).follows(change),
            DisplayMap::follows_on(
                moved(old(self).blocks(), change.positions@),
                change.wrap_snapshot@,
                unfolded,
            ),
        ensures
            final(self).wf(),
            final(self).lines() == unfolded.wrap_snapshot@,
            final(self).blocks() == moved(
                moved(old(self).blocks(), change.positions@),
                unfolded.positions@,
            ),
            final(self).next_id() == old(self).next_id(),
    {
        self.fold(change, unfolded);
    }

    /// Follows a change of the rows and shows the result.
    pub fn snapshot(&mut self, change: RowChange, buffer: BufferShape) -> (r: DisplayMapSnapshot)
        requires
            old(self).wf(),
            old(self).follows(change),
            buffer_ok(change.wrap_snapshot@, buffer.line_lens@),
        ensures
            r.line_lens() == buffer.line_lens@,
            r.folds() == buffer.folds@,
            final(self).wf(),
            final(self).lines() == change.wrap_snapshot@,
            final(self).blocks() == moved(old(self).blocks(), change.positions@),
            final(self).next_id() == old(self).next_id(),
            r.wf(),
            r.transforms() == final(self).transforms(),
            r.lines() == change.wrap_snapshot@,
            change.edits@.len() == 0 ==> r.transforms() == old(self).transforms(),
    {
        DisplayMapSnapshot::new(
            self.block_map.read(change.wrap_snapshot, &change.positions, &change.edits),
            buffer,
        )
    }

    /// Follows a change of the rows and adds blocks.
    pub fn insert_blocks(&mut self, change: RowChange, blocks: Vec<BlockProperties>) -> (ids: Vec<
        BlockId,
    >)
        requires
            old(self).wf(),
            old(self).follows(change),
            forall|i: int|
                0 <= i < blocks@.len() ==> showable(
                    made_block(#[trigger] blocks@[i], 0),
                    change.wrap_snapshot@,
                ),
            old(self).next_id() + blocks@.len() <= usize::MAX,
            change.wrap_snapshot@.len() + block_rows(old(self).blocks()) + new_rows(blocks@)
                <= u32::MAX,
        ensures
            final(self).wf(),
            final(self).lines() == change.wrap_snapshot@,
            final(self).next_id() == old(self).next_id() + blocks@.len(),
            ids@ == Seq::new(
                blocks@.len(),
                |i: int| BlockId((old(self).next_id() + i) as usize),
            ),
            final(self).blocks().len() == old(self).blocks().len() + blocks@.len(),
            forall|b: BlockView| #[trigger]
                final(self).blocks().contains(b) <==> moved(
                    old(self).blocks(),
                    change.positions@,
                ).contains(b) || is_made(blocks@, old(self).next_id(), b),
    {
        proof {
            moved_rows(self.block_map.blocks(), change.positions@);
        }
        self.block_map.write(change.wrap_snapshot, &change.positions, &change.edits);
        self.block_map.insert(blocks)
    }

    /// Follows a change of the rows and takes blocks away.
    pub fn remove_blocks(&mut self, change: RowChange, ids: &Vec<BlockId>)
        requires
            old(self).wf(),
            old(self).follows(change),
        ensures
            final(self).wf(),
            final(self).lines() == change.wrap_snapshot@,
            final(self).next_id() == old(self).next_id(),
            final(self).blocks() == without(
                moved(old(self).blocks(), change.positions@),
                ids@,
            ),
    {
        self.block_map.write(change.wrap_snapshot, &change.positions, &change.edits);
        self.block_map.remove(ids);
    }

    /// Gives blocks new styles.
    pub fn restyle_blocks(&mut self, styles: &Vec<Restyle>)
        requires
            old(self).wf(),
        ensures
            final(self).wf(),
            final(self).lines() == old(self).lines(),
            final(self).next_id() == old(self).next_id(),
            final(self).blocks() == restyled_blocks(old(self).blocks(), styles@),
    {
        self.block_map.restyle(styles);
    }
}

/// Folds are kept in order, piece by piece.
pub proof fn folds_are_picked_piece_by_piece(
    front: Seq<FoldRange>,
    back: Seq<FoldRange>,
    start: Point,
    end: Point,
)
    ensures
        folds_between(front + back, start, end) == folds_between(front, start, end) + folds_between(
            back,
            start,
            end,
        ),
    decreases back.len(),
{
    if back.len() == 0 {
        assert(front + back == front);
    } else {
        folds_are_picked_piece_by_piece(front, back.drop_last(), start, end);
        assert((front + back).drop_last() == front + back.drop_last());
    }
}

/// A fold lies between two places unless it ends where the first is or begins where the second is.
pub proof fn folds_that_reach_in_are_picked(fold: FoldRange, start: Point, end: Point)
    ensures
        fold.end.at_most(start) || end.at_most(fold.start) ==> folds_between(
            seq![fold],
            start,
            end,
        ).len() == 0,
        !fold.end.at_most(start) && !end.at_most(fold.start) ==> folds_between(
            seq![fold],
            start,
            end,
        ) == seq![fold],
{
    assert(seq![fold].drop_last() == Seq::<FoldRange>::empty());
    reveal_with_fuel(folds_between, 2);
}

/// A line leads at the last row, from this one up, that does not go on from the row before it.
pub proof fn lead_row_is_last(lines: Seq<WrapLineView>, w: int, v: int)
    requires
        0 <= w < lines.len(),
    ensures
        0 <= lead_row(lines, w) <= w,
        lead_row(lines, w) > 0 ==> !goes_on(lines, lead_row(lines, w) - 1),
        lead_row(lines, w) <= v < w ==> goes_on(lines, v),
    decreases w,
{
    if w > 0 && goes_on(lines, w - 1) {
        lead_row_is_last(lines, w - 1, v);
    }
}

/// A row is folded if a fold is shown in it, or in a row that goes on to it or from it.
pub proof fn folds_of_a_line_count_for_its_rows(lines: Seq<WrapLineView>, w: int, k: int)
    requires
        crate::wrap_rows::is_wrapping(lines),
        0 <= w < lines.len(),
    ensures
        0 <= k < lines[w].pieces.len() && lines[w].pieces[k].kind is Fold ==> folded_around(lines, w),
        0 <= k < lines[w].pieces.len() && lines[w].pieces[k].kind is Fold && goes_on(lines, w)
            ==> folded_around(lines, w + 1),
        w > 0 && 0 <= k < lines[w].pieces.len() && lines[w].pieces[k].kind is Fold && goes_on(
            lines,
            w - 1,
        ) ==> folded_around(lines, w - 1),
{
    lead_row_is_last(lines, w, w);
    crate::wrap_rows::tail_row_is_first(lines, w);
    if 0 <= k < lines[w].pieces.len() && lines[w].pieces[k].kind is Fold {
        assert(shows_fold(lines[w]));
        if goes_on(lines, w) {
            crate::wrap_rows::tail_row_is_first(lines, w + 1);
        }
        if w > 0 && goes_on(lines, w - 1) {
            lead_row_is_last(lines, w - 1, w);
        }
    }
}

/// A place is in a fold if it lies at the start of one or inside.
pub proof fn places_in_folds(lines: Seq<WrapLineView>, p: Point, k: int)
    requires
        crate::wrap_rows::is_wrapping(lines),
        0 <= k < lines[row_of(lines, p)].pieces.len(),
        crate::wrap_rows::piece_start(lines[row_of(lines, p)], k).at_most(p),
        p.precedes(lines[row_of(lines, p)].pieces[k].end),
    ensures
        in_fold(lines, p) <==> lines[row_of(lines, p)].pieces[k].kind is Fold,
{
    crate::wrap_rows::row_of_is_last_start(lines, p);
    assert(crate::wrap_rows::row_fits(lines[row_of(lines, p)]));
    crate::wrap_rows::piece_holding_is(lines[row_of(lines, p)], p, k);
}

/// The spaces in front of a text are all in front, and what follows them is none.
pub proof fn spaces_lead(text: Seq<u8>, i: int)
    ensures
        0 <= leading_spaces(text) <= text.len(),
        0 <= i < leading_spaces(text) ==> text[i] == 32,
        leading_spaces(text) < text.len() ==> text[leading_spaces(text)] != 32,
    decreases text.len(),
{
    if text.len() > 0 && text[0] == 32 {
        spaces_lead(text.skip(1), i - 1);
    }
}

/// A column of characters lies behind as many characters, or at the end of a text that has no more.
pub proof fn columns_lie_behind_their_characters(text: Seq<u8>, chars: int, column: int)
    requires
        is_column_of_chars(text, chars, column),
    ensures
        0 <= column <= text.len(),
        column < text.len() ==> char_count(text.take(column)) == chars && !(0x80 <= text[column]
            <= 0xbf),
        column == text.len() ==> char_count(text.take(column)) <= chars,
{
    if column == text.len() {
        assert(text.take(column) == text);
    }
}

} // verus!
