//! The rows of a buffer after folding, the expansion of tabs and soft wrapping, as the maps above
//! them see it.
use vstd::prelude::*;
use crate::block_transforms::HighlightStyle;
use crate::point::{Bias, Point};
use crate::proto::DiagnosticSeverity;

verus! {

/// How a piece of text is shown: its highlight, and the severity of the diagnostic that it is part
/// of.
#[derive(Clone, Copy, Debug, PartialEq, Eq, Structural)]
pub struct TextStyle {
    pub highlight: Option<HighlightStyle>,
    pub diagnostic: Option<DiagnosticSeverity>,
}

/// The style of text that has none.
pub open spec fn plain_style() -> TextStyle {
    TextStyle { highlight: None, diagnostic: None }
}

/// The style of a byte of a text with the styles of successive stretches of it. What is behind the
/// last stretch is plain.
pub open spec fn byte_style(runs: Seq<(usize, TextStyle)>, i: int) -> TextStyle
    decreases runs.len(),
{
    if runs.len() == 0 {
        plain_style()
    } else if i < runs[0].0 {
        runs[0].1
    } else {
        byte_style(runs.skip(1), i - runs[0].0)
    }
}

/// What a piece of a row shows: text of the buffer as it is, a tab as spaces, or a fold as a text that
/// stands for it.
#[derive(Clone, Copy, Debug, PartialEq, Eq, Structural)]
pub enum PieceKind {
    Text,
    Tab,
    Fold,
}

/// A piece of a row: how many bytes it shows, and where in the buffer it ends. It begins where the
/// piece before it ends.
#[derive(Clone, Copy, Debug, PartialEq, Eq, Structural)]
pub struct RowPiece {
    pub kind: PieceKind,
    pub shown: u32,
    pub end: Point,
}

/// One row of wrapped text: where in the buffer it begins, how far it is indented on its own
/// account, its text in UTF-8 with that indentation, the pieces that the text behind the indentation
/// consists of, and the styles of successive stretches of the text and the line feed behind it.
#[derive(Debug)]
pub struct WrapLine {
    pub start: Point,
    pub indent: u32,
    pub text: Vec<u8>,
    pub pieces: Vec<RowPiece>,
    pub runs: Vec<(usize, TextStyle)>,
}

/// The meaning of a wrapped row.
#[verifier::ext_equal]
pub struct WrapLineView {
    pub start: Point,
    pub indent: u32,
    pub text: Seq<u8>,
    pub pieces: Seq<RowPiece>,
    pub runs: Seq<(usize, TextStyle)>,
}

impl View for WrapLine {
    type V = WrapLineView;

    open spec fn view(&self) -> WrapLineView {
        WrapLineView {
            start: self.start,
            indent: self.indent,
            text: self.text@,
            pieces: self.pieces@,
            runs: self.runs@,
        }
    }
}

impl Clone for WrapLine {
    fn clone(&self) -> (r: Self)
        ensures
            r@ == self@,
    {
        let mut runs: Vec<(usize, TextStyle)> = Vec::new();
        let mut i: usize = 0;
        while i < self.runs.len()
            invariant
                i <= self.runs@.len(),
                runs@ == self.runs@.take(i as int),
            decreases self.runs.len() - i,
        {
            runs.push(self.runs[i]);
            i += 1;
            assert(runs@ =~= self.runs@.take(i as int));
        }
        assert(runs@ =~= self.runs@);
        let mut pieces: Vec<RowPiece> = Vec::new();
        let mut k: usize = 0;
        while k < self.pieces.len()
            invariant
                k <= self.pieces@.len(),
                pieces@ == self.pieces@.take(k as int),
            decreases self.pieces.len() - k,
        {
            pieces.push(self.pieces[k]);
            k += 1;
            assert(pieces@ =~= self.pieces@.take(k as int));
        }
        assert(pieces@ =~= self.pieces@);
        WrapLine { start: self.start, indent: self.indent, text: self.text.clone(), pieces, runs }
    }
}

/// The wrapped rows of a buffer.
#[derive(Debug)]
pub struct WrapSnapshot {
    lines: Vec<WrapLine>,
}

/// The meaning of the wrapped rows.
pub open spec fn line_views(lines: Seq<WrapLine>) -> Seq<WrapLineView> {
    lines.map_values(|l: WrapLine| l@)
}

/// The bytes that the first `k` pieces show.
pub open spec fn columns(pieces: Seq<RowPiece>, k: int) -> int
    decreases k,
{
    if k <= 0 {
        0
    } else {
        columns(pieces, k - 1) + pieces[k - 1].shown
    }
}

/// The column at which piece `k` of a row begins; behind the last one, the end of the row.
pub open spec fn piece_column(line: WrapLineView, k: int) -> int {
    line.indent + columns(line.pieces, k)
}

/// Where in the buffer piece `k` of a row begins; behind the last one, where the row ends.
pub open spec fn piece_start(line: WrapLineView, k: int) -> Point {
    if k <= 0 {
        line.start
    } else {
        line.pieces[k - 1].end
    }
}

/// Where in the buffer a row ends.
pub open spec fn row_end(line: WrapLineView) -> Point {
    piece_start(line, line.pieces.len() as int)
}

/// Whether a piece shows something of the buffer: text as it is, one tab, or anything as a fold.
pub open spec fn piece_ok(line: WrapLineView, k: int) -> bool {
    let a = piece_start(line, k);
    let p = line.pieces[k];
    &&& p.shown > 0
    &&& a.precedes(p.end)
    &&& p.kind is Text ==> a.row == p.end.row && p.end.column - a.column == p.shown
    &&& p.kind is Tab ==> a.row == p.end.row && p.end.column == a.column + 1
}

/// Whether the text of a row is its indentation and its pieces, and can be measured.
pub open spec fn row_fits(line: WrapLineView) -> bool {
    &&& line.text.len() < u32::MAX
    &&& no_feed(line.text)
    &&& piece_column(line, line.pieces.len() as int) == line.text.len()
    &&& forall|k: int| 0 <= k < line.pieces.len() ==> #[trigger] piece_ok(line, k)
}

/// Whether a row goes on in the next one: that begins where this one ends.
pub open spec fn goes_on(lines: Seq<WrapLineView>, w: int) -> bool {
    w + 1 < lines.len() && lines[w + 1].start == row_end(lines[w])
}

/// Whether a row begins where the row before it ends, if that shows something, or at the beginning
/// of the next line, without an indentation of its own.
pub open spec fn follows(lines: Seq<WrapLineView>, w: int) -> bool {
    let e = row_end(lines[w - 1]);
    let q = lines[w].start;
    ||| q == e && lines[w - 1].pieces.len() > 0
    ||| q.row == e.row + 1 && q.column == 0 && lines[w].indent == 0
}

/// Whether rows are the wrapped rows of a buffer: the first begins where the buffer begins, and
/// every other one goes on where the row before it ends.
pub open spec fn is_wrapping(lines: Seq<WrapLineView>) -> bool {
    &&& 0 < lines.len() < u32::MAX
    &&& lines[0].start == Point { row: 0, column: 0 }
    &&& lines[0].indent == 0
    &&& forall|w: int| 0 <= w < lines.len() ==> #[trigger] row_fits(lines[w])
    &&& forall|w: int| 0 < w < lines.len() ==> #[trigger] follows(lines, w)
}

/// Whether a text has no line feed in it.
pub open spec fn no_feed(text: Seq<u8>) -> bool {
    forall|i: int| 0 <= i < text.len() ==> #[trigger] text[i] != 10
}

/// The row that a position of the buffer is in, counted among the first `n` rows: the last one
/// that begins at or before it.
pub open spec fn row_among(lines: Seq<WrapLineView>, p: Point, n: int) -> int
    decreases n,
{
    if n <= 1 {
        0
    } else if lines[n - 1].start.at_most(p) {
        n - 1
    } else {
        row_among(lines, p, n - 1)
    }
}

/// The row that a position of the buffer is in.
pub open spec fn row_of(lines: Seq<WrapLineView>, p: Point) -> int {
    row_among(lines, p, lines.len() as int)
}

/// The first row of a buffer line.
pub open spec fn first_row(lines: Seq<WrapLineView>, line: u32) -> int {
    row_of(lines, Point { row: line, column: 0 })
}

/// The last row of a buffer line.
pub open spec fn last_row(lines: Seq<WrapLineView>, line: u32) -> int {
    row_of(lines, Point { row: line, column: u32::MAX })
}

/// Rows further down begin later in the buffer.
pub proof fn starts_ascend(lines: Seq<WrapLineView>, v: int, w: int)
    requires
        is_wrapping(lines),
        0 <= v < w < lines.len(),
    ensures
        lines[v].start.precedes(lines[w].start),
    decreases w - v,
{
    if v < w - 1 {
        starts_ascend(lines, v, w - 1);
    }
    assert(follows(lines, w));
    assert(row_fits(lines[w - 1]));
    pieces_ascend(lines[w - 1], 0, lines[w - 1].pieces.len() as int);
}

/// Pieces further on begin later in the buffer and in the row.
pub proof fn pieces_ascend(line: WrapLineView, j: int, k: int)
    requires
        row_fits(line),
        0 <= j <= k <= line.pieces.len(),
    ensures
        line.indent <= piece_column(line, j) <= piece_column(line, k) <= line.text.len(),
        j < k ==> piece_column(line, j) < piece_column(line, k) && piece_start(line, j).precedes(
            piece_start(line, k),
        ),
    decreases k - j,
{
    lemma_columns_ascend(line, 0, j);
    lemma_columns_ascend(line, j, k);
    lemma_columns_ascend(line, k, line.pieces.len() as int);
    if j < k {
        assert(piece_ok(line, k - 1));
        lemma_columns_ascend(line, j, k - 1);
        if j < k - 1 {
            pieces_ascend(line, j, k - 1);
        }
    }
}

proof fn lemma_columns_ascend(line: WrapLineView, j: int, k: int)
    requires
        row_fits(line),
        0 <= j <= k <= line.pieces.len(),
    ensures
        0 <= columns(line.pieces, j) <= columns(line.pieces, k),
    decreases k,
{
    if k > j {
        assert(piece_ok(line, k - 1));
        lemma_columns_ascend(line, j, k - 1);
    } else if k > 0 {
        assert(piece_ok(line, k - 1));
        lemma_columns_ascend(line, j - 1, k - 1);
    }
}

proof fn lemma_row_among(lines: Seq<WrapLineView>, p: Point, n: int)
    requires
        is_wrapping(lines),
        0 < n <= lines.len(),
    ensures
        0 <= row_among(lines, p, n) < n,
        lines[row_among(lines, p, n)].start.at_most(p),
        forall|w: int|
            row_among(lines, p, n) < w < n ==> p.precedes((#[trigger] lines[w]).start),
    decreases n,
{
    if n > 1 && !lines[n - 1].start.at_most(p) {
        lemma_row_among(lines, p, n - 1);
    }
}

/// A position is in the last row that begins at or before it.
pub proof fn row_of_is_last_start(lines: Seq<WrapLineView>, p: Point)
    requires
        is_wrapping(lines),
    ensures
        0 <= row_of(lines, p) < lines.len(),
        lines[row_of(lines, p)].start.at_most(p),
        forall|w: int|
            row_of(lines, p) < w < lines.len() ==> p.precedes((#[trigger] lines[w]).start),
{
    lemma_row_among(lines, p, lines.len() as int);
}

/// A row is the one that a position is in if it begins at or before the position and the next one
/// begins after it.
pub proof fn row_of_is(lines: Seq<WrapLineView>, p: Point, w: int)
    requires
        is_wrapping(lines),
        0 <= w < lines.len(),
        lines[w].start.at_most(p),
        w + 1 < lines.len() ==> p.precedes(lines[w + 1].start),
    ensures
        row_of(lines, p) == w,
{
    row_of_is_last_start(lines, p);
    let r = row_of(lines, p);
    if r < w {
        assert(p.precedes(lines[w].start));
    } else if r > w {
        if r > w + 1 {
            starts_ascend(lines, w + 1, r);
        }
    }
}

/// The rows of a buffer line stand between its first and its last one; a row that begins a line is at
/// or above the rows of exactly the lines from there on.
pub proof fn rows_of_line(lines: Seq<WrapLineView>, line: u32, w: int)
    requires
        is_wrapping(lines),
        0 <= w < lines.len(),
    ensures
        0 <= first_row(lines, line) <= last_row(lines, line) < lines.len(),
        lines[w].start.column == 0 && line >= lines[w].start.row ==> w <= first_row(lines, line),
        lines[w].start.column == 0 && line < lines[w].start.row ==> last_row(lines, line) < w,
        lines[w].start.row == line ==> first_row(lines, line) <= w <= last_row(lines, line),
        first_row(lines, line) < w <= last_row(lines, line) ==> lines[w].start.row == line
            && lines[w].start.column > 0,
        lines[w].start == (Point { row: line, column: 0 }) ==> first_row(lines, line) == w,
{
    let head = Point { row: line, column: 0 };
    let tail = Point { row: line, column: u32::MAX };
    let a = first_row(lines, line);
    let b = last_row(lines, line);
    row_of_is_last_start(lines, head);
    row_of_is_last_start(lines, tail);
    if a > b {
        assert(tail.precedes(lines[a].start));
    }
    if w < a {
        starts_ascend(lines, w, a);
    }
    if a < w {
        assert(head.precedes(lines[w].start));
    }
    if w < b {
        starts_ascend(lines, w, b);
    }
    if b < w {
        assert(tail.precedes(lines[w].start));
    }
}

/// Of the rows up to `w`, the last one that begins a buffer line.
pub open spec fn head_row(lines: Seq<WrapLineView>, w: int) -> int
    decreases w,
{
    if w <= 0 || lines[w].start.column == 0 {
        w
    } else {
        head_row(lines, w - 1)
    }
}

/// Of the rows from `w` on, the first one that begins a buffer line, or their number.
pub open spec fn next_head(lines: Seq<WrapLineView>, w: int) -> int
    decreases lines.len() - w,
{
    if w >= lines.len() || lines[w].start.column == 0 {
        w
    } else {
        next_head(lines, w + 1)
    }
}

/// Of the rows from `w` on, the first one that does not go on in the next row.
pub open spec fn tail_row(lines: Seq<WrapLineView>, w: int) -> int
    decreases lines.len() - w,
{
    if w + 1 >= lines.len() || !goes_on(lines, w) {
        w
    } else {
        tail_row(lines, w + 1)
    }
}

/// The last row that begins a line stands at or in front of a row, with no other in between.
pub proof fn head_row_is_last(lines: Seq<WrapLineView>, w: int)
    requires
        is_wrapping(lines),
        0 <= w < lines.len(),
    ensures
        0 <= head_row(lines, w) <= w,
        lines[head_row(lines, w)].start.column == 0,
        forall|v: int|
            head_row(lines, w) < v <= w ==> (#[trigger] lines[v]).start.column > 0,
    decreases w,
{
    if w > 0 && lines[w].start.column != 0 {
        head_row_is_last(lines, w - 1);
    }
}

/// The next row that begins a line stands at or behind a row, with no other in between.
pub proof fn next_head_is_first(lines: Seq<WrapLineView>, w: int)
    requires
        0 <= w <= lines.len(),
    ensures
        w <= next_head(lines, w) <= lines.len(),
        next_head(lines, w) < lines.len() ==> lines[next_head(lines, w)].start.column == 0,
        forall|v: int| w <= v < next_head(lines, w) ==> (#[trigger] lines[v]).start.column > 0,
    decreases lines.len() - w,
{
    if w < lines.len() && lines[w].start.column != 0 {
        next_head_is_first(lines, w + 1);
    }
}

/// The rows from a row to its last one go on, each in the next; behind the last one a line begins.
pub proof fn tail_row_is_first(lines: Seq<WrapLineView>, w: int)
    requires
        is_wrapping(lines),
        0 <= w < lines.len(),
    ensures
        w <= tail_row(lines, w) < lines.len(),
        !goes_on(lines, tail_row(lines, w)),
        forall|v: int| w <= v < tail_row(lines, w) ==> #[trigger] goes_on(lines, v),
        tail_row(lines, w) + 1 < lines.len() ==> {
            let e = row_end(lines[tail_row(lines, w)]);
            let q = lines[tail_row(lines, w) + 1].start;
            q.row == e.row + 1 && q.column == 0
        },
    decreases lines.len() - w,
{
    if w + 1 < lines.len() && goes_on(lines, w) {
        tail_row_is_first(lines, w + 1);
    } else if w + 1 < lines.len() {
        assert(follows(lines, w + 1));
    }
}

/// The piece that shows a column, from piece `k` on, or their number.
pub open spec fn piece_from(line: WrapLineView, c: int, k: int) -> int
    decreases line.pieces.len() - k,
{
    if k >= line.pieces.len() || c < piece_column(line, k + 1) {
        k
    } else {
        piece_from(line, c, k + 1)
    }
}

/// The piece that holds a position of the buffer, from piece `k` on, or their number.
pub open spec fn piece_holding(line: WrapLineView, p: Point, k: int) -> int
    decreases line.pieces.len() - k,
{
    if k >= line.pieces.len() || p.precedes(line.pieces[k].end) {
        k
    } else {
        piece_holding(line, p, k + 1)
    }
}

/// The column of a row at which a position of the buffer is shown. A position in a fold is shown at
/// the beginning of the fold.
pub open spec fn column_in(line: WrapLineView, p: Point) -> int {
    let k = piece_holding(line, p, 0);
    if k >= line.pieces.len() {
        line.text.len() as int
    } else if line.pieces[k].kind is Text {
        piece_column(line, k) + (p.column - piece_start(line, k).column)
    } else {
        piece_column(line, k)
    }
}

/// The position of the buffer at a column of a row. The indentation that wrapping added stands for the
/// place where the line was broken; within a tab or a fold, it is the beginning or the end of that.
pub open spec fn position_in(line: WrapLineView, c: int, bias: Bias) -> Point {
    let k = piece_from(line, c, 0);
    if c < line.indent {
        line.start
    } else if k >= line.pieces.len() {
        row_end(line)
    } else {
        let a = piece_start(line, k);
        if line.pieces[k].kind is Text {
            Point { row: a.row, column: (a.column + (c - piece_column(line, k))) as u32 }
        } else if c > piece_column(line, k) && bias == Bias::Right {
            line.pieces[k].end
        } else {
            a
        }
    }
}

/// The piece of a row that shows a column begins at or in front of it and ends behind it.
pub proof fn piece_from_shows(line: WrapLineView, c: int, k: int)
    requires
        row_fits(line),
        0 <= k <= line.pieces.len(),
        piece_column(line, k) <= c,
    ensures
        ({
            let r = piece_from(line, c, k);
            &&& k <= r <= line.pieces.len()
            &&& piece_column(line, r) <= c
            &&& r < line.pieces.len() ==> c < piece_column(line, r + 1) && piece_ok(line, r)
            &&& r == line.pieces.len() <==> c >= line.text.len()
        }),
    decreases line.pieces.len() - k,
{
    if k < line.pieces.len() {
        assert(piece_ok(line, k));
        if c < piece_column(line, k + 1) {
            pieces_ascend(line, k + 1, line.pieces.len() as int);
        } else {
            piece_from_shows(line, c, k + 1);
        }
    }
}

/// Only one piece shows a column.
pub proof fn piece_from_is(line: WrapLineView, c: int, r: int)
    requires
        row_fits(line),
        0 <= r <= line.pieces.len(),
        piece_column(line, r) <= c,
        r < line.pieces.len() ==> c < piece_column(line, r + 1),
    ensures
        piece_from(line, c, 0) == r,
{
    lemma_columns_ascend(line, 0, 0);
    pieces_ascend(line, 0, r);
    piece_from_shows(line, c, 0);
    let k = piece_from(line, c, 0);
    if k < r {
        pieces_ascend(line, k + 1, r);
    } else if k > r {
        pieces_ascend(line, r + 1, k);
    }
}

/// The piece of a row that holds a position begins at or in front of it and ends behind it.
pub proof fn piece_holding_holds(line: WrapLineView, p: Point, k: int)
    requires
        row_fits(line),
        0 <= k <= line.pieces.len(),
        piece_start(line, k).at_most(p),
    ensures
        ({
            let r = piece_holding(line, p, k);
            &&& k <= r <= line.pieces.len()
            &&& piece_start(line, r).at_most(p)
            &&& r < line.pieces.len() ==> p.precedes(line.pieces[r].end) && piece_ok(line, r)
            &&& r == line.pieces.len() <==> row_end(line).at_most(p)
        }),
    decreases line.pieces.len() - k,
{
    if k < line.pieces.len() {
        assert(piece_ok(line, k));
        if p.precedes(line.pieces[k].end) {
            pieces_ascend(line, k + 1, line.pieces.len() as int);
        } else {
            piece_holding_holds(line, p, k + 1);
        }
    }
}

/// Only one piece holds a position.
pub proof fn piece_holding_is(line: WrapLineView, p: Point, r: int)
    requires
        row_fits(line),
        0 <= r <= line.pieces.len(),
        piece_start(line, r).at_most(p),
        r < line.pieces.len() ==> p.precedes(line.pieces[r].end),
    ensures
        piece_holding(line, p, 0) == r,
{
    pieces_ascend(line, 0, r);
    piece_holding_holds(line, p, 0);
    let k = piece_holding(line, p, 0);
    if k < r {
        pieces_ascend(line, k + 1, r);
    } else if k > r {
        pieces_ascend(line, r + 1, k);
    }
}

/// Positions are shown within their row, behind its indentation.
pub proof fn column_in_row(line: WrapLineView, p: Point)
    requires
        row_fits(line),
        line.start.at_most(p),
    ensures
        line.indent <= column_in(line, p) <= line.text.len(),
        row_end(line).at_most(p) <==> column_in(line, p) == line.text.len(),
{
    piece_holding_holds(line, p, 0);
    let k = piece_holding(line, p, 0);
    pieces_ascend(line, 0, k);
    if k < line.pieces.len() {
        pieces_ascend(line, k, k + 1);
        pieces_ascend(line, k + 1, line.pieces.len() as int);
    }
}

/// The position at a column of a row is between the beginning and the end of the row.
pub proof fn position_in_row(line: WrapLineView, c: int, bias: Bias)
    requires
        row_fits(line),
        0 <= c,
    ensures
        line.start.at_most(position_in(line, c, bias)),
        position_in(line, c, bias).at_most(row_end(line)),
{
    let n = line.pieces.len() as int;
    pieces_ascend(line, 0, n);
    if c >= line.indent {
        piece_from_shows(line, c, 0);
        let k = piece_from(line, c, 0);
        pieces_ascend(line, 0, k);
        if k < n {
            assert(piece_ok(line, k));
            pieces_ascend(line, k, k + 1);
            pieces_ascend(line, k + 1, n);
        }
    }
}

/// A column that is not within a tab or a fold leads to the buffer and back.
pub proof fn column_round_trip(line: WrapLineView, c: int, bias: Bias)
    requires
        row_fits(line),
        line.indent <= c <= line.text.len(),
        ({
            let k = piece_from(line, c, 0);
            k < line.pieces.len() && !(line.pieces[k].kind is Text) ==> c == piece_column(line, k)
        }),
    ensures
        column_in(line, position_in(line, c, bias)) == c,
        line.start.at_most(position_in(line, c, bias)),
        position_in(line, c, bias).at_most(row_end(line)),
        c < line.text.len() ==> position_in(line, c, bias).precedes(row_end(line)),
{
    lemma_columns_ascend(line, 0, 0);
    piece_from_shows(line, c, 0);
    let k = piece_from(line, c, 0);
    pieces_ascend(line, 0, k);
    pieces_ascend(line, k, line.pieces.len() as int);
    if k < line.pieces.len() {
        assert(piece_ok(line, k));
        pieces_ascend(line, k, k + 1);
        pieces_ascend(line, k + 1, line.pieces.len() as int);
    }
    piece_holding_is(line, position_in(line, c, bias), k);
}

/// A position that is not within a fold leads to where it is shown and back.
pub proof fn position_round_trip(line: WrapLineView, p: Point, bias: Bias)
    requires
        row_fits(line),
        line.start.at_most(p),
        p.at_most(row_end(line)),
        ({
            let k = piece_holding(line, p, 0);
            k < line.pieces.len() && line.pieces[k].kind is Fold ==> p == piece_start(line, k)
        }),
    ensures
        position_in(line, column_in(line, p), bias) == p,
{
    piece_holding_holds(line, p, 0);
    let k = piece_holding(line, p, 0);
    column_in_row(line, p);
    pieces_ascend(line, 0, k);
    if k < line.pieces.len() {
        assert(piece_ok(line, k));
        pieces_ascend(line, k, k + 1);
    }
    piece_from_is(line, column_in(line, p), k);
}

/// Whether a byte begins a character.
pub open spec fn begins_char(b: u8) -> bool {
    !(0x80 <= b < 0xc0)
}

/// The number of characters in UTF-8 text.
pub open spec fn char_count(text: Seq<u8>) -> nat
    decreases text.len(),
{
    if text.len() == 0 {
        0
    } else {
        char_count(text.drop_last()) + if begins_char(text.last()) {
            1nat
        } else {
            0nat
        }
    }
}

/// Counts the characters in UTF-8 text.
pub fn count_chars(text: &Vec<u8>, from: usize, to: usize) -> (r: usize)
    requires
        from <= to <= text.len(),
    ensures
        r == char_count(text@.subrange(from as int, to as int)),
        r <= to - from,
{
    let mut n: usize = 0;
    let mut i: usize = from;
    while i < to
        invariant
            from <= i <= to <= text.len(),
            n <= i - from,
            n == char_count(text@.subrange(from as int, i as int)),
        decreases to - i,
    {
        let b: u8 = text[i];
        assert(text@.subrange(from as int, i + 1).drop_last() =~= text@.subrange(
            from as int,
            i as int,
        ));
        if !(0x80 <= b && b < 0xc0) {
            n += 1;
        }
        i += 1;
    }
    n
}

/// The end of the character that ends at or contains column `c`, seen from the left: the nearest
/// column at or before `c` where a character begins or the text ends.
pub open spec fn boundary_left(text: Seq<u8>, c: int) -> int
    decreases c,
{
    if c <= 0 {
        0
    } else if c >= text.len() {
        text.len() as int
    } else if begins_char(text[c]) {
        c
    } else {
        boundary_left(text, c - 1)
    }
}

/// The nearest column at or after `c` where a character begins or the text ends.
pub open spec fn boundary_right(text: Seq<u8>, c: int) -> int
    decreases text.len() - c,
{
    if c <= 0 {
        0
    } else if c >= text.len() {
        text.len() as int
    } else if begins_char(text[c]) {
        c
    } else {
        boundary_right(text, c + 1)
    }
}

/// The offset between two characters that an offset stands for.
pub open spec fn clipped_offset(text: Seq<u8>, c: int, bias: Bias) -> int {
    if bias == Bias::Left {
        boundary_left(text, c)
    } else {
        boundary_right(text, c)
    }
}

/// Moves an offset out of a character, to the left or to the right, and back into the text.
pub fn clip_offset(text: &Vec<u8>, offset: usize, bias: Bias) -> (r: usize)
    ensures
        r == clipped_offset(text@, offset as int, bias),
        r <= text@.len(),
{
    let len: usize = text.len();
    if offset == 0 {
        return 0;
    }
    if offset >= len {
        return len;
    }
    let mut c: usize = offset;
    match bias {
        Bias::Left => {
            while c > 0 && 0x80 <= text[c] && text[c] < 0xc0
                invariant
                    c < len,
                    len == text@.len(),
                    boundary_left(text@, offset as int) == boundary_left(text@, c as int),
                decreases c,
            {
                c -= 1;
            }
        },
        Bias::Right => {
            while c < len && 0x80 <= text[c] && text[c] < 0xc0
                invariant
                    0 < c <= len,
                    len == text@.len(),
                    boundary_right(text@, offset as int) == boundary_right(text@, c as int),
                decreases len - c,
            {
                c += 1;
            }
        },
    }
    c
}

/// Moves an offset out of a character, within a part of a text.
fn clip_between(text: &Vec<u8>, from: usize, to: usize, offset: usize, bias: Bias) -> (r: usize)
    requires
        from <= offset < to <= text@.len(),
    ensures
        r == from + clipped_offset(text@.subrange(from as int, to as int), offset - from, bias),
        from <= r <= to,
{
    let ghost part = text@.subrange(from as int, to as int);
    let mut c: usize = offset;
    match bias {
        Bias::Left => {
            while c > from && 0x80 <= text[c] && text[c] < 0xc0
                invariant
                    from <= c < to <= text@.len(),
                    part == text@.subrange(from as int, to as int),
                    boundary_left(part, offset - from) == boundary_left(part, c - from),
                decreases c,
            {
                assert(part[c - from] == text@[c as int]);
                c -= 1;
            }
            assert(part[c - from] == text@[c as int]);
        },
        Bias::Right => {
            if c > from {
                while c < to && 0x80 <= text[c] && text[c] < 0xc0
                    invariant
                        from < c <= to <= text@.len(),
                        part == text@.subrange(from as int, to as int),
                        boundary_right(part, offset - from) == boundary_right(part, c - from),
                    decreases to - c,
                {
                    assert(part[c - from] == text@[c as int]);
                    c += 1;
                }
                if c < to {
                    assert(part[c - from] == text@[c as int]);
                }
            }
        },
    }
    c
}

/// The valid column that a column of a row stands for: behind the indentation, between characters,
/// and not within a tab or a fold.
pub open spec fn clip_in(line: WrapLineView, c: int, bias: Bias) -> int {
    let k = piece_from(line, c, 0);
    if c <= line.indent {
        line.indent as int
    } else if k >= line.pieces.len() {
        line.text.len() as int
    } else {
        let a = piece_column(line, k);
        let b = piece_column(line, k + 1);
        if line.pieces[k].kind is Text {
            a + clipped_offset(line.text.subrange(a, b), c - a, bias)
        } else if c == a || bias == Bias::Left {
            a
        } else {
            b
        }
    }
}

/// The valid position that a position stands for: within the rows and the row, between characters, and
/// not within a tab or a fold. The end of a row that goes on is no such position: to the left of it is
/// the last character of the row, to the right the beginning of the next row, behind its indentation.
pub open spec fn clipped(lines: Seq<WrapLineView>, p: Point, bias: Bias) -> Point {
    let last = lines.len() - 1;
    let w = p.row as int;
    if w > last {
        Point { row: last as u32, column: lines[last].text.len() as u32 }
    } else if p.column < lines[w].indent && bias == Bias::Left {
        let before = lines[w - 1];
        Point {
            row: (w - 1) as u32,
            column: clip_in(before, before.text.len() - 1, Bias::Left) as u32,
        }
    } else if goes_on(lines, w) {
        let len = lines[w].text.len() as int;
        if bias == Bias::Left {
            let c = if p.column < len {
                p.column as int
            } else {
                len - 1
            };
            Point { row: p.row, column: clip_in(lines[w], c, Bias::Left) as u32 }
        } else if clip_in(lines[w], p.column as int, Bias::Right) < len {
            Point {
                row: p.row,
                column: clip_in(lines[w], p.column as int, Bias::Right) as u32,
            }
        } else {
            Point { row: (w + 1) as u32, column: lines[w + 1].indent }
        }
    } else {
        Point { row: p.row, column: clip_in(lines[w], p.column as int, bias) as u32 }
    }
}

proof fn lemma_boundaries(text: Seq<u8>, c: int)
    requires
        0 <= c,
    ensures
        0 <= boundary_left(text, c) <= text.len(),
        0 <= boundary_right(text, c) <= text.len(),
    decreases c,
{
    if 0 < c < text.len() {
        if !begins_char(text[c]) {
            lemma_boundaries(text, c - 1);
        }
        lemma_boundary_right(text, c);
    }
}

proof fn lemma_boundary_right(text: Seq<u8>, c: int)
    requires
        0 <= c,
    ensures
        0 <= boundary_right(text, c) <= text.len(),
    decreases text.len() - c,
{
    if 0 < c < text.len() && !begins_char(text[c]) {
        lemma_boundary_right(text, c + 1);
    }
}

proof fn lemma_clipped_offset(text: Seq<u8>, c: int, bias: Bias)
    requires
        0 <= c,
    ensures
        0 <= clipped_offset(text, c, bias) <= text.len(),
        bias == Bias::Left ==> clipped_offset(text, c, bias) <= c,
        c < text.len() && bias == Bias::Right ==> c <= clipped_offset(text, c, bias),
    decreases c,
{
    lemma_boundaries(text, c);
    lemma_boundary_sides(text, c);
}

proof fn lemma_boundary_sides(text: Seq<u8>, c: int)
    requires
        0 <= c,
    ensures
        boundary_left(text, c) <= c,
        c < text.len() ==> c <= boundary_right(text, c),
    decreases c,
{
    if 0 < c < text.len() && !begins_char(text[c]) {
        lemma_boundary_sides(text, c - 1);
    }
    lemma_right_side(text, c);
}

proof fn lemma_right_side(text: Seq<u8>, c: int)
    requires
        0 <= c,
    ensures
        c <= text.len() ==> c <= boundary_right(text, c),
    decreases text.len() - c,
{
    if 0 < c < text.len() && !begins_char(text[c]) {
        lemma_right_side(text, c + 1);
    }
}

/// Whether a column of a row is one at which a position of the buffer is shown.
pub open spec fn valid_column(line: WrapLineView, c: int) -> bool {
    let k = piece_from(line, c, 0);
    &&& line.indent <= c <= line.text.len()
    &&& k < line.pieces.len() && !(line.pieces[k].kind is Text) ==> c == piece_column(line, k)
}

/// Clipping leads to a valid column: on the left of a column in front of the end, to one in front of
/// the end.
pub proof fn clip_in_is_valid(line: WrapLineView, c: int, bias: Bias)
    requires
        row_fits(line),
        0 <= c,
    ensures
        valid_column(line, clip_in(line, c, bias)),
        c < line.text.len() && line.pieces.len() > 0 && bias == Bias::Left ==> clip_in(
            line,
            c,
            bias,
        ) < line.text.len(),
{
    lemma_columns_ascend(line, 0, 0);
    pieces_ascend(line, 0, line.pieces.len() as int);
    let r = clip_in(line, c, bias);
    if c <= line.indent {
        if line.pieces.len() > 0 {
            assert(piece_ok(line, 0));
            pieces_ascend(line, 0, 1);
            pieces_ascend(line, 1, line.pieces.len() as int);
        }
        piece_from_is(line, r, 0);
    } else {
        piece_from_shows(line, c, 0);
        let k = piece_from(line, c, 0);
        if k < line.pieces.len() {
            let a = piece_column(line, k);
            let b = piece_column(line, k + 1);
            pieces_ascend(line, 0, k);
            pieces_ascend(line, k, k + 1);
            pieces_ascend(line, k + 1, line.pieces.len() as int);
            lemma_clipped_offset(line.text.subrange(a, b), c - a, bias);
            if r < b {
                piece_from_is(line, r, k);
            } else {
                if k + 1 < line.pieces.len() {
                    assert(piece_ok(line, k + 1));
                    pieces_ascend(line, k + 1, k + 2);
                }
                piece_from_is(line, r, k + 1);
            }
        } else {
            piece_from_is(line, r, k);
        }
    }
}

/// Clipping leads to a valid position: one at which a position of the buffer is shown, which is not
/// the end of a row that goes on.
pub proof fn clipped_is_valid(lines: Seq<WrapLineView>, p: Point, bias: Bias)
    requires
        is_wrapping(lines),
    ensures
        ({
            let c = clipped(lines, p, bias);
            &&& c.row < lines.len()
            &&& valid_column(lines[c.row as int], c.column as int)
            &&& goes_on(lines, c.row as int) ==> c.column < lines[c.row as int].text.len()
            &&& p.row < lines.len() ==> c.row == p.row || c.row == p.row + 1 && goes_on(
                lines,
                p.row as int,
            ) || c.row + 1 == p.row && goes_on(lines, c.row as int)
        }),
{
    let w = p.row as int;
    let last = lines.len() - 1;
    if w > last {
        let line = lines[last];
        assert(row_fits(line));
        pieces_ascend(line, 0, line.pieces.len() as int);
        piece_from_is(line, line.text.len() as int, line.pieces.len() as int);
    } else {
        let line = lines[w];
        assert(row_fits(line));
        pieces_ascend(line, 0, line.pieces.len() as int);
        if w > 0 {
            assert(follows(lines, w));
            assert(row_fits(lines[w - 1]));
            let before = lines[w - 1];
            if before.pieces.len() > 0 {
                pieces_ascend(before, 0, before.pieces.len() as int);
                clip_in_is_valid(before, before.text.len() - 1, Bias::Left);
            }
        }
        if goes_on(lines, w) {
            assert(follows(lines, w + 1));
            let next = lines[w + 1];
            assert(row_fits(next));
            clip_in_is_valid(next, next.indent as int, bias);
            if goes_on(lines, w + 1) {
                assert(follows(lines, w + 2));
                pieces_ascend(next, 0, next.pieces.len() as int);
            }
        }
        clip_in_is_valid(line, p.column as int, bias);
        if line.text.len() > 0 {
            clip_in_is_valid(line, line.text.len() - 1, Bias::Left);
        }
    }
}

/// Of the rows with the most characters, the first, among the first `n`.
pub open spec fn longest_among(lines: Seq<WrapLineView>, n: int) -> int
    decreases n,
{
    if n <= 1 {
        0
    } else {
        let before = longest_among(lines, n - 1);
        if char_count(lines[n - 1].text) > char_count(lines[before].text) {
            n - 1
        } else {
            before
        }
    }
}

impl View for WrapSnapshot {
    type V = Seq<WrapLineView>;

    closed spec fn view(&self) -> Seq<WrapLineView> {
        line_views(self.lines@)
    }
}

impl WrapSnapshot {
    #[verifier::type_invariant]
    closed spec fn wrapping(self) -> bool {
        is_wrapping(line_views(self.lines@))
    }

    /// The snapshot of the given rows.
    pub fn new(lines: Vec<WrapLine>) -> (r: WrapSnapshot)
        requires
            is_wrapping(line_views(lines@)),
        ensures
            r@ == line_views(lines@),
            is_wrapping(r@),
    {
        WrapSnapshot { lines }
    }

    /// The number of rows.
    pub fn row_count(&self) -> (r: u32)
        ensures
            is_wrapping(self@),
            r == self@.len(),
    {
        proof {
            use_type_invariant(self);
        }
        self.lines.len() as u32
    }

    /// Where in the buffer a row begins.
    pub fn start(&self, row: u32) -> (r: Point)
        requires
            row < self@.len(),
        ensures
            r == self@[row as int].start,
    {
        self.lines[row as usize].start
    }

    /// How far a row is indented on its own account.
    pub fn indent(&self, row: u32) -> (r: u32)
        requires
            row < self@.len(),
        ensures
            r == self@[row as int].indent,
    {
        self.lines[row as usize].indent
    }

    /// The styles of successive stretches of the text of row `row`.
    pub fn runs(&self, row: u32) -> (r: &Vec<(usize, TextStyle)>)
        requires
            row < self@.len(),
        ensures
            r@ == self@[row as int].runs,
    {
        &self.lines[row as usize].runs
    }

    /// The text of a row.
    pub fn text(&self, row: u32) -> (r: &Vec<u8>)
        requires
            row < self@.len(),
        ensures
            r@ == self@[row as int].text,
    {
        &self.lines[row as usize].text
    }

    /// The length of a row in bytes.
    pub fn line_len(&self, row: u32) -> (r: u32)
        requires
            row < self@.len(),
        ensures
            r == self@[row as int].text.len(),
    {
        proof {
            use_type_invariant(self);
            assert(self@[row as int].text == self.lines@[row as int]@.text);
            assert(row_fits(self@[row as int]));
        }
        self.lines[row as usize].text.len() as u32
    }

    /// The number of characters in a row.
    pub fn line_char_count(&self, row: u32) -> (r: u32)
        requires
            row < self@.len(),
        ensures
            r == char_count(self@[row as int].text),
    {
        proof {
            use_type_invariant(self);
            assert(self@[row as int].text == self.lines@[row as int]@.text);
            assert(row_fits(self@[row as int]));
        }
        let text: &Vec<u8> = &self.lines[row as usize].text;
        assert(text@.subrange(0, text@.len() as int) =~= text@);
        count_chars(text, 0, text.len()) as u32
    }

    /// The end of the last row.
    pub fn max_point(&self) -> (r: Point)
        ensures
            is_wrapping(self@),
            r == (Point {
                row: (self@.len() - 1) as u32,
                column: self@.last().text.len() as u32,
            }),
    {
        let row: u32 = self.row_count() - 1;
        Point { row, column: self.line_len(row) }
    }

    /// The row that a position of the buffer is in.
    pub fn row_of(&self, p: Point) -> (r: u32)
        ensures
            is_wrapping(self@),
            r == row_of(self@, p),
            r < self@.len(),
    {
        let mut n: u32 = self.row_count();
        proof {
            row_of_is_last_start(self@, p);
        }
        while n > 1
            invariant
                0 < n <= self@.len(),
                is_wrapping(self@),
                row_of(self@, p) < self@.len(),
                row_of(self@, p) == row_among(self@, p, n as int),
            decreases n,
        {
            if !p.before(&self.start(n - 1)) {
                assert(self@[n - 1].start.at_most(p));
                return n - 1;
            }
            n -= 1;
        }
        0
    }

    /// The pieces of a row.
    pub fn pieces(&self, row: u32) -> (r: &Vec<RowPiece>)
        requires
            row < self@.len(),
        ensures
            r@ == self@[row as int].pieces,
    {
        &self.lines[row as usize].pieces
    }

    /// Where in the buffer a row ends.
    pub fn end(&self, row: u32) -> (r: Point)
        requires
            row < self@.len(),
        ensures
            r == row_end(self@[row as int]),
    {
        let line: &WrapLine = &self.lines[row as usize];
        assert(self@[row as int] == line@);
        let n: usize = line.pieces.len();
        if n == 0 {
            line.start
        } else {
            line.pieces[n - 1].end
        }
    }

    /// Whether a row goes on in the next one.
    pub fn goes_on(&self, row: u32) -> (r: bool)
        requires
            row < self@.len(),
        ensures
            r == goes_on(self@, row as int),
    {
        let n: u32 = self.row_count();
        row < n - 1 && self.start(row + 1) == self.end(row)
    }

    /// The column at which a position of the buffer is shown in its row.
    pub fn column_of(&self, p: Point) -> (r: u32)
        ensures
            is_wrapping(self@),
            r == column_of(self@, p),
            r <= self@[row_of(self@, p)].text.len(),
    {
        let w: u32 = self.row_of(p);
        proof {
            row_of_is_last_start(self@, p);
            assert(row_fits(self@[w as int]));
            column_in_row(self@[w as int], p);
        }
        self.lines[w as usize].column_of(p)
    }

    /// The position of the buffer that a position of the wrapped rows stands for.
    pub fn position(&self, p: Point, bias: Bias) -> (r: Point)
        requires
            p.row < self@.len(),
        ensures
            r == position_in(self@[p.row as int], p.column as int, bias),
    {
        proof {
            use_type_invariant(self);
            assert(row_fits(self@[p.row as int]));
        }
        self.lines[p.row as usize].position(p.column, bias)
    }

    /// The place out of a fold that a position of the buffer stands for.
    pub fn fold_edge(&self, p: Point, bias: Bias) -> (r: Point)
        ensures
            r == fold_edge(self@, p, bias),
    {
        let w: u32 = self.row_of(p);
        let line: &WrapLine = &self.lines[w as usize];
        proof {
            row_of_is_last_start(self@, p);
            assert(self@[w as int] == line@);
            assert(row_fits(line@));
        }
        let (k, column) = line.holding(p);
        if k < line.pieces.len() {
            let a: Point = if k == 0 {
                line.start
            } else {
                line.pieces[k - 1].end
            };
            match line.pieces[k].kind {
                PieceKind::Fold => {
                    if a.before(&p) {
                        return match bias {
                            Bias::Left => a,
                            Bias::Right => line.pieces[k].end,
                        };
                    }
                },
                _ => {},
            }
        }
        p
    }

    /// Whether a position of the buffer is in a fold.
    pub fn in_fold(&self, p: Point) -> (r: bool)
        ensures
            ({
                let line = self@[row_of(self@, p)];
                let k = piece_holding(line, p, 0);
                r == (k < line.pieces.len() && line.pieces[k].kind is Fold)
            }),
    {
        let w: u32 = self.row_of(p);
        let line: &WrapLine = &self.lines[w as usize];
        proof {
            row_of_is_last_start(self@, p);
            assert(self@[w as int] == line@);
            assert(row_fits(line@));
        }
        let (k, column) = line.holding(p);
        k < line.pieces.len() && match line.pieces[k].kind {
            PieceKind::Fold => true,
            _ => false,
        }
    }

    /// Whether a row shows a fold.
    pub fn row_shows_fold(&self, row: u32) -> (r: bool)
        requires
            row < self@.len(),
        ensures
            r == exists|k: int|
                0 <= k < self@[row as int].pieces.len() && (
                #[trigger] self@[row as int].pieces[k]).kind is Fold,
    {
        let pieces: &Vec<RowPiece> = self.pieces(row);
        let mut k: usize = 0;
        while k < pieces.len()
            invariant
                k <= pieces@.len(),
                pieces@ == self@[row as int].pieces,
                forall|j: int| 0 <= j < k ==> !((#[trigger] pieces@[j]).kind is Fold),
            decreases pieces.len() - k,
        {
            match pieces[k].kind {
                PieceKind::Fold => {
                    assert(self@[row as int].pieces[k as int].kind is Fold);
                    return true;
                },
                _ => {},
            }
            k += 1;
        }
        false
    }

    /// The valid position that a position stands for.
    pub fn clip_point(&self, p: Point, bias: Bias) -> (r: Point)
        ensures
            is_wrapping(self@),
            r == clipped(self@, p, bias),
            r.row < self@.len(),
    {
        let n: u32 = self.row_count();
        proof {
            clipped_is_valid(self@, p, bias);
        }
        if p.row >= n {
            return self.max_point();
        }
        let w: u32 = p.row;
        let ghost lines = self@;
        proof {
            assert(row_fits(lines[w as int]));
            if w > 0 {
                assert(follows(lines, w as int));
                assert(row_fits(lines[w - 1]));
                pieces_ascend(lines[w - 1], 0, lines[w - 1].pieces.len() as int);
            }
            pieces_ascend(lines[w as int], 0, lines[w as int].pieces.len() as int);
            if goes_on(lines, w as int) {
                assert(follows(lines, w + 1));
            }
        }
        let len: u32 = self.line_len(w);
        let left: bool = match bias {
            Bias::Left => true,
            Bias::Right => false,
        };
        if left && p.column < self.indent(w) {
            let before: u32 = self.line_len(w - 1);
            return Point {
                row: w - 1,
                column: self.lines[(w - 1) as usize].clip(before - 1, Bias::Left),
            };
        }
        if self.goes_on(w) {
            if left {
                let c: u32 = if p.column < len {
                    p.column
                } else {
                    len - 1
                };
                return Point { row: w, column: self.lines[w as usize].clip(c, Bias::Left) };
            }
            let c: u32 = self.lines[w as usize].clip(p.column, Bias::Right);
            if c < len {
                Point { row: w, column: c }
            } else {
                Point { row: w + 1, column: self.indent(w + 1) }
            }
        } else {
            Point { row: w, column: self.lines[w as usize].clip(p.column, bias) }
        }
    }

    /// The first of the rows with the most characters.
    pub fn longest_row(&self) -> (r: u32)
        ensures
            is_wrapping(self@),
            r == longest_among(self@, self@.len() as int),
            r < self@.len(),
    {
        let n: u32 = self.row_count();
        let mut best: u32 = 0;
        let mut i: u32 = 1;
        while i < n
            invariant
                1 <= i <= n,
                n == self@.len(),
                best < i,
                best == longest_among(self@, i as int),
            decreases n - i,
        {
            if self.line_char_count(i) > self.line_char_count(best) {
                best = i;
            }
            i += 1;
        }
        best
    }
}

/// The column at which a position of the buffer is shown in its row.
pub open spec fn column_of(lines: Seq<WrapLineView>, p: Point) -> int {
    column_in(lines[row_of(lines, p)], p)
}

/// Positions are shown within their rows.
pub proof fn column_of_in_row(lines: Seq<WrapLineView>, p: Point)
    requires
        is_wrapping(lines),
    ensures
        lines[row_of(lines, p)].indent <= column_of(lines, p) <= lines[row_of(
            lines,
            p,
        )].text.len() < u32::MAX,
{
    row_of_is_last_start(lines, p);
    assert(row_fits(lines[row_of(lines, p)]));
    column_in_row(lines[row_of(lines, p)], p);
}

/// The position of the buffer that a position stands for if it is within a fold: the beginning or the
/// end of the fold.
pub open spec fn fold_edge(lines: Seq<WrapLineView>, p: Point, bias: Bias) -> Point {
    let line = lines[row_of(lines, p)];
    let k = piece_holding(line, p, 0);
    if k < line.pieces.len() && line.pieces[k].kind is Fold && piece_start(line, k).precedes(p) {
        if bias == Bias::Left {
            piece_start(line, k)
        } else {
            line.pieces[k].end
        }
    } else {
        p
    }
}

impl WrapLine {
    /// A row that shows the buffer as it is, from `start` on, behind an indentation.
    pub fn plain(start: Point, indent: u32, text: Vec<u8>) -> (r: WrapLine)
        requires
            indent <= text@.len() < u32::MAX,
            start.column + (text@.len() - indent) <= u32::MAX,
        ensures
            r.start == start,
            r.indent == indent,
            r.text@ == text@,
            r.runs@.len() == 0,
            r.pieces@ == (if text@.len() > indent {
                seq![
                    RowPiece {
                        kind: PieceKind::Text,
                        shown: (text@.len() - indent) as u32,
                        end: Point {
                            row: start.row,
                            column: (start.column + (text@.len() - indent)) as u32,
                        },
                    },
                ]
            } else {
                Seq::empty()
            }),
    {
        let shown: u32 = text.len() as u32 - indent;
        let mut pieces: Vec<RowPiece> = Vec::new();
        if shown > 0 {
            let end = Point { row: start.row, column: start.column + shown };
            pieces.push(RowPiece { kind: PieceKind::Text, shown, end });
        }
        WrapLine { start, indent, text, pieces, runs: Vec::new() }
    }

    /// The piece that holds a position of the buffer, and where it begins.
    fn holding(&self, p: Point) -> (r: (usize, u32))
        requires
            row_fits(self@),
            self.start.at_most(p),
        ensures
            r.0 == piece_holding(self@, p, 0),
            r.0 <= self.pieces@.len(),
            r.1 == piece_column(self@, r.0 as int),
    {
        let mut k: usize = 0;
        let mut column: u32 = self.indent;
        while k < self.pieces.len() && !p.before(&self.pieces[k].end)
            invariant
                row_fits(self@),
                k <= self.pieces@.len(),
                column == piece_column(self@, k as int),
                piece_holding(self@, p, 0) == piece_holding(self@, p, k as int),
            decreases self.pieces.len() - k,
        {
            proof {
                pieces_ascend(self@, 0, k + 1);
            }
            column = column + self.pieces[k].shown;
            k += 1;
        }
        (k, column)
    }

    /// The piece that shows a column, and where it begins.
    fn showing(&self, c: u32) -> (r: (usize, u32))
        requires
            row_fits(self@),
            self.indent <= c,
        ensures
            r.0 == piece_from(self@, c as int, 0),
            r.0 <= self.pieces@.len(),
            r.1 == piece_column(self@, r.0 as int),
    {
        let mut k: usize = 0;
        let mut column: u32 = self.indent;
        while k < self.pieces.len() && c - column >= self.pieces[k].shown
            invariant
                row_fits(self@),
                k <= self.pieces@.len(),
                column == piece_column(self@, k as int),
                column <= c,
                piece_from(self@, c as int, 0) == piece_from(self@, c as int, k as int),
            decreases self.pieces.len() - k,
        {
            proof {
                pieces_ascend(self@, 0, k + 1);
            }
            column = column + self.pieces[k].shown;
            k += 1;
        }
        (k, column)
    }

    /// The column at which a position of the buffer is shown.
    fn column_of(&self, p: Point) -> (r: u32)
        requires
            row_fits(self@),
            self.start.at_most(p),
        ensures
            r == column_in(self@, p),
    {
        proof {
            piece_holding_holds(self@, p, 0);
            column_in_row(self@, p);
        }
        let (k, column) = self.holding(p);
        if k == self.pieces.len() {
            return self.text.len() as u32;
        }
        let a: Point = if k == 0 {
            self.start
        } else {
            self.pieces[k - 1].end
        };
        match self.pieces[k].kind {
            PieceKind::Text => column + (p.column - a.column),
            _ => column,
        }
    }

    /// The position of the buffer at a column.
    fn position(&self, c: u32, bias: Bias) -> (r: Point)
        requires
            row_fits(self@),
        ensures
            r == position_in(self@, c as int, bias),
    {
        if c < self.indent {
            return self.start;
        }
        proof {
            lemma_columns_ascend(self@, 0, 0);
            piece_from_shows(self@, c as int, 0);
        }
        let (k, column) = self.showing(c);
        let a: Point = if k == 0 {
            self.start
        } else {
            self.pieces[k - 1].end
        };
        if k == self.pieces.len() {
            return a;
        }
        let right: bool = match bias {
            Bias::Left => false,
            Bias::Right => true,
        };
        match self.pieces[k].kind {
            PieceKind::Text => Point { row: a.row, column: a.column + (c - column) },
            _ => if c > column && right {
                self.pieces[k].end
            } else {
                a
            },
        }
    }

    /// The valid column that a column stands for.
    fn clip(&self, c: u32, bias: Bias) -> (r: u32)
        requires
            row_fits(self@),
        ensures
            r == clip_in(self@, c as int, bias),
    {
        if c <= self.indent {
            return self.indent;
        }
        proof {
            lemma_columns_ascend(self@, 0, 0);
            piece_from_shows(self@, c as int, 0);
            clip_in_is_valid(self@, c as int, bias);
        }
        let (k, column) = self.showing(c);
        if k == self.pieces.len() {
            return self.text.len() as u32;
        }
        proof {
            pieces_ascend(self@, 0, k as int);
            pieces_ascend(self@, k as int, k + 1);
            pieces_ascend(self@, k + 1, self.pieces@.len() as int);
        }
        let end: u32 = column + self.pieces[k].shown;
        let left: bool = match bias {
            Bias::Left => true,
            Bias::Right => false,
        };
        match self.pieces[k].kind {
            PieceKind::Text => clip_between(
                &self.text,
                column as usize,
                end as usize,
                c as usize,
                bias,
            ) as u32,
            _ => if c == column || left {
                column
            } else {
                end
            },
        }
    }
}

impl Clone for WrapSnapshot {
    fn clone(&self) -> (r: Self)
        ensures
            r@ == self@,
            is_wrapping(r@),
    {
        proof {
            use_type_invariant(self);
        }
        let mut lines: Vec<WrapLine> = Vec::new();
        let mut i: usize = 0;
        while i < self.lines.len()
            invariant
                i <= self.lines.len(),
                lines@.len() == i,
                forall|j: int| 0 <= j < i ==> (#[trigger] lines@[j])@ == self.lines@[j]@,
            decreases self.lines.len() - i,
        {
            lines.push(self.lines[i].clone());
            i += 1;
        }
        assert(line_views(lines@) =~= line_views(self.lines@));
        WrapSnapshot { lines }
    }
}

/// An offset in a text is clipped to the nearest place on its side at which a character begins.
pub proof fn clipping_finds_the_nearest_boundary(text: Seq<u8>, c: int, j: int)
    requires
        0 < c <= text.len(),
        0 < j < text.len(),
    ensures
        ({
            let left = clipped_offset(text, c, Bias::Left);
            let right = clipped_offset(text, c, Bias::Right);
            &&& 0 <= left <= c <= right <= text.len()
            &&& 0 < left < text.len() ==> !(0x80 <= text[left] <= 0xbf)
            &&& 0 < right < text.len() ==> !(0x80 <= text[right] <= 0xbf)
            &&& left < j <= c ==> 0x80 <= text[j] <= 0xbf
            &&& c <= j < right ==> 0x80 <= text[j] <= 0xbf
        }),
    decreases c,
{
    lemma_boundaries(text, c);
    lemma_boundary_sides(text, c);
    lemma_left_boundary(text, c, j);
    lemma_right_boundary(text, c, j);
}

proof fn lemma_left_boundary(text: Seq<u8>, c: int, j: int)
    requires
        0 <= c <= text.len(),
        0 < j < text.len(),
    ensures
        0 < boundary_left(text, c) < text.len() ==> begins_char(text[boundary_left(text, c)]),
        boundary_left(text, c) < j <= c ==> !begins_char(text[j]),
    decreases c,
{
    if 0 < c < text.len() && !begins_char(text[c]) {
        lemma_left_boundary(text, c - 1, j);
    }
}

proof fn lemma_right_boundary(text: Seq<u8>, c: int, j: int)
    requires
        0 < c <= text.len(),
        0 < j < text.len(),
    ensures
        0 < boundary_right(text, c) < text.len() ==> begins_char(text[boundary_right(text, c)]),
        c <= j < boundary_right(text, c) ==> !begins_char(text[j]),
    decreases text.len() - c,
{
    if c < text.len() && !begins_char(text[c]) {
        lemma_right_boundary(text, c + 1, j);
    }
}

/// An offset beyond a text is its end; the front stays the front.
pub proof fn ends_are_boundaries(text: Seq<u8>, c: int, bias: Bias)
    ensures
        c >= text.len() && c > 0 ==> clipped_offset(text, c, bias) == text.len(),
        clipped_offset(text, 0, bias) == 0,
{
}

/// Characters are counted by the bytes that begin one: counts of two texts add up, a byte that goes
/// on with a character counts nothing, and every other byte counts one.
pub proof fn characters_are_counted_once(front: Seq<u8>, back: Seq<u8>, b: u8)
    ensures
        char_count(front + back) == char_count(front) + char_count(back),
        char_count(seq![b]) == if 0x80 <= b <= 0xbf {
            0nat
        } else {
            1
        },
    decreases back.len(),
{
    assert(seq![b].drop_last() == Seq::<u8>::empty());
    reveal_with_fuel(char_count, 2);
    if back.len() == 0 {
        assert(front + back == front);
    } else {
        characters_are_counted_once(front, back.drop_last(), b);
        assert((front + back).drop_last() == front + back.drop_last());
    }
}

/// The bytes of the runs in front.
pub open spec fn run_bytes(runs: Seq<(usize, TextStyle)>) -> int
    decreases runs.len(),
{
    if runs.len() == 0 {
        0
    } else {
        run_bytes(runs.drop_last()) + runs.last().0
    }
}

/// A byte has the style of the run that it lies in.
pub proof fn bytes_have_the_style_of_their_run(runs: Seq<(usize, TextStyle)>, k: int, i: int)
    requires
        0 <= k < runs.len(),
        run_bytes(runs.take(k)) <= i < run_bytes(runs.take(k)) + runs[k].0,
    ensures
        byte_style(runs, i) == runs[k].1,
    decreases runs.len(),
{
    if k > 0 {
        lemma_run_bytes_in_front(runs, k);
        lemma_run_bytes_not_negative(runs.skip(1).take(k - 1));
        bytes_have_the_style_of_their_run(runs.skip(1), k - 1, i - runs[0].0);
    } else {
        assert(runs.take(0) == Seq::<(usize, TextStyle)>::empty());
    }
}

/// A byte behind all runs has neither a highlight nor a diagnostic.
pub proof fn bytes_behind_the_runs_are_plain(runs: Seq<(usize, TextStyle)>, i: int)
    requires
        run_bytes(runs) <= i,
    ensures
        byte_style(runs, i).highlight is None,
        byte_style(runs, i).diagnostic is None,
    decreases runs.len(),
{
    if runs.len() > 0 {
        assert(runs.take(runs.len() as int) == runs);
        lemma_run_bytes_in_front(runs, runs.len() as int);
        assert(runs.skip(1).take(runs.len() - 1) == runs.skip(1));
        lemma_run_bytes_not_negative(runs.skip(1));
        bytes_behind_the_runs_are_plain(runs.skip(1), i - runs[0].0);
    }
}

proof fn lemma_run_bytes_in_front(runs: Seq<(usize, TextStyle)>, k: int)
    requires
        0 < k <= runs.len(),
    ensures
        run_bytes(runs.take(k)) == runs[0].0 + run_bytes(runs.skip(1).take(k - 1)),
    decreases k,
{
    assert(runs.take(k).drop_last() == runs.take(k - 1));
    if k > 1 {
        lemma_run_bytes_in_front(runs, k - 1);
        assert(runs.skip(1).take(k - 1).drop_last() == runs.skip(1).take(k - 2));
    } else {
        assert(runs.take(0) == Seq::<(usize, TextStyle)>::empty());
        assert(runs.skip(1).take(0) == Seq::<(usize, TextStyle)>::empty());
    }
}

proof fn lemma_run_bytes_not_negative(runs: Seq<(usize, TextStyle)>)
    ensures
        run_bytes(runs) >= 0,
    decreases runs.len(),
{
    if runs.len() > 0 {
        lemma_run_bytes_not_negative(runs.drop_last());
    }
}

/// The longest row has at least as many characters as every other, and more than those before it.
pub proof fn longest_is_the_first_of_the_longest(lines: Seq<WrapLineView>, n: int, k: int)
    requires
        0 <= k < n <= lines.len(),
    ensures
        0 <= longest_among(lines, n) < n,
        char_count(lines[k].text) <= char_count(lines[longest_among(lines, n)].text),
        k < longest_among(lines, n) ==> char_count(lines[k].text) < char_count(
            lines[longest_among(lines, n)].text,
        ),
    decreases n,
{
    if n > 1 {
        if k < n - 1 {
            longest_is_the_first_of_the_longest(lines, n - 1, k);
        } else {
            longest_is_the_first_of_the_longest(lines, n - 1, 0);
        }
    }
}

/// A column inside a tab or a fold stands for its start or, to the right, for its end.
pub proof fn columns_inside_a_piece_go_to_its_ends(line: WrapLineView, k: int, c: int)
    requires
        row_fits(line),
        0 <= k < line.pieces.len(),
        !(line.pieces[k].kind is Text),
        piece_column(line, k) < c < piece_column(line, k) + line.pieces[k].shown,
    ensures
        position_in(line, c, Bias::Left) == piece_start(line, k),
        position_in(line, c, Bias::Right) == line.pieces[k].end,
        clip_in(line, c, Bias::Left) == piece_column(line, k),
        clip_in(line, c, Bias::Right) == piece_column(line, k) + line.pieces[k].shown,
{
    pieces_ascend(line, 0, k);
    piece_from_is(line, c, k);
}

/// Text is shown byte by byte, from the column at which its piece is shown.
pub proof fn text_is_shown_byte_by_byte(line: WrapLineView, k: int, i: int, bias: Bias)
    requires
        row_fits(line),
        0 <= k < line.pieces.len(),
        line.pieces[k].kind is Text,
        0 <= i < line.pieces[k].shown,
    ensures
        ({
            let start = piece_start(line, k);
            let p = Point { row: start.row, column: (start.column + i) as u32 };
            &&& position_in(line, piece_column(line, k) + i, bias) == p
            &&& column_in(line, p) == piece_column(line, k) + i
        }),
{
    pieces_ascend(line, 0, k);
    piece_from_is(line, piece_column(line, k) + i, k);
    assert(piece_ok(line, k));
    let start = piece_start(line, k);
    let p = Point { row: start.row, column: (start.column + i) as u32 };
    piece_holding_is(line, p, k);
}

/// A row is shown behind its indent, piece behind piece.
pub proof fn pieces_are_shown_in_turn(line: WrapLineView, k: int)
    requires
        0 <= k < line.pieces.len(),
    ensures
        piece_column(line, 0) == line.indent,
        piece_column(line, k + 1) == piece_column(line, k) + line.pieces[k].shown,
        piece_start(line, 0) == line.start,
        piece_start(line, k + 1) == line.pieces[k].end,
{
}

/// A place in the middle of a fold goes to the start of the fold or, to the right, to its end; every
/// other place stays.
pub proof fn folds_are_left_at_their_edges(lines: Seq<WrapLineView>, p: Point, bias: Bias, k: int)
    requires
        is_wrapping(lines),
        0 <= k < lines[row_of(lines, p)].pieces.len(),
        piece_start(lines[row_of(lines, p)], k).at_most(p),
        p.precedes(lines[row_of(lines, p)].pieces[k].end),
    ensures
        ({
            let line = lines[row_of(lines, p)];
            let inside = line.pieces[k].kind is Fold && p != piece_start(line, k);
            &&& inside && bias is Left ==> fold_edge(lines, p, bias) == piece_start(line, k)
            &&& inside && bias is Right ==> fold_edge(lines, p, bias) == line.pieces[k].end
            &&& !inside ==> fold_edge(lines, p, bias) == p
        }),
{
    row_of_is_last_start(lines, p);
    assert(row_fits(lines[row_of(lines, p)]));
    piece_holding_is(lines[row_of(lines, p)], p, k);
}

/// A row goes on in the next where that begins at the place at which it ends.
pub proof fn rows_go_on_where_they_end(lines: Seq<WrapLineView>, w: int)
    requires
        is_wrapping(lines),
        0 <= w < lines.len() - 1,
    ensures
        goes_on(lines, w) <==> lines[w + 1].start == row_end(lines[w]),
        !goes_on(lines, w) ==> lines[w + 1].start.row == row_end(lines[w]).row + 1 && lines[w
            + 1].start.column == 0,
{
    assert(follows(lines, w + 1));
}

} // verus!
