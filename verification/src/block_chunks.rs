//! The text that blocks and snapshots show, piece by piece.
use vstd::prelude::*;
use crate::block_transforms::{
    line_count_bounds, lines_of, AlignedBlock, AlignedView, HighlightStyle,
};
use crate::proto::DiagnosticSeverity;
use crate::wrap_rows::no_feed;

verus! {

/// Whether line `k` of a text is the piece from `start` to `end`.
pub open spec fn is_line(text: Seq<u8>, k: int, start: int, end: int) -> bool {
    &&& 0 <= start <= end <= text.len()
    &&& 0 <= k < lines_of(text).len()
    &&& lines_of(text)[k] == text.subrange(start, end)
}

/// Finds line `k` of a text.
pub fn line_range(text: &Vec<u8>, k: u32) -> (r: (usize, usize))
    requires
        k < lines_of(text@).len(),
    ensures
        is_line(text@, k as int, r.0 as int, r.1 as int),
{
    let mut start: usize = 0;
    let mut done: u32 = 0;
    let mut i: usize = 0;
    proof {
        assert(text@.take(0) =~= Seq::empty());
        assert(text@.subrange(0, 0) =~= Seq::empty());
    }
    while i < text.len()
        invariant
            start <= i <= text@.len(),
            k < lines_of(text@).len(),
            done <= k,
            done + 1 == lines_of(text@.take(i as int)).len(),
            lines_of(text@.take(i as int)).last() == text@.subrange(start as int, i as int),
        decreases text.len() - i,
    {
        proof {
            crate::block_transforms::lines_of_prefix(text@, i as int, start as int);
        }
        if text[i] == 10 {
            if done == k {
                proof {
                    lines_stay(text@, i as int + 1, text@.len() as int, k as int);
                    assert(text@.take(text@.len() as int) =~= text@);
                }
                return (start, i);
            }
            done += 1;
            start = i + 1;
            assert(text@.subrange(start as int, i + 1) =~= Seq::empty());
        }
        i += 1;
    }
    assert(text@.take(i as int) =~= text@);
    (start, i)
}

/// Lines that are complete stay as they are when text is added.
pub proof fn lines_stay(text: Seq<u8>, i: int, j: int, k: int)
    requires
        0 <= i <= j <= text.len(),
        0 <= k < lines_of(text.take(i)).len() - 1,
    ensures
        k < lines_of(text.take(j)).len() - 1,
        lines_of(text.take(j))[k] == lines_of(text.take(i))[k],
    decreases j - i,
{
    if i < j {
        lines_stay(text, i, j - 1, k);
        assert(text.take(j).drop_last() =~= text.take(j - 1));
    }
}

/// The number of line feeds in a text.
pub open spec fn feeds(text: Seq<u8>) -> int
    decreases text.len(),
{
    if text.len() == 0 {
        0
    } else {
        feeds(text.drop_last()) + if text.last() == 10 {
            1int
        } else {
            0int
        }
    }
}

/// Whether `offset` is where row `target` of a text begins, or the end of the text if it has
/// fewer rows; `row` is the row that the offset is in.
pub open spec fn is_row_offset(text: Seq<u8>, target: int, row: int, offset: int) -> bool {
    &&& 0 <= offset <= text.len()
    &&& row == feeds(text.take(offset))
    &&& 0 <= row <= target
    &&& row < target ==> offset == text.len()
    &&& row == target && row > 0 ==> text[offset - 1] == 10
    &&& target == 0 ==> offset == 0
}

/// Finds where row `target` begins in the text from `from` on.
pub fn row_offset(text: &[u8], from: usize, target: u32) -> (r: (u32, usize))
    requires
        from <= text@.len(),
    ensures
        is_row_offset(text@.skip(from as int), target as int, r.0 as int, r.1 as int),
{
    let ghost s = text@.skip(from as int);
    let mut row: u32 = 0;
    let mut offset: usize = 0;
    assert(s.take(0) =~= Seq::empty());
    while row < target && offset < text.len() - from
        invariant
            from <= text@.len(),
            s == text@.skip(from as int),
            offset <= s.len(),
            row <= target,
            row == feeds(s.take(offset as int)),
            row == target && row > 0 ==> s[offset - 1] == 10,
            target == 0 ==> offset == 0,
        decreases s.len() - offset,
    {
        assert(s.take(offset + 1).drop_last() =~= s.take(offset as int));
        if text[from + offset] == 10 {
            row += 1;
        }
        offset += 1;
    }
    (row, offset)
}

/// Counts the bytes in front of row `target`: the row that was reached, at most `target`, and the
/// offset where it begins or the text ends.
pub fn offset_for_row(s: &str, target: u32) -> (r: (u32, usize))
    ensures
        is_row_offset(vstd::utf8::encode_utf8(s@), target as int, r.0 as int, r.1 as int),
{
    let bytes: &[u8] = s.as_bytes();
    assert(bytes@.skip(0) =~= bytes@);
    row_offset(bytes, 0, target)
}

/// Line feeds add up.
pub proof fn feeds_add(a: Seq<u8>, b: Seq<u8>)
    ensures
        feeds(a + b) == feeds(a) + feeds(b),
        feeds(b) >= 0,
    decreases b.len(),
{
    if b.len() == 0 {
        assert(a + b =~= a);
    } else {
        feeds_add(a, b.drop_last());
        assert((a + b).drop_last() =~= a + b.drop_last());
    }
}

/// The offset of a row is the place behind as many line feeds, and there is only one.
pub proof fn row_offset_is(text: Seq<u8>, target: int, row: int, offset: int, o: int)
    requires
        is_row_offset(text, target, row, offset),
        0 < o <= text.len(),
        target > 0,
        feeds(text.take(o)) == target,
        text[o - 1] == 10,
    ensures
        row == target,
        offset == o,
{
    if offset < o {
        assert(text.take(o - 1) =~= text.take(offset) + text.subrange(offset, o - 1));
        feeds_add(text.take(offset), text.subrange(offset, o - 1));
        assert(text.take(o).drop_last() =~= text.take(o - 1));
    } else if offset > o {
        assert(text.take(offset - 1) =~= text.take(o) + text.subrange(o, offset - 1));
        feeds_add(text.take(o), text.subrange(o, offset - 1));
        assert(text.take(offset).drop_last() =~= text.take(offset - 1));
        assert(text.take(offset).last() == text[offset - 1]);
    }
}

/// A text with fewer line feeds than rows asked for is taken as a whole.
pub proof fn row_offset_whole(text: Seq<u8>, target: int, row: int, offset: int)
    requires
        is_row_offset(text, target, row, offset),
        feeds(text) < target,
    ensures
        row == feeds(text),
        offset == text.len(),
{
    assert(text =~= text.take(offset) + text.skip(offset));
    feeds_add(text.take(offset), text.skip(offset));
    assert(text.take(text.len() as int) =~= text);
}

/// Counts the line feeds in a text.
pub fn count_feeds(text: &Vec<u8>) -> (r: usize)
    ensures
        r == feeds(text@),
{
    let mut n: usize = 0;
    let mut i: usize = 0;
    assert(text@.take(0) =~= Seq::empty());
    while i < text.len()
        invariant
            n <= i <= text@.len(),
            n == feeds(text@.take(i as int)),
        decreases text.len() - i,
    {
        assert(text@.take(i + 1).drop_last() =~= text@.take(i as int));
        if text[i] == 10 {
            n += 1;
        }
        i += 1;
    }
    assert(text@.take(i as int) =~= text@);
    n
}

/// Lines, each with a line feed behind it.
pub open spec fn heads(lines: Seq<Seq<u8>>, n: int) -> Seq<u8>
    decreases n,
{
    if n <= 0 {
        Seq::empty()
    } else {
        heads(lines, n - 1) + lines[n - 1] + seq![10u8]
    }
}

proof fn lemma_heads_same(a: Seq<Seq<u8>>, b: Seq<Seq<u8>>, n: int)
    requires
        0 <= n <= a.len(),
        n <= b.len(),
        forall|i: int| 0 <= i < n ==> #[trigger] a[i] == b[i],
    ensures
        heads(a, n) == heads(b, n),
    decreases n,
{
    if n > 0 {
        lemma_heads_same(a, b, n - 1);
    }
}

/// A text is its lines, joined by line feeds, and no line has a line feed in it.
pub proof fn text_is_its_lines(text: Seq<u8>)
    ensures
        lines_of(text).len() >= 1,
        text == heads(lines_of(text), lines_of(text).len() - 1) + lines_of(text).last(),
        forall|k: int| 0 <= k < lines_of(text).len() ==> no_feed(#[trigger] lines_of(text)[k]),
    decreases text.len(),
{
    let lines = lines_of(text);
    if text.len() == 0 {
        assert(text =~= heads(lines, 0) + lines.last());
    } else {
        let rest = text.drop_last();
        let before = lines_of(rest);
        text_is_its_lines(rest);
        let n = before.len() as int;
        if text.last() == 10 {
            lemma_heads_same(before, lines, n - 1);
            assert(lines[n - 1] == before.last());
            assert(text =~= heads(lines, n) + lines.last());
        } else {
            lemma_heads_same(before, lines, n - 1);
            let grown = before.last().push(text.last());
            assert(lines.last() == grown);
            assert(text =~= rest.push(text.last()));
            assert(text =~= heads(lines, n - 1) + grown);
            assert(no_feed(before[n - 1]));
            assert forall|k: int| 0 <= k < lines.len() implies no_feed(#[trigger] lines[k]) by {
                if k < n - 1 {
                    assert(lines[k] == before[k]);
                } else {
                    assert(lines[k] == grown);
                }
            }
        }
    }
}

/// Where line `k` of a text begins; behind the last line, where the text ends.
pub open spec fn line_start(text: Seq<u8>, k: int) -> int {
    if k < lines_of(text).len() {
        heads(lines_of(text), k).len() as int
    } else {
        text.len() as int
    }
}

proof fn lemma_heads_prefix(lines: Seq<Seq<u8>>, k: int, n: int)
    requires
        0 <= k <= n,
    ensures
        heads(lines, k).len() <= heads(lines, n).len(),
        heads(lines, n).take(heads(lines, k).len() as int) == heads(lines, k),
    decreases n - k,
{
    if k < n {
        lemma_heads_prefix(lines, k, n - 1);
        assert(heads(lines, n).take(heads(lines, k).len() as int) =~= heads(lines, n - 1).take(
            heads(lines, k).len() as int,
        ));
    } else {
        assert(heads(lines, n).take(heads(lines, k).len() as int) =~= heads(lines, k));
    }
}

/// Line `k` of a text stands where it begins, and behind it a line feed unless it is the last.
pub proof fn line_at_start(text: Seq<u8>, k: int)
    requires
        0 <= k < lines_of(text).len(),
    ensures
        ({
            let line = lines_of(text)[k];
            let start = line_start(text, k);
            &&& 0 <= start <= start + line.len() <= text.len()
            &&& text.subrange(start, start + line.len()) == line
            &&& k + 1 < lines_of(text).len() ==> {
                &&& start + line.len() < text.len()
                &&& text[start + line.len()] == 10
                &&& line_start(text, k + 1) == start + line.len() + 1
            }
            &&& k + 1 == lines_of(text).len() ==> start + line.len() == text.len()
            &&& line_start(text, k) <= line_start(text, k + 1)
        }),
{
    text_is_its_lines(text);
    let lines = lines_of(text);
    let n = lines.len() - 1;
    lemma_heads_prefix(lines, k, n);
    let start = heads(lines, k).len() as int;
    if k < n {
        lemma_heads_prefix(lines, k + 1, n);
        let h = heads(lines, k + 1);
        assert(h == heads(lines, k) + lines[k] + seq![10u8]);
        assert(text.take(h.len() as int) =~= h);
        assert forall|i: int| 0 <= i < lines[k].len() implies text.subrange(
            start,
            start + lines[k].len(),
        )[i] == lines[k][i] by {
            assert(text.take(h.len() as int)[start + i] == h[start + i]);
        }
        assert(text.subrange(start, start + lines[k].len()) =~= lines[k]);
        assert(text[start + lines[k].len()] == h[start + lines[k].len()]);
    } else {
        assert(text.subrange(start, start + lines[k].len()) =~= lines[k]);
    }
}

/// The beginnings of lines ascend.
pub proof fn line_starts_ascend(text: Seq<u8>, a: int, b: int)
    requires
        0 <= a <= b <= lines_of(text).len(),
    ensures
        0 <= line_start(text, a) <= line_start(text, b) <= text.len(),
    decreases b - a,
{
    line_count_bounds(text);
    if a < b {
        line_at_start(text, a);
        line_starts_ascend(text, a + 1, b);
    } else if a < lines_of(text).len() {
        line_at_start(text, a);
    }
}

/// Finds where line `k` of a text begins.
fn find_line(text: &Vec<u8>, k: u32) -> (r: usize)
    requires
        k <= lines_of(text@).len(),
    ensures
        r == line_start(text@, k as int),
{
    let mut line: u32 = 0;
    let mut offset: usize = 0;
    proof {
        line_starts_ascend(text@, 0, 0);
        text_is_its_lines(text@);
    }
    while line < k
        invariant
            line <= k <= lines_of(text@).len(),
            offset == line_start(text@, line as int),
            offset <= text@.len(),
        decreases k - line,
    {
        proof {
            line_at_start(text@, line as int);
            text_is_its_lines(text@);
        }
        let ghost len = lines_of(text@)[line as int].len() as int;
        let ghost start = offset as int;
        let ghost whole = text@.subrange(start, start + len);
        assert(no_feed(lines_of(text@)[line as int]));
        while offset < text.len() && text[offset] != 10
            invariant
                start <= offset <= start + len <= text@.len(),
                whole == text@.subrange(start, start + len),
                no_feed(whole),
                start + len < text@.len() ==> text@[start + len] == 10,
            decreases text.len() - offset,
        {
            proof {
                if offset == start + len {
                    assert(false);
                }
            }
            offset += 1;
        }
        proof {
            if offset < start + len {
                assert(whole[offset - start] == text@[offset as int]);
            }
        }
        if offset < text.len() {
            offset += 1;
        }
        line += 1;
        proof {
            line_starts_ascend(text@, line as int, line as int);
        }
    }
    offset
}

/// A stretch of spaces.
pub open spec fn spaces(n: int) -> Seq<u8> {
    Seq::new(n as nat, |i: int| 32u8)
}

/// What a row of a block shows: its text, moved to the column of the block unless it is empty.
pub open spec fn block_row_text(b: AlignedView, k: int) -> Seq<u8> {
    let line = lines_of(b.body.text)[k];
    if line.len() > 0 {
        spaces(b.column as int) + line
    } else {
        Seq::empty()
    }
}

/// What the rows of a block from `a` to `e` show, with a line feed behind each but the last row
/// of the block.
pub open spec fn block_text(b: AlignedView, a: int, e: int) -> Seq<u8>
    decreases e - a,
{
    if a >= e {
        Seq::empty()
    } else {
        block_row_text(b, a) + (if a + 1 < lines_of(b.body.text).len() {
            seq![10u8]
        } else {
            Seq::empty()
        }) + block_text(b, a + 1, e)
    }
}

/// A text with `column` spaces in front of every line that is not empty; in front of the first
/// one only `pad`.
pub open spec fn padded(text: Seq<u8>, column: int, pad: int) -> Seq<u8>
    decreases text.len(),
{
    if text.len() == 0 {
        Seq::empty()
    } else if text[0] == 10 {
        seq![10u8] + padded(text.skip(1), column, column)
    } else {
        spaces(pad) + seq![text[0]] + padded(text.skip(1), column, 0)
    }
}

/// The style of the byte at `offset`: that of the run which covers it.
pub open spec fn style_at(runs: Seq<(usize, HighlightStyle)>, offset: int) -> Option<
    HighlightStyle,
>
    decreases runs.len(),
{
    if runs.len() == 0 {
        None
    } else if offset < runs[0].0 {
        Some(runs[0].1)
    } else {
        style_at(runs.skip(1), offset - runs[0].0)
    }
}

/// The bytes that runs cover.
pub open spec fn runs_len(runs: Seq<(usize, HighlightStyle)>) -> int
    decreases runs.len(),
{
    if runs.len() == 0 {
        0
    } else {
        runs[0].0 + runs_len(runs.skip(1))
    }
}

/// How many runs end at an offset or before it.
pub open spec fn runs_passed(runs: Seq<(usize, HighlightStyle)>, offset: int) -> int
    decreases runs.len(),
{
    if runs.len() > 0 && runs[0].0 <= offset {
        1 + runs_passed(runs.skip(1), offset - runs[0].0)
    } else {
        0
    }
}

/// The bytes that one run more covers.
proof fn lemma_runs_step(runs: Seq<(usize, HighlightStyle)>, k: int)
    requires
        0 <= k < runs.len(),
    ensures
        runs_len(runs.take(k + 1)) == runs_len(runs.take(k)) + runs[k].0,
    decreases k,
{
    if k > 0 {
        lemma_runs_step(runs.skip(1), k - 1);
        assert(runs.take(k + 1).skip(1) =~= runs.skip(1).take(k));
        assert(runs.take(k).skip(1) =~= runs.skip(1).take(k - 1));
    } else {
        assert(runs.take(1).skip(1) =~= Seq::empty());
        assert(runs.take(0) =~= Seq::empty());
    }
}

proof fn lemma_padded_line(line: Seq<u8>, rest: Seq<u8>, column: int, pad: int)
    requires
        no_feed(line),
        0 <= pad,
    ensures
        line.len() > 0 ==> padded(line + rest, column, pad) == spaces(pad) + line + padded(
            rest,
            column,
            0,
        ),
        line.len() == 0 ==> padded(line + rest, column, pad) == padded(rest, column, pad),
    decreases line.len(),
{
    if line.len() == 0 {
        assert(line + rest =~= rest);
    } else {
        let tail = line.skip(1);
        assert((line + rest).skip(1) =~= tail + rest);
        assert(no_feed(tail)) by {
            assert forall|i: int| 0 <= i < tail.len() implies #[trigger] tail[i] != 10 by {
                assert(line[i + 1] != 10);
            }
        }
        assert(line[0] != 10);
        lemma_padded_line(tail, rest, column, 0);
        assert(line =~= seq![line[0]] + tail);
        if tail.len() > 0 {
            assert(spaces(0) =~= Seq::empty());
            assert(spaces(pad) + seq![line[0]] + (spaces(0) + tail + padded(rest, column, 0))
                =~= spaces(pad) + line + padded(rest, column, 0));
        } else {
            assert(spaces(pad) + seq![line[0]] + padded(rest, column, 0) =~= spaces(pad) + line
                + padded(rest, column, 0));
        }
    }
}

proof fn lemma_block_text(b: AlignedView, a: int, e: int)
    requires
        0 <= a <= e <= lines_of(b.body.text).len(),
    ensures
        padded(
            b.body.text.subrange(line_start(b.body.text, a), line_start(b.body.text, e)),
            b.column as int,
            b.column as int,
        ) == block_text(b, a, e),
    decreases e - a,
{
    let text = b.body.text;
    let lines = lines_of(text);
    let column = b.column as int;
    line_starts_ascend(text, a, e);
    let from = line_start(text, a);
    let to = line_start(text, e);
    if a == e {
        assert(text.subrange(from, to) =~= Seq::empty());
    } else {
        line_at_start(text, a);
        text_is_its_lines(text);
        line_starts_ascend(text, a + 1, e);
        let line = lines[a];
        let next = line_start(text, a + 1);
        lemma_block_text(b, a + 1, e);
        let rest = text.subrange(next, to);
        assert(no_feed(lines[a]));
        if a + 1 < lines.len() {
            let feed = seq![10u8] + rest;
            assert forall|i: int| 0 <= i < line.len() implies text[from + i] == line[i] by {
                assert(text.subrange(from, from + line.len())[i] == line[i]);
            }
            assert(text.subrange(from, to) =~= line + feed);
            lemma_padded_line(line, feed, column, column);
            assert(feed.skip(1) =~= rest);
            assert(padded(feed, column, 0) == seq![10u8] + padded(rest, column, column));
            assert(padded(feed, column, column) == seq![10u8] + padded(rest, column, column));
            if line.len() > 0 {
                assert(spaces(column) + line + (seq![10u8] + block_text(b, a + 1, e)) =~= spaces(
                    column,
                ) + line + seq![10u8] + block_text(b, a + 1, e));
            } else {
                assert(seq![10u8] + block_text(b, a + 1, e) =~= Seq::<u8>::empty() + seq![10u8]
                    + block_text(b, a + 1, e));
            }
        } else {
            assert(e == lines.len());
            assert(rest =~= Seq::empty());
            assert(text.subrange(from, to) =~= line + rest);
            lemma_padded_line(line, rest, column, column);
            assert(block_text(b, a + 1, e) =~= Seq::empty());
            if line.len() > 0 {
                assert(spaces(column) + line + Seq::<u8>::empty() =~= spaces(column) + line
                    + Seq::<u8>::empty() + block_text(b, a + 1, e));
            } else {
                assert(Seq::<u8>::empty() =~= Seq::<u8>::empty() + Seq::<u8>::empty() + block_text(
                    b,
                    a + 1,
                    e,
                ));
            }
        }
    }
}

proof fn lemma_style_skip(runs: Seq<(usize, HighlightStyle)>, k: int, offset: int, start: int)
    requires
        0 <= k < runs.len(),
        start + runs[k].0 <= offset,
    ensures
        style_at(runs.skip(k), offset - start) == style_at(
            runs.skip(k + 1),
            offset - (start + runs[k].0),
        ),
{
    assert(runs.skip(k).skip(1) =~= runs.skip(k + 1));
    assert(runs.skip(k)[0] == runs[k]);
}

/// A piece of text in one style, and the severity of the diagnostic that it is part of.
#[derive(Debug, PartialEq, Eq)]
pub struct Chunk {
    pub text: Vec<u8>,
    pub highlight_style: Option<HighlightStyle>,
    pub diagnostic: Option<DiagnosticSeverity>,
}

/// Goes over the text of some rows of a block.
pub struct BlockChunks<'a> {
    block: &'a AlignedBlock,
    styled: bool,
    offset: usize,
    end: usize,
    remaining_padding: u32,
    run: usize,
    run_start: usize,
}

fn space_text(n: u32) -> (r: Vec<u8>)
    ensures
        r@ == spaces(n as int),
{
    let mut r: Vec<u8> = Vec::new();
    let mut i: u32 = 0;
    while i < n
        invariant
            i <= n,
            r@ == spaces(i as int),
        decreases n - i,
    {
        r.push(32);
        i += 1;
        assert(r@ =~= spaces(i as int));
    }
    r
}

/// The bytes of a text from `from` to `to`.
pub fn piece_of(text: &Vec<u8>, from: usize, to: usize) -> (r: Vec<u8>)
    requires
        from <= to <= text@.len(),
    ensures
        r@ == text@.subrange(from as int, to as int),
{
    let mut r: Vec<u8> = Vec::new();
    let mut i: usize = from;
    while i < to
        invariant
            from <= i <= to <= text@.len(),
            r@ == text@.subrange(from as int, i as int),
        decreases to - i,
    {
        r.push(text[i]);
        i += 1;
    }
    r
}

/// The number of bytes from an offset to the end of its line, with the line feed, or to `end` if that
/// comes first.
pub open spec fn rest_of_line(text: Seq<u8>, from: int, end: int) -> int
    decreases end - from,
{
    if from >= end {
        0
    } else if text[from] == 10 {
        1
    } else {
        1 + rest_of_line(text, from + 1, end)
    }
}

/// The length of the rest of a line, with its line feed.
fn line_piece(text: &Vec<u8>, from: usize, end: usize) -> (len: usize)
    requires
        from < end <= text@.len(),
    ensures
        len == rest_of_line(text@, from as int, end as int),
        0 < len <= end - from,
        forall|i: int| from <= i < from + len - 1 ==> #[trigger] text@[i] != 10,
        from + len < end ==> text@[from + len - 1] == 10,
{
    let mut len: usize = 0;
    while from + len < end
        invariant
            from < end <= text@.len(),
            from + len <= end,
            forall|i: int| from <= i < from + len ==> #[trigger] text@[i] != 10,
            len + rest_of_line(text@, from + len, end as int) == rest_of_line(
                text@,
                from as int,
                end as int,
            ),
        decreases end - from - len,
    {
        len += 1;
        if text[from + len - 1] == 10 {
            return len;
        }
    }
    len
}

proof fn lemma_padded_piece(piece: Seq<u8>, tail: Seq<u8>, column: int)
    requires
        0 <= column,
        forall|i: int| 0 <= i < piece.len() - 1 ==> #[trigger] piece[i] != 10,
    ensures
        padded(piece + tail, column, 0) == piece + padded(
            tail,
            column,
            if piece.len() > 0 && piece.last() == 10 {
                column
            } else {
                0
            },
        ),
{
    assert(spaces(0) =~= Seq::empty());
    if piece.len() > 0 && piece.last() == 10 {
        let line = piece.drop_last();
        assert(no_feed(line)) by {
            assert forall|i: int| 0 <= i < line.len() implies #[trigger] line[i] != 10 by {
                assert(piece[i] != 10);
            }
        }
        assert(piece =~= line + seq![10u8]);
        let feed = seq![10u8] + tail;
        assert(piece + tail =~= line + feed);
        lemma_padded_line(line, feed, column, 0);
        assert(feed.skip(1) =~= tail);
        assert(padded(feed, column, 0) == seq![10u8] + padded(tail, column, column));
        assert(padded(piece + tail, column, 0) =~= piece + padded(tail, column, column));
    } else {
        assert(no_feed(piece)) by {
            assert forall|i: int| 0 <= i < piece.len() implies #[trigger] piece[i] != 10 by {
                if i < piece.len() - 1 {
                    assert(piece[i] != 10);
                }
            }
        }
        lemma_padded_line(piece, tail, column, 0);
        assert(padded(piece + tail, column, 0) =~= piece + padded(tail, column, 0));
    }
}

impl<'a> BlockChunks<'a> {
    /// The text that is still to come.
    pub closed spec fn remaining(&self) -> Seq<u8> {
        padded(
            self.block.body.text@.subrange(self.offset as int, self.end as int),
            self.block.column as int,
            self.remaining_padding as int,
        )
    }

    /// The runs that count.
    pub closed spec fn runs(&self) -> Seq<(usize, HighlightStyle)> {
        if self.styled {
            self.block.body.runs@
        } else {
            Seq::empty()
        }
    }

    /// Where in the block's text the rest begins.
    pub closed spec fn offset(&self) -> int {
        self.offset as int
    }

    /// Where in the block's text the last row ends.
    pub closed spec fn end(&self) -> int {
        self.end as int
    }

    /// How many spaces come before the next byte of the block's text: none before a line feed, and
    /// none if no byte comes.
    pub closed spec fn padding(&self) -> int {
        if self.offset >= self.end || self.block.body.text@[self.offset as int] == 10 {
            0
        } else {
            self.remaining_padding as int
        }
    }

    /// The number of the run that comes next.
    pub closed spec fn run(&self) -> int {
        self.run as int
    }

    /// How many bytes the run that comes next still covers, if there is one.
    pub open spec fn run_left(&self) -> Option<int> {
        if self.run() < self.runs().len() {
            Some(runs_len(self.runs().take(self.run() + 1)) - self.offset())
        } else {
            None
        }
    }

    /// How many spaces are put in front of the byte at an offset if it begins a line.
    pub open spec fn padding_at(&self, offset: int) -> int {
        if offset >= self.end() || self.block().body.text[offset] == 10 {
            0
        } else {
            self.block().column as int
        }
    }

    /// How long a piece of the block's text is: it goes to the end of the line or of the run.
    pub open spec fn piece_len(&self) -> int {
        let line = rest_of_line(self.block().body.text, self.offset(), self.end());
        match self.run_left() {
            Some(left) => if left <= line {
                left
            } else {
                line
            },
            None => line,
        }
    }

    /// The block.
    pub closed spec fn block(&self) -> AlignedView {
        self.block@
    }

    /// Whether the text can be gone over.
    pub closed spec fn wf(&self) -> bool {
        &&& self.offset <= self.end <= self.block.body.text@.len()
        &&& self.run <= self.runs().len()
        &&& self.run_start + runs_len(self.runs().skip(self.run as int)) <= usize::MAX
        &&& self.run_start == runs_len(self.runs().take(self.run as int))
        &&& self.run < self.runs().len() ==> self.offset <= self.run_start
            + self.runs()[self.run as int].0
        &&& forall|o: int|
            o >= self.offset ==> #[trigger] style_at(self.runs(), o) == style_at(
                self.runs().skip(self.run as int),
                o - self.run_start,
            )
    }

    /// Whether a piece and what remains behind it come next. Padding comes in pieces of no more than
    /// sixteen spaces, without a style. A piece of the block's text goes to the end of the line or of
    /// the run, and every byte of it has the style of the run that covers it.
    pub open spec fn gives(&self, chunk: Chunk, next: BlockChunks<'a>) -> bool {
        &&& next.block() == self.block()
        &&& next.runs() == self.runs()
        &&& next.end() == self.end()
        &&& chunk.diagnostic is None
        &&& if self.padding() > 0 {
            let pad = if self.padding() < 16 {
                self.padding()
            } else {
                16
            };
            &&& chunk.text@ == spaces(pad)
            &&& chunk.highlight_style is None
            &&& next.offset() == self.offset()
            &&& next.run() == self.run()
            &&& next.padding() == self.padding() - pad
        } else {
            &&& next.offset() == self.offset() + self.piece_len()
            &&& chunk.text@ == self.block().body.text.subrange(self.offset(), next.offset())
            &&& forall|o: int|
                self.offset() <= o < next.offset() ==> #[trigger] style_at(self.runs(), o)
                    == chunk.highlight_style
            &&& chunk.highlight_style == (if self.run() < self.runs().len() {
                Some(self.runs()[self.run()].1)
            } else {
                None
            })
            &&& next.run() == self.run() + (if self.run_left() == Some(self.piece_len()) {
                1int
            } else {
                0
            })
            &&& next.padding() == (if chunk.text@.len() > 0 && chunk.text@.last() == 10 {
                self.padding_at(next.offset())
            } else {
                0
            })
        }
    }

    /// Whether nothing of these rows of a block has come yet. The runs that end in front of the rows
    /// are passed over.
    pub open spec fn begins(&self, b: AlignedView, start: int, end: int, styled: bool) -> bool {
        &&& self.block() == b
        &&& self.runs() == (if styled {
            b.body.runs
        } else {
            Seq::empty()
        })
        &&& self.offset() == line_start(b.body.text, start)
        &&& self.end() == line_start(b.body.text, end)
        &&& self.padding() == self.padding_at(self.offset())
        &&& self.run() == runs_passed(self.runs(), self.offset())
    }

    /// What is to come stands in the rows.
    pub proof fn offset_is_in_rows(&self)
        requires
            self.wf(),
        ensures
            self.offset() <= self.end(),
    {
    }

    fn run_count(&self) -> (r: usize)
        ensures
            r == self.runs().len(),
    {
        if self.styled {
            self.block.body.runs.len()
        } else {
            0
        }
    }

    /// The text of the rows of a block from `start` to `end`.
    pub fn new(block: &'a AlignedBlock, start: u32, end: u32, styled: bool) -> (r: BlockChunks<'a>)
        requires
            start <= end <= lines_of(block.body.text@).len(),
            styled ==> runs_len(block.body.runs@) <= usize::MAX,
        ensures
            r.wf(),
            r.begins(block@, start as int, end as int, styled),
            r.remaining() == block_text(block@, start as int, end as int),
    {
        proof {
            line_starts_ascend(block.body.text@, start as int, end as int);
            line_starts_ascend(block.body.text@, end as int, end as int);
            lemma_block_text(block@, start as int, end as int);
        }
        let from: usize = find_line(&block.body.text, start);
        let to: usize = find_line(&block.body.text, end);
        let mut r = BlockChunks {
            block,
            styled,
            offset: from,
            end: to,
            remaining_padding: block.column,
            run: 0,
            run_start: 0,
        };
        let ghost runs = r.runs();
        proof {
            assert(runs.skip(0) =~= runs);
            assert(runs.take(0) =~= Seq::empty());
            if !styled {
                assert(runs_len(runs) == 0);
            }
        }
        proof {
            assert forall|i: int| 0 <= i <= runs.len() implies #[trigger] runs_len(runs.skip(i)) >= 0 by {
                lemma_runs_len(runs.skip(i));
            }
        }
        let count: usize = r.run_count();
        while r.run < count && r.run_start + r.block.body.runs[r.run].0 <= from
            invariant
                count == runs.len(),
                runs == r.runs(),
                r.block == block,
                r.styled == styled,
                r.styled ==> runs == r.block.body.runs@,
                !r.styled ==> runs.len() == 0,
                r.offset == from,
                r.end == to,
                r.remaining_padding == block.column,
                r.run <= count,
                r.run_start == runs_len(runs.take(r.run as int)),
                runs_passed(runs, from as int) == r.run + runs_passed(
                    runs.skip(r.run as int),
                    from - r.run_start,
                ),
                r.run_start + runs_len(runs.skip(r.run as int)) <= usize::MAX,
                forall|i: int| 0 <= i <= count ==> #[trigger] runs_len(runs.skip(i)) >= 0,
                r.run < count ==> r.run_start + runs[r.run as int].0 <= usize::MAX,
                forall|o: int|
                    o >= from ==> #[trigger] style_at(runs, o) == style_at(
                        runs.skip(r.run as int),
                        o - r.run_start,
                    ),
            decreases count - r.run,
        {
            let len: usize = r.block.body.runs[r.run].0;
            proof {
                let k = r.run as int;
                assert(runs.skip(k).skip(1) =~= runs.skip(k + 1));
                assert(runs.skip(k)[0] == runs[k]);
                lemma_runs_step(runs, k);
                assert forall|o: int| o >= from implies #[trigger] style_at(runs, o) == style_at(
                    runs.skip(k + 1),
                    o - (r.run_start + len),
                ) by {
                    lemma_style_skip(runs, k, o, r.run_start as int);
                }
                assert(runs_len(runs.skip(k + 1)) >= 0);
                if k + 1 < count {
                    assert(runs.skip(k + 1)[0] == runs[k + 1]);
                    assert(runs.skip(k + 1).skip(1) =~= runs.skip(k + 2));
                    assert(runs_len(runs.skip(k + 2)) >= 0);
                }
            }
            r.run_start = r.run_start + len;
            r.run = r.run + 1;
        }
        proof {
            if r.run < count {
                assert(runs.skip(r.run as int)[0] == runs[r.run as int]);
            }
        }
        r
    }

    fn take_text(&mut self) -> (chunk: Chunk)
        requires
            old(self).wf(),
            old(self).offset() < old(self).end(),
            old(self).padding() == 0,
            old(self).remaining_padding == 0,
        ensures
            final(self).wf(),
            old(self).remaining() == chunk.text@ + final(self).remaining(),
            old(self).gives(chunk, *final(self)),
            old(self).runs().len() == 0 ==> chunk.text@.len() > 0,
    {
        let ghost text = self.block.body.text@;
        let ghost column = self.block.column as int;
        let ghost rest = text.subrange(self.offset as int, self.end as int);
        let mut len: usize = line_piece(&self.block.body.text, self.offset, self.end);
        let mut style: Option<HighlightStyle> = None;
        let count: usize = self.run_count();
        let ghost runs = self.runs();
        let ghost start = self.offset as int;
        if self.run < count {
            let ghost k = self.run as int;
            assert(runs == self.block.body.runs@);
            let (run_len, run_style) = self.block.body.runs[self.run];
            style = Some(run_style);
            proof {
                assert(runs.skip(k)[0] == runs[k]);
                assert(runs.skip(k).skip(1) =~= runs.skip(k + 1));
                lemma_runs_step(runs, k);
                lemma_runs_len(runs.skip(k + 1));
                if k + 1 < runs.len() {
                    lemma_runs_len(runs.skip(k + 2));
                    assert(runs.skip(k + 1)[0] == runs[k + 1]);
                    assert(runs.skip(k + 1).skip(1) =~= runs.skip(k + 2));
                }
            }
            let run_end: usize = self.run_start + run_len;
            let left: usize = run_end - self.offset;
            let ghost old_start = self.run_start as int;
            if left <= len {
                len = left;
                self.run_start = run_end;
                self.run = self.run + 1;
                proof {
                    assert forall|o: int| o >= run_end implies #[trigger] style_at(runs, o)
                        == style_at(runs.skip(k + 1), o - run_end) by {
                        lemma_style_skip(runs, k, o, old_start);
                    }
                }
            }
            proof {
                assert forall|o: int| start <= o < start + len implies #[trigger] style_at(runs, o)
                    == style by {
                    assert(style_at(runs.skip(k), o - old_start) == Some(run_style));
                }
            }
        } else {
            proof {
                assert forall|o: int| start <= o < start + len implies #[trigger] style_at(runs, o)
                    == style by {
                    assert(runs.skip(self.run as int) =~= Seq::empty());
                }
            }
        }
        let piece: Vec<u8> = piece_of(&self.block.body.text, self.offset, self.offset + len);
        let ghost tail = text.subrange(start + len, self.end as int);
        proof {
            assert(rest =~= piece@ + tail);
            assert forall|i: int| 0 <= i < piece@.len() - 1 implies #[trigger] piece@[i] != 10 by {
                assert(text[start + i] != 10);
            }
            lemma_padded_piece(piece@, tail, column);
        }
        self.offset = self.offset + len;
        if len > 0 && self.block.body.text[self.offset - 1] == 10 {
            self.remaining_padding = self.block.column;
        }
        Chunk { text: piece, highlight_style: style, diagnostic: None }
    }

    /// The next piece: padding, or text up to the end of a line or of a run. Every byte of it has
    /// the style of the run that covers it; padding has none.
    pub fn next(&mut self) -> (r: Option<Chunk>)
        requires
            old(self).wf(),
        ensures
            final(self).wf(),
            final(self).block() == old(self).block(),
            final(self).runs() == old(self).runs(),
            r is None <==> old(self).offset() == old(self).end(),
            r is None ==> *final(self) == *old(self),
            match r {
                Some(chunk) => {
                    &&& old(self).remaining() == chunk.text@ + final(self).remaining()
                    &&& old(self).gives(chunk, *final(self))
                    &&& old(self).runs().len() == 0 ==> chunk.text@.len() > 0
                },
                None => old(self).remaining() == Seq::<u8>::empty() && final(self).remaining()
                    == Seq::<u8>::empty(),
            },
    {
        let ghost text = self.block.body.text@;
        let ghost column = self.block.column as int;
        let ghost rest = text.subrange(self.offset as int, self.end as int);
        if self.offset == self.end {
            assert(rest =~= Seq::empty());
            return None;
        }
        assert(rest[0] == text[self.offset as int]);
        if self.block.body.text[self.offset] == 10 {
            self.remaining_padding = 0;
            assert(self.remaining() == old(self).remaining());
        }
        if self.remaining_padding > 0 {
            let pad: u32 = if self.remaining_padding < 16 { self.remaining_padding } else { 16 };
            let ghost before = self.remaining_padding as int;
            self.remaining_padding = self.remaining_padding - pad;
            proof {
                assert(spaces(before) =~= spaces(pad as int) + spaces(before - pad));
                assert(spaces(before) + seq![rest[0]] + padded(rest.skip(1), column, 0) =~= spaces(
                    pad as int,
                ) + (spaces(before - pad) + seq![rest[0]] + padded(rest.skip(1), column, 0)));
            }
            return Some(Chunk { text: space_text(pad), highlight_style: None, diagnostic: None });
        }
        Some(self.take_text())
    }
}

proof fn lemma_no_feeds(text: Seq<u8>)
    requires
        no_feed(text),
    ensures
        feeds(text) == 0,
    decreases text.len(),
{
    if text.len() > 0 {
        assert(text[text.len() - 1] != 10);
        assert(no_feed(text.drop_last())) by {
            assert forall|i: int| 0 <= i < text.drop_last().len() implies #[trigger] text.drop_last()[i]
                != 10 by {
                assert(text[i] != 10);
            }
        }
        lemma_no_feeds(text.drop_last());
    }
}

/// A text without line feeds counts none.
pub proof fn no_feed_counts_none(text: Seq<u8>)
    requires
        no_feed(text),
    ensures
        feeds(text) == 0,
{
    lemma_no_feeds(text);
}

/// Rows of a block have one line feed each, but for the last row of the block; short of it, the
/// text ends with a line feed.
pub proof fn block_text_feeds(b: AlignedView, a: int, e: int)
    requires
        0 <= a <= e <= lines_of(b.body.text).len(),
    ensures
        feeds(block_text(b, a, e)) == (e - a) - (if a < e && e == lines_of(b.body.text).len() {
            1int
        } else {
            0int
        }),
        a < e < lines_of(b.body.text).len() ==> block_text(b, a, e).len() > 0 && block_text(
            b,
            a,
            e,
        ).last() == 10,
    decreases e - a,
{
    if a < e {
        block_text_feeds(b, a + 1, e);
        text_is_its_lines(b.body.text);
        let lines = lines_of(b.body.text);
        let row = block_row_text(b, a);
        assert(no_feed(lines[a]));
        assert(no_feed(row));
        lemma_no_feeds(row);
        let feed = if a + 1 < lines.len() {
            seq![10u8]
        } else {
            Seq::empty()
        };
        assert(feeds(feed) == feed.len()) by {
            reveal_with_fuel(feeds, 2);
            if a + 1 < lines.len() {
                assert(feed.drop_last() =~= Seq::empty());
            }
        }
        feeds_add(row, feed);
        feeds_add(row + feed, block_text(b, a + 1, e));
        if a + 1 == e {
            assert(block_text(b, a + 1, e) =~= Seq::empty());
            assert(row + feed + block_text(b, a + 1, e) =~= row + feed);
        } else {
            assert((row + feed + block_text(b, a + 1, e)).last() == block_text(b, a + 1, e).last()
                || block_text(b, a + 1, e).len() == 0);
        }
    }
}

proof fn lemma_runs_len(runs: Seq<(usize, HighlightStyle)>)
    ensures
        runs_len(runs) >= 0,
    decreases runs.len(),
{
    if runs.len() > 0 {
        lemma_runs_len(runs.skip(1));
    }
}

/// A line of a block is shown behind as many spaces as its column; an empty line is shown empty.
pub proof fn block_lines_are_padded(b: AlignedView, k: int)
    requires
        0 <= k < lines_of(b.body.text).len(),
    ensures
        ({
            let line = lines_of(b.body.text)[k];
            let shown = block_row_text(b, k);
            &&& line.len() == 0 ==> shown.len() == 0
            &&& line.len() > 0 ==> shown.len() == b.column + line.len()
            &&& line.len() > 0 ==> shown.skip(b.column as int) == line
            &&& line.len() > 0 ==> forall|i: int| 0 <= i < b.column ==> shown[i] == 32
        }),
{
    assert(spaces(b.column as int).len() == b.column);
}

/// A byte has the style of the run that it lies in.
pub proof fn bytes_have_the_style_of_their_run(
    runs: Seq<(usize, HighlightStyle)>,
    k: int,
    offset: int,
)
    requires
        0 <= k < runs.len(),
        runs_len(runs.take(k)) <= offset < runs_len(runs.take(k)) + runs[k].0,
    ensures
        style_at(runs, offset) == Some(runs[k].1),
        runs_passed(runs, offset) == k,
    decreases runs.len(),
{
    if k > 0 {
        assert(runs.take(k).skip(1) == runs.skip(1).take(k - 1));
        assert(runs.take(k)[0] == runs[0]);
        lemma_runs_not_negative(runs.skip(1).take(k - 1));
        bytes_have_the_style_of_their_run(runs.skip(1), k - 1, offset - runs[0].0);
    } else {
        assert(runs.take(0) == Seq::<(usize, HighlightStyle)>::empty());
    }
}

/// A byte behind all runs has no style.
pub proof fn bytes_behind_the_runs_have_no_style(
    runs: Seq<(usize, HighlightStyle)>,
    offset: int,
)
    requires
        runs_len(runs) <= offset,
    ensures
        style_at(runs, offset) is None,
        runs_passed(runs, offset) == runs.len(),
    decreases runs.len(),
{
    if runs.len() > 0 {
        lemma_runs_not_negative(runs.skip(1));
        bytes_behind_the_runs_have_no_style(runs.skip(1), offset - runs[0].0);
    }
}

/// The lengths of two lists of runs add up, and a single run has its own.
pub proof fn runs_lengths_add_up(
    front: Seq<(usize, HighlightStyle)>,
    back: Seq<(usize, HighlightStyle)>,
    run: (usize, HighlightStyle),
)
    ensures
        runs_len(front + back) == runs_len(front) + runs_len(back),
        runs_len(seq![run]) == run.0,
    decreases front.len(),
{
    assert(seq![run].skip(1) == Seq::<(usize, HighlightStyle)>::empty());
    reveal_with_fuel(runs_len, 2);
    if front.len() == 0 {
        assert(front + back == back);
    } else {
        runs_lengths_add_up(front.skip(1), back, run);
        assert((front + back).skip(1) == front.skip(1) + back);
    }
}

proof fn lemma_runs_not_negative(runs: Seq<(usize, HighlightStyle)>)
    ensures
        runs_len(runs) >= 0,
    decreases runs.len(),
{
    if runs.len() > 0 {
        lemma_runs_not_negative(runs.skip(1));
    }
}

/// A line goes on to its line feed, which belongs to it, or to the end.
pub proof fn line_goes_on_to_its_feed(text: Seq<u8>, from: int, end: int, j: int)
    requires
        0 <= from < end <= text.len(),
    ensures
        0 < rest_of_line(text, from, end) <= end - from,
        from <= j < from + rest_of_line(text, from, end) - 1 ==> text[j] != 10,
        from + rest_of_line(text, from, end) < end ==> text[from + rest_of_line(text, from, end) - 1]
            == 10,
    decreases end - from,
{
    if text[from] != 10 && from + 1 < end {
        line_goes_on_to_its_feed(text, from + 1, end, j);
    } else {
        assert(rest_of_line(text, end, end) == 0);
    }
}

} // verus!
