//! The rows that a snapshot shows, one by one: rows of wrapped text and rows of blocks.
use vstd::prelude::*;
use crate::block_chunks::{block_row_text, spaces};
use crate::block_map::{
    arranged, arranged_places_ok, arrangement_is_unique, distinct_ids, is_placement, placement,
    without, BlockMap, BlockView,
};
use crate::block_snapshot::{
    at_row, at_row_contains, at_row_is, at_wrap_row, at_wrap_row_contains, display_row, longest_shown,
    rows_within, shown_point, snapshot_ok, total_summary,
};
use crate::block_transforms::{
    all_fit, in_rows, line_count_bounds, lines_of, longest_line, longest_line_exists, out_rows,
    placed, rows_are_counted, AlignedView, BlockId, Placed, TransformView,
};
use crate::point::Point;
use crate::shown_text::{feed_after, feed_if, row_text, rows_text};
use crate::wrap_rows::{char_count, longest_among, WrapLineView};

verus! {

/// A row that is shown: one of the wrapped text, or one of a block.
pub enum ShownRow {
    Wrapped(int),
    OfBlock(AlignedView, int),
}

impl ShownRow {
    /// The text of the row.
    pub open spec fn text(self, lines: Seq<WrapLineView>) -> Seq<u8> {
        match self {
            ShownRow::Wrapped(w) => lines[w].text,
            ShownRow::OfBlock(b, k) => block_row_text(b, k),
        }
    }
}

/// The rows of wrapped text from one to another.
pub open spec fn wrapped_rows(from: int, to: int) -> Seq<ShownRow> {
    Seq::new((to - from) as nat, |i: int| ShownRow::Wrapped(from + i))
}

/// The rows of a block.
pub open spec fn rows_of_block(b: AlignedView) -> Seq<ShownRow> {
    Seq::new(lines_of(b.body.text).len(), |k: int| ShownRow::OfBlock(b, k))
}

/// The rows that transforms show.
pub open spec fn shown_rows(t: Seq<TransformView>) -> Seq<ShownRow>
    decreases t.len(),
{
    if t.len() == 0 {
        Seq::empty()
    } else {
        let before = shown_rows(t.drop_last());
        match t.last() {
            TransformView::Rows(n) => {
                let start = in_rows(t.drop_last());
                before + wrapped_rows(start, start + n)
            },
            TransformView::Block(b) => before + rows_of_block(b),
        }
    }
}

/// The rows of wrapped text up to one of them, with each block in front of the row that it stands in
/// front of.
pub open spec fn laid_out(p: Seq<Placed>, rows: int) -> Seq<ShownRow>
    decreases p.len(),
{
    if p.len() == 0 {
        wrapped_rows(0, rows)
    } else {
        laid_out(p.drop_last(), p.last().row) + rows_of_block(p.last().block) + wrapped_rows(
            p.last().row,
            rows,
        )
    }
}

/// What is shown is every row of wrapped text once, in order, and every block in its place.
pub proof fn rows_follow_the_places(t: Seq<TransformView>)
    requires
        all_fit(t),
    ensures
        shown_rows(t) == laid_out(placed(t), in_rows(t)),
    decreases t.len(),
{
    if t.len() > 0 {
        let rest = t.drop_last();
        assert(all_fit(rest));
        rows_follow_the_places(rest);
        assert(t.last().fits());
        rows_are_counted(rest);
        lemma_placed_rows(rest);
        let p = placed(rest);
        let m = in_rows(rest);
        match t.last() {
            TransformView::Rows(n) => {
                if p.len() == 0 {
                    assert(wrapped_rows(0, m) + wrapped_rows(m, m + n) =~= wrapped_rows(0, m + n));
                } else {
                    let row = p.last().row;
                    assert(wrapped_rows(row, m) + wrapped_rows(m, m + n) =~= wrapped_rows(
                        row,
                        m + n,
                    ));
                    let head = laid_out(p.drop_last(), row) + rows_of_block(p.last().block);
                    assert(head + wrapped_rows(row, m) + wrapped_rows(m, m + n) =~= head + (
                    wrapped_rows(row, m) + wrapped_rows(m, m + n)));
                }
            },
            TransformView::Block(b) => {
                let q = placed(t);
                assert(q.drop_last() =~= p);
                assert(wrapped_rows(m, m) =~= Seq::empty());
                assert(laid_out(q, m) =~= laid_out(p, m) + rows_of_block(b));
            },
        }
    } else {
        assert(wrapped_rows(0, 0) =~= Seq::empty());
    }
}

proof fn lemma_placed_rows(t: Seq<TransformView>)
    requires
        all_fit(t),
    ensures
        placed(t).len() > 0 ==> 0 <= placed(t).last().row <= in_rows(t),
    decreases t.len(),
{
    if t.len() > 0 {
        assert(all_fit(t.drop_last()));
        assert(t.last().fits());
        rows_are_counted(t.drop_last());
        lemma_placed_rows(t.drop_last());
    }
}

proof fn lemma_shown_len(t: Seq<TransformView>)
    requires
        all_fit(t),
    ensures
        shown_rows(t).len() == out_rows(t),
    decreases t.len(),
{
    if t.len() > 0 {
        assert(all_fit(t.drop_last()));
        assert(t.last().fits());
        lemma_shown_len(t.drop_last());
    }
}

proof fn lemma_shown_prefix(t: Seq<TransformView>, i: int)
    requires
        all_fit(t),
        0 <= i <= t.len(),
    ensures
        out_rows(t.take(i)) <= out_rows(t),
        shown_rows(t.take(i)) == shown_rows(t).take(out_rows(t.take(i))),
    decreases t.len() - i,
{
    assert(all_fit(t.take(i)));
    lemma_shown_len(t.take(i));
    lemma_shown_len(t);
    if i < t.len() {
        lemma_shown_prefix(t, i + 1);
        assert(all_fit(t.take(i + 1)));
        lemma_shown_len(t.take(i + 1));
        assert(t.take(i + 1).drop_last() =~= t.take(i));
        assert(t[i].fits());
        assert(shown_rows(t.take(i)) =~= shown_rows(t).take(out_rows(t.take(i))));
    } else {
        assert(t.take(i) =~= t);
        assert(shown_rows(t).take(out_rows(t)) =~= shown_rows(t));
    }
}

/// Each row shows the text of the row at its place in the list.
pub proof fn row_is_in_list(t: Seq<TransformView>, lines: Seq<WrapLineView>, r: int)
    requires
        all_fit(t),
        0 <= r < out_rows(t),
    ensures
        shown_rows(t).len() == out_rows(t),
        row_text(t, lines, r) == shown_rows(t)[r].text(lines),
        ({
            let i = at_row(t, r);
            let over = r - out_rows(t.take(i));
            shown_rows(t)[r] == match t[i] {
                TransformView::Rows(_) => ShownRow::Wrapped(in_rows(t.take(i)) + over),
                TransformView::Block(b) => ShownRow::OfBlock(b, over),
            }
        }),
{
    at_row_contains(t, r);
    let i = at_row(t, r);
    lemma_shown_len(t);
    lemma_shown_prefix(t, i);
    lemma_shown_prefix(t, i + 1);
    assert(t.take(i + 1).drop_last() =~= t.take(i));
    assert(all_fit(t.take(i)));
    lemma_shown_len(t.take(i));
    assert(shown_rows(t)[r] == shown_rows(t.take(i + 1))[r]);
}

/// What is shown depends on the blocks and on the wrapped rows alone, not on how it came about.
pub proof fn blocks_and_lines_decide(
    t: Seq<TransformView>,
    u: Seq<TransformView>,
    blocks: Seq<BlockView>,
    lines: Seq<WrapLineView>,
    a: int,
    m: int,
)
    requires
        snapshot_ok(t, lines),
        snapshot_ok(u, lines),
        arranged(placed(t), blocks, lines),
        arranged(placed(u), blocks, lines),
        0 <= a,
        m <= out_rows(t),
    ensures
        out_rows(t) == out_rows(u),
        shown_rows(t) == shown_rows(u),
        rows_text(t, lines, a, m) == rows_text(u, lines, a, m),
        forall|r: int|
            0 <= r < out_rows(t) ==> #[trigger] display_row(t, lines, r) == display_row(u, lines, r),
{
    arrangement_is_unique(placed(t), placed(u), blocks, lines);
    rows_follow_the_places(t);
    rows_follow_the_places(u);
    lemma_shown_len(t);
    lemma_shown_len(u);
    lemma_same_text(t, u, lines, a, m);
    assert forall|r: int| 0 <= r < out_rows(t) implies #[trigger] display_row(t, lines, r)
        == display_row(u, lines, r) by {
        row_is_in_list(t, lines, r);
        row_is_in_list(u, lines, r);
    }
}

proof fn lemma_same_text(
    t: Seq<TransformView>,
    u: Seq<TransformView>,
    lines: Seq<WrapLineView>,
    a: int,
    m: int,
)
    requires
        all_fit(t),
        all_fit(u),
        shown_rows(t) == shown_rows(u),
        out_rows(t) == out_rows(u),
        0 <= a,
        m <= out_rows(t),
    ensures
        rows_text(t, lines, a, m) == rows_text(u, lines, a, m),
    decreases m - a,
{
    if a < m {
        row_is_in_list(t, lines, a);
        row_is_in_list(u, lines, a);
        assert(feed_after(t, lines, a, m) == feed_after(u, lines, a, m));
        lemma_same_text(t, u, lines, a + 1, m);
    }
}

/// How often a block occurs among transforms.
pub open spec fn times_shown(t: Seq<TransformView>, id: BlockId) -> int
    decreases t.len(),
{
    if t.len() == 0 {
        0
    } else {
        times_shown(t.drop_last(), id) + match t.last() {
            TransformView::Block(b) if b.id == id => 1int,
            _ => 0int,
        }
    }
}

spec fn times_placed(p: Seq<Placed>, id: BlockId) -> int
    decreases p.len(),
{
    if p.len() == 0 {
        0
    } else {
        times_placed(p.drop_last(), id) + if p.last().block.id == id {
            1int
        } else {
            0int
        }
    }
}

proof fn lemma_shown_as_placed(t: Seq<TransformView>, id: BlockId)
    ensures
        times_shown(t, id) == times_placed(placed(t), id),
    decreases t.len(),
{
    if t.len() > 0 {
        lemma_shown_as_placed(t.drop_last(), id);
        if let TransformView::Block(block) = t.last() {
            let before = placed(t.drop_last());
            assert(placed(t).drop_last() =~= before);
        }
    }
}

proof fn lemma_times_placed(p: Seq<Placed>, id: BlockId)
    requires
        forall|i: int, j: int|
            0 <= i < j < p.len() ==> (#[trigger] p[i]).block.id != (#[trigger] p[j]).block.id,
    ensures
        (exists|i: int| 0 <= i < p.len() && (#[trigger] p[i]).block.id == id) ==> times_placed(p, id)
            == 1,
        (forall|i: int| 0 <= i < p.len() ==> (#[trigger] p[i]).block.id != id) ==> times_placed(
            p,
            id,
        ) == 0,
    decreases p.len(),
{
    if p.len() > 0 {
        let rest = p.drop_last();
        lemma_times_placed(rest, id);
        if p.last().block.id == id {
            assert forall|i: int| 0 <= i < rest.len() implies (#[trigger] rest[i]).block.id != id by {
                assert(p[i].block.id != p[p.len() - 1].block.id);
            }
        } else if exists|i: int| 0 <= i < p.len() && (#[trigger] p[i]).block.id == id {
            let i = choose|i: int| 0 <= i < p.len() && (#[trigger] p[i]).block.id == id;
            assert(rest[i].block.id == id);
        } else {
            assert forall|i: int| 0 <= i < rest.len() implies (#[trigger] rest[i]).block.id != id by {
                assert(p[i].block.id != id);
            }
        }
    }
}

proof fn lemma_placed_is_shown(t: Seq<TransformView>, x: Placed)
    requires
        placed(t).contains(x),
    ensures
        t.contains(TransformView::Block(x.block)),
    decreases t.len(),
{
    if t.len() > 0 {
        let rest = t.drop_last();
        let j = choose|j: int| 0 <= j < placed(t).len() && placed(t)[j] == x;
        if t.last() is Block && j == placed(rest).len() {
            assert(t[t.len() - 1] == TransformView::Block(x.block));
        } else {
            assert(placed(rest)[j] == x);
            lemma_placed_is_shown(rest, x);
            let i = choose|i: int| 0 <= i < rest.len() && rest[i] == TransformView::Block(x.block);
            assert(t[i] == TransformView::Block(x.block));
        }
    }
}

proof fn lemma_placed_ids(map: BlockMap)
    requires
        map.wf(),
    ensures
        forall|i: int, j: int|
            0 <= i < j < placed(map.transforms()).len() ==> (#[trigger] placed(
                map.transforms(),
            )[i]).block.id != (#[trigger] placed(map.transforms())[j]).block.id,
{
    map.wf_arranges();
    let blocks = map.blocks();
    let lines = map.lines();
    let p = placed(map.transforms());
    assert forall|i: int, j: int| 0 <= i < j < p.len() implies (#[trigger] p[i]).block.id != (
    #[trigger] p[j]).block.id by {
        assert(is_placement(blocks, lines, p[i]));
        assert(is_placement(blocks, lines, p[j]));
        assert(p[i].less(p[j]));
        let a = choose|a: int|
            0 <= a < blocks.len() && placement(#[trigger] blocks[a], lines) == p[i];
        let b = choose|b: int|
            0 <= b < blocks.len() && placement(#[trigger] blocks[b], lines) == p[j];
        assert(distinct_ids(blocks));
        if a < b {
            assert(blocks[a].id != blocks[b].id);
        } else if b < a {
            assert(blocks[b].id != blocks[a].id);
        }
    }
}

/// However the rows of wrapped text and the blocks have changed, the transforms take up every row of
/// wrapped text, and every block occurs among them exactly once: it takes up no row, and shows as many
/// as its text has lines.
pub proof fn every_block_occurs_once(map: BlockMap, k: int)
    requires
        map.wf(),
        0 <= k < map.blocks().len(),
    ensures
        in_rows(map.transforms()) == map.lines().len(),
        times_shown(map.transforms(), map.blocks()[k].id) == 1,
        ({
            let b = TransformView::Block(placement(map.blocks()[k], map.lines()).block);
            &&& map.transforms().contains(b)
            &&& b.input_rows() == 0
            &&& b.output_rows() == lines_of(map.blocks()[k].body.text).len()
        }),
{
    map.wf_arranges();
    lemma_placed_ids(map);
    let t = map.transforms();
    let p = placed(t);
    let id = map.blocks()[k].id;
    let x = placement(map.blocks()[k], map.lines());
    assert(p.contains(x));
    let j = choose|j: int| 0 <= j < p.len() && p[j] == x;
    assert(p[j].block.id == id);
    lemma_times_placed(p, id);
    lemma_shown_as_placed(t, id);
    lemma_placed_is_shown(t, x);
}

/// No other block occurs among the transforms.
pub proof fn only_blocks_occur(map: BlockMap, id: BlockId)
    requires
        map.wf(),
        forall|k: int| 0 <= k < map.blocks().len() ==> (#[trigger] map.blocks()[k]).id != id,
    ensures
        times_shown(map.transforms(), id) == 0,
{
    map.wf_arranges();
    lemma_placed_ids(map);
    let p = placed(map.transforms());
    assert forall|i: int| 0 <= i < p.len() implies (#[trigger] p[i]).block.id != id by {
        assert(is_placement(map.blocks(), map.lines(), p[i]));
    }
    lemma_times_placed(p, id);
    lemma_shown_as_placed(map.transforms(), id);
}

/// Taking out the blocks that were just added leads back to what was shown before: to the blocks in
/// their order, the rows and their count, their text, and what each row stands for.
pub proof fn removing_undoes_inserting(
    before: BlockMap,
    inserted: BlockMap,
    removed: BlockMap,
    ids: Seq<BlockId>,
    a: int,
    m: int,
)
    requires
        before.wf(),
        removed.wf(),
        inserted.lines() == before.lines(),
        without(inserted.blocks(), ids) == before.blocks(),
        removed.lines() == inserted.lines(),
        removed.blocks() == without(inserted.blocks(), ids),
        0 <= a,
        m <= out_rows(before.transforms()),
    ensures
        removed.blocks() == before.blocks(),
        out_rows(removed.transforms()) == out_rows(before.transforms()),
        shown_rows(removed.transforms()) == shown_rows(before.transforms()),
        rows_text(removed.transforms(), removed.lines(), a, m) == rows_text(
            before.transforms(),
            before.lines(),
            a,
            m,
        ),
        forall|r: int|
            0 <= r < out_rows(before.transforms()) ==> #[trigger] display_row(
                removed.transforms(),
                removed.lines(),
                r,
            ) == display_row(before.transforms(), before.lines(), r),
{
    before.wf_arranges();
    removed.wf_arranges();
    let blocks = before.blocks();
    let lines = before.lines();
    arranged_places_ok(placed(before.transforms()), blocks, lines);
    arranged_places_ok(placed(removed.transforms()), blocks, lines);
    blocks_and_lines_decide(before.transforms(), removed.transforms(), blocks, lines, a, m);
}

/// Texts with a line feed between each two of them.
pub open spec fn joined_by_feeds(texts: Seq<Seq<u8>>) -> Seq<u8>
    decreases texts.len(),
{
    if texts.len() == 0 {
        Seq::empty()
    } else if texts.len() == 1 {
        texts[0]
    } else {
        texts[0] + seq![10u8] + joined_by_feeds(texts.skip(1))
    }
}

/// The texts of the rows from `a` on.
pub open spec fn row_texts(t: Seq<TransformView>, lines: Seq<WrapLineView>, a: int) -> Seq<
    Seq<u8>,
> {
    Seq::new((out_rows(t) - a) as nat, |i: int| shown_rows(t)[a + i].text(lines))
}

/// The text from a row on is that of the rows in the list, joined by line feeds.
pub proof fn text_is_rows_joined(t: Seq<TransformView>, lines: Seq<WrapLineView>, a: int)
    requires
        snapshot_ok(t, lines),
        0 <= a <= out_rows(t),
    ensures
        rows_text(t, lines, a, out_rows(t)) == joined_by_feeds(row_texts(t, lines, a)),
    decreases out_rows(t) - a,
{
    let m = out_rows(t);
    let texts = row_texts(t, lines, a);
    if a < m {
        row_is_in_list(t, lines, a);
        text_is_rows_joined(t, lines, a + 1);
        assert(texts.skip(1) =~= row_texts(t, lines, a + 1));
        if a + 1 == m {
            at_row_contains(t, a);
            let i = at_row(t, a);
            assert(t.take(i + 1).drop_last() =~= t.take(i));
            rows_within(t, i + 1);
            assert(!feed_after(t, lines, a, m));
            assert(rows_text(t, lines, a + 1, m) =~= Seq::empty());
            assert(texts[0] + feed_if(false) + Seq::<u8>::empty() =~= texts[0]);
        }
    }
}

proof fn lemma_char_count_bounds(text: Seq<u8>)
    ensures
        char_count(text) <= text.len(),
    decreases text.len(),
{
    if text.len() > 0 {
        lemma_char_count_bounds(text.drop_last());
    }
}

proof fn lemma_char_count_joined(a: Seq<u8>, b: Seq<u8>)
    ensures
        char_count(a + b) == char_count(a) + char_count(b),
    decreases b.len(),
{
    if b.len() > 0 {
        lemma_char_count_joined(a, b.drop_last());
        assert((a + b).drop_last() =~= a + b.drop_last());
    } else {
        assert(a + b =~= a);
    }
}

proof fn lemma_spaces_count(n: int)
    requires
        0 <= n,
    ensures
        char_count(spaces(n)) == n,
    decreases n,
{
    if n > 0 {
        lemma_spaces_count(n - 1);
        assert(spaces(n).drop_last() =~= spaces(n - 1));
    }
}

proof fn lemma_line_in_text(text: Seq<u8>, k: int)
    requires
        0 <= k < lines_of(text).len(),
    ensures
        lines_of(text)[k].len() <= text.len(),
    decreases text.len(),
{
    if text.len() > 0 {
        let before = lines_of(text.drop_last());
        line_count_bounds(text.drop_last());
        if k < before.len() {
            lemma_line_in_text(text.drop_last(), k);
        }
    }
}

proof fn lemma_longest_line(lines: Seq<Seq<u8>>, n: int, k: int)
    requires
        0 <= k < n <= lines.len(),
    ensures
        char_count(lines[k]) <= char_count(lines[longest_line(lines, n)]),
    decreases n,
{
    if n > 1 && k < n - 1 {
        lemma_longest_line(lines, n - 1, k);
    }
}

proof fn lemma_longest_among(lines: Seq<WrapLineView>, n: int, k: int)
    requires
        0 <= k < n <= lines.len(),
    ensures
        0 <= longest_among(lines, n) < n,
        char_count(lines[k].text) <= char_count(lines[longest_among(lines, n)].text),
    decreases n,
{
    if n > 1 {
        if k < n - 1 {
            lemma_longest_among(lines, n - 1, k);
        } else {
            lemma_longest_among(lines, n - 1, 0);
        }
    }
}

/// Whether a block has a line with a character in it.
pub open spec fn has_characters(b: AlignedView) -> bool {
    let lines = lines_of(b.body.text);
    exists|k: int| 0 <= k < lines.len() && char_count(#[trigger] lines[k]) > 0
}

/// The characters of a row, its padding among them.
pub open spec fn chars_of_row(b: AlignedView, k: int) -> nat {
    char_count(block_row_text(b, k))
}

proof fn lemma_block_longest(b: AlignedView, k: int)
    requires
        TransformView::Block(b).fits(),
        has_characters(b),
        0 <= k < lines_of(b.body.text).len(),
    ensures
        ({
            let s = TransformView::Block(b).summary();
            &&& s.longest_row_in_block < lines_of(b.body.text).len()
            &&& s.output_rows == lines_of(b.body.text).len()
            &&& chars_of_row(b, s.longest_row_in_block as int) == s.longest_row_in_block_chars
            &&& chars_of_row(b, k) <= s.longest_row_in_block_chars
            &&& s.longest_row_in_block_chars > 0
        }),
{
    let lines = lines_of(b.body.text);
    let n = lines.len() as int;
    let l = longest_line(lines, n);
    line_count_bounds(b.body.text);
    longest_line_exists(lines, n);
    let some = choose|j: int| 0 <= j < lines.len() && char_count(#[trigger] lines[j]) > 0;
    lemma_longest_line(lines, n, some);
    lemma_longest_line(lines, n, k);
    lemma_char_count_bounds(lines[l]);
    lemma_line_in_text(b.body.text, l);
    lemma_spaces_count(b.column as int);
    lemma_char_count_joined(spaces(b.column as int), lines[l]);
    lemma_char_count_joined(spaces(b.column as int), lines[k]);
}

proof fn lemma_blocks_longest(t: Seq<TransformView>)
    requires
        all_fit(t),
        out_rows(t) <= u32::MAX,
        forall|i: int|
            0 <= i < t.len() ==> ((#[trigger] t[i]) matches TransformView::Block(b)
                ==> has_characters(b)),
    ensures
        ({
            let s = total_summary(t);
            let rows = shown_rows(t);
            &&& s.output_rows == out_rows(t)
            &&& forall|r: int|
                0 <= r < rows.len() ==> ((#[trigger] rows[r]) matches ShownRow::OfBlock(b, k)
                    ==> chars_of_row(b, k) <= s.longest_row_in_block_chars)
            &&& s.longest_row_in_block_chars > 0 ==> {
                &&& s.longest_row_in_block < rows.len()
                &&& rows[s.longest_row_in_block as int] matches ShownRow::OfBlock(b, k)
                &&& chars_of_row(b, k) == s.longest_row_in_block_chars
            }
        }),
    decreases t.len(),
{
    if t.len() > 0 {
        let rest = t.drop_last();
        assert(all_fit(rest));
        assert(t.last().fits());
        rows_are_counted(rest);
        match t.last() {
            TransformView::Rows(_) => {},
            TransformView::Block(b) => line_count_bounds(b.body.text),
        }
        assert forall|i: int| 0 <= i < rest.len() implies ((#[trigger] rest[i]) matches
            TransformView::Block(b) ==> has_characters(b)) by {
            assert(rest[i] == t[i]);
        }
        lemma_blocks_longest(rest);
        lemma_shown_len(rest);
        lemma_shown_len(t);
        let before = shown_rows(rest);
        let rows = shown_rows(t);
        let s = total_summary(t);
        match t.last() {
            TransformView::Rows(n) => {
                assert forall|r: int| 0 <= r < rows.len() implies ((#[trigger] rows[r]) matches
                    ShownRow::OfBlock(b, k) ==> chars_of_row(b, k)
                    <= s.longest_row_in_block_chars) by {
                    if r < before.len() {
                        assert(rows[r] == before[r]);
                    }
                }
            },
            TransformView::Block(b) => {
                assert(t[t.len() - 1] == t.last());
                lemma_block_longest(b, 0);
                assert forall|r: int| 0 <= r < rows.len() implies ((#[trigger] rows[r]) matches
                    ShownRow::OfBlock(c, k) ==> chars_of_row(c, k)
                    <= s.longest_row_in_block_chars) by {
                    if r < before.len() {
                        assert(rows[r] == before[r]);
                    } else {
                        lemma_block_longest(b, r - before.len());
                    }
                }
                let bs = t.last().summary();
                assert(rows[before.len() + bs.longest_row_in_block] == ShownRow::OfBlock(
                    b,
                    bs.longest_row_in_block as int,
                ));
            },
        }
    }
}

/// No row has more characters than the longest one, if every block has a character somewhere.
pub proof fn longest_row_is_longest(t: Seq<TransformView>, lines: Seq<WrapLineView>, r: int)
    requires
        snapshot_ok(t, lines),
        forall|i: int|
            0 <= i < t.len() ==> ((#[trigger] t[i]) matches TransformView::Block(b)
                ==> has_characters(b)),
        0 <= r < out_rows(t),
    ensures
        0 <= longest_shown(t, lines) < out_rows(t),
        char_count(row_text(t, lines, r)) <= char_count(
            row_text(t, lines, longest_shown(t, lines)),
        ),
{
    let n = lines.len() as int;
    let w = longest_among(lines, n);
    let s = total_summary(t);
    rows_are_counted(t);
    lemma_longest_among(lines, n, 0);
    lemma_blocks_longest(t);
    row_is_in_list(t, lines, r);
    at_row_contains(t, r);
    let i = at_row(t, r);
    rows_within(t, i + 1);
    rows_within(t, i);
    assert(t.take(i + 1).drop_last() =~= t.take(i));
    match shown_rows(t)[r] {
        ShownRow::Wrapped(k) => {
            lemma_longest_among(lines, n, k);
        },
        ShownRow::OfBlock(b, k) => {},
    }
    if s.longest_row_in_block_chars > char_count(lines[w].text) {
        row_is_in_list(t, lines, s.longest_row_in_block as int);
    } else {
        at_wrap_row_contains(t, w);
        let j = at_wrap_row(t, w);
        let row = out_rows(t.take(j)) + (w - in_rows(t.take(j)));
        assert(t.take(j + 1).drop_last() =~= t.take(j));
        rows_within(t, j);
        rows_within(t, j + 1);
        at_row_is(t, row, j);
        row_is_in_list(t, lines, row);
        assert(shown_point(t, lines, Point { row: w as u32, column: 0 }).row == row);
    }
}

/// Each row of text and each line of a block is shown in its turn.
pub proof fn rows_are_shown_in_turn(t: Seq<TransformView>, i: int, over: int)
    requires
        all_fit(t),
        0 <= i < t.len(),
        0 <= over < t[i].output_rows(),
    ensures
        0 <= out_rows(t.take(i)) + over < shown_rows(t).len(),
        t[i] matches TransformView::Block(b) ==> shown_rows(t)[out_rows(t.take(i)) + over]
            == ShownRow::OfBlock(b, over),
        t[i] is Rows ==> shown_rows(t)[out_rows(t.take(i)) + over] == ShownRow::Wrapped(
            in_rows(t.take(i)) + over,
        ),
{
    assert(t.take(i + 1).drop_last() == t.take(i));
    crate::block_snapshot::rows_within(t, i);
    crate::block_snapshot::rows_within(t, i + 1);
    let r = out_rows(t.take(i)) + over;
    crate::block_snapshot::at_row_is(t, r, i);
    row_is_in_list(t, Seq::empty(), r);
}

/// A row shows the text of its wrapped line, or of its line of a block.
pub proof fn rows_show_their_text(lines: Seq<WrapLineView>, w: int, b: AlignedView, k: int)
    requires
        0 <= w < lines.len(),
        0 <= k < lines_of(b.body.text).len(),
        lines_of(b.body.text)[k].len() > 0,
    ensures
        ShownRow::Wrapped(w).text(lines) == lines[w].text,
        ShownRow::OfBlock(b, k).text(lines).skip(b.column as int) == lines_of(b.body.text)[k],
{
    crate::block_chunks::block_lines_are_padded(b, k);
}

} // verus!
