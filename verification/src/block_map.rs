//! A map that puts blocks between the rows of wrapped text and keeps their places up to date as
//! rows change.
use vstd::prelude::*;
use crate::block_transforms::{
    all_fit, all_wf, copy_runs, in_rows, out_rows, placed, placed_in_sequence, placed_split,
    push_isomorphic, push_transform, rows_are_counted, shifted, sorted, transform_views,
    AlignedBlock, AlignedView, BlockBody, BlockDisposition, BlockId, BlockStyle, BodyView,
    HighlightStyle, Placed, Transform, TransformView,
};
use crate::point::Point;
use crate::wrap_rows::{
    column_of, column_of_in_row, first_row, head_row, head_row_is_last, is_wrapping, last_row, next_head,
    next_head_is_first, row_of, row_of_is_last_start, rows_of_line, starts_ascend, WrapLineView,
    WrapSnapshot,
};

verus! {

/// A block and the position in the buffer that it belongs to.
#[derive(Debug)]
pub struct Block {
    pub id: BlockId,
    pub position: Point,
    pub disposition: BlockDisposition,
    pub body: BlockBody,
}

/// The meaning of a block.
#[verifier::ext_equal]
pub struct BlockView {
    pub id: BlockId,
    pub position: Point,
    pub disposition: BlockDisposition,
    pub body: BodyView,
}

impl View for Block {
    type V = BlockView;

    open spec fn view(&self) -> BlockView {
        BlockView {
            id: self.id,
            position: self.position,
            disposition: self.disposition,
            body: self.body@,
        }
    }
}

/// What the blocks mean.
pub open spec fn block_views(blocks: Seq<Block>) -> Seq<BlockView> {
    blocks.map_values(|b: Block| b@)
}

/// Where a block stands among wrapped rows: above the row that holds the beginning of its buffer line,
/// or below the row that holds its end; its text is aligned with its position.
pub open spec fn placement(b: BlockView, lines: Seq<WrapLineView>) -> Placed {
    Placed {
        row: if b.disposition == BlockDisposition::Below {
            last_row(lines, b.position.row) + 1
        } else {
            first_row(lines, b.position.row)
        },
        block: AlignedView {
            id: b.id,
            disposition: b.disposition,
            column: column_of(lines, b.position) as u32,
            body: b.body,
        },
    }
}

/// Whether blocks are listed by position, have different identities, and can be shown.
pub open spec fn blocks_ok(blocks: Seq<BlockView>, lines: Seq<WrapLineView>) -> bool {
    &&& by_position(blocks)
    &&& distinct_ids(blocks)
    &&& forall|i: int| 0 <= i < blocks.len() ==> showable(#[trigger] blocks[i], lines)
}

/// Whether blocks are listed by position.
pub open spec fn by_position(blocks: Seq<BlockView>) -> bool {
    forall|i: int, j: int|
        0 <= i < j < blocks.len() ==> (#[trigger] blocks[i]).position.at_most(
            (#[trigger] blocks[j]).position,
        )
}

/// Whether no two blocks have the same identity.
pub open spec fn distinct_ids(blocks: Seq<BlockView>) -> bool {
    forall|i: int, j: int|
        0 <= i < j < blocks.len() ==> (#[trigger] blocks[i]).id != (#[trigger] blocks[j]).id
}

/// Whether the columns of a block can be counted.
pub open spec fn showable(b: BlockView, lines: Seq<WrapLineView>) -> bool {
    column_of(lines, b.position) + b.body.text.len() < u32::MAX
}

/// Whether a place is that of one of the blocks.
pub open spec fn is_placement(
    blocks: Seq<BlockView>,
    lines: Seq<WrapLineView>,
    y: Placed,
) -> bool {
    exists|k: int| 0 <= k < blocks.len() && placement(#[trigger] blocks[k], lines) == y
}

/// Whether the blocks are arranged as they should be: all of them, each in its place, in order.
pub open spec fn arranged(
    p: Seq<Placed>,
    blocks: Seq<BlockView>,
    lines: Seq<WrapLineView>,
) -> bool {
    &&& sorted(p)
    &&& forall|i: int| 0 <= i < p.len() ==> is_placement(blocks, lines, #[trigger] p[i])
    &&& forall|k: int| 0 <= k < blocks.len() ==> p.contains(placement(#[trigger] blocks[k], lines))
}

/// A change of rows: those from `old_start` to `old_end` became those from `new_start` to
/// `new_end`.
#[derive(Clone, Copy, Debug, PartialEq, Eq, Structural)]
pub struct RowEdit {
    pub old_start: u32,
    pub old_end: u32,
    pub new_start: u32,
    pub new_end: u32,
}

/// Where the old rows of an edit end.
pub open spec fn old_end(edits: Seq<RowEdit>, i: int, old_rows: int) -> int {
    if edits[i].old_end < old_rows {
        edits[i].old_end as int
    } else {
        old_rows
    }
}

/// Where the new rows of an edit end.
pub open spec fn new_end(edits: Seq<RowEdit>, i: int, new_rows: int) -> int {
    if edits[i].new_end < new_rows {
        edits[i].new_end as int
    } else {
        new_rows
    }
}

/// Where, among the old rows, the unchanged stretch in front of edit `i` begins.
pub open spec fn kept_old_start(edits: Seq<RowEdit>, i: int, old_rows: int) -> int {
    if i == 0 {
        0
    } else {
        old_end(edits, i - 1, old_rows)
    }
}

/// Where, among the old rows, the unchanged stretch in front of edit `i` ends; behind the last
/// edit, where the rows end.
pub open spec fn kept_old_end(edits: Seq<RowEdit>, i: int, old_rows: int) -> int {
    if i == edits.len() {
        old_rows
    } else {
        edits[i].old_start as int
    }
}

/// Where, among the new rows, the unchanged stretch in front of edit `i` begins.
pub open spec fn kept_new_start(edits: Seq<RowEdit>, i: int, new_rows: int) -> int {
    if i == 0 {
        0
    } else {
        new_end(edits, i - 1, new_rows)
    }
}

/// Whether an edit is one of the rows and follows the edit before it over as many unchanged rows on
/// both sides.
pub open spec fn edit_ok(
    edits: Seq<RowEdit>,
    i: int,
    old_rows: int,
    lines: Seq<WrapLineView>,
) -> bool {
    let e = edits[i];
    &&& e.old_start <= e.old_end
    &&& e.new_start <= e.new_end
    &&& kept_old_start(edits, i, old_rows) <= e.old_start <= old_rows
    &&& e.new_start <= lines.len()
    &&& e.old_start - kept_old_start(edits, i, old_rows) == e.new_start - kept_new_start(
        edits,
        i,
        lines.len() as int,
    )
}

/// Whether an edit changes at least one row into at least one row and covers whole buffer lines.
pub open spec fn covers_lines(
    edits: Seq<RowEdit>,
    i: int,
    old_rows: int,
    lines: Seq<WrapLineView>,
) -> bool {
    let e = edits[i];
    let end = new_end(edits, i, lines.len() as int);
    &&& e.old_start < e.old_end
    &&& e.new_start < e.new_end
    &&& e.old_start < old_rows
    &&& e.new_start < lines.len()
    &&& lines[e.new_start as int].start.column == 0
    &&& end < lines.len() ==> lines[end].start.column == 0
}

/// Whether edits lead from `old_rows` rows to the given ones.
pub open spec fn edits_ok(
    edits: Seq<RowEdit>,
    old_rows: int,
    lines: Seq<WrapLineView>,
) -> bool {
    let n = edits.len() as int;
    &&& forall|i: int| 0 <= i < n ==> #[trigger] edit_ok(edits, i, old_rows, lines)
    &&& old_rows - kept_old_start(edits, n, old_rows) == lines.len() - kept_new_start(
        edits,
        n,
        lines.len() as int,
    )
}

/// Whether edits lead from `old_rows` rows to the given ones, each over whole buffer lines.
pub open spec fn line_edits_ok(
    edits: Seq<RowEdit>,
    old_rows: int,
    lines: Seq<WrapLineView>,
) -> bool {
    &&& edits_ok(edits, old_rows, lines)
    &&& forall|i: int| 0 <= i < edits.len() ==> #[trigger] covers_lines(edits, i, old_rows, lines)
}

/// Whether the blocks of an unchanged stretch of rows are those that were there before.
pub open spec fn stretch_kept(
    before: Seq<Placed>,
    blocks: Seq<BlockView>,
    lines: Seq<WrapLineView>,
    old_start: int,
    old_end: int,
    new_start: int,
) -> bool {
    &&& forall|x: Placed| #[trigger]
        before.contains(x) && old_start <= x.line_row() < old_end ==> is_placement(
            blocks,
            lines,
            x.shifted(new_start - old_start),
        )
    &&& forall|k: int|
        0 <= k < blocks.len() && new_start <= placement(#[trigger] blocks[k], lines).line_row()
            < new_start + (old_end - old_start) ==> before.contains(
            placement(blocks[k], lines).shifted(old_start - new_start),
        )
}

/// Whether the edits account for every difference between where blocks stood and where they
/// belong now.
pub open spec fn edits_account(
    edits: Seq<RowEdit>,
    before: Seq<Placed>,
    old_rows: int,
    blocks: Seq<BlockView>,
    lines: Seq<WrapLineView>,
) -> bool {
    forall|i: int|
        0 <= i <= edits.len() ==> stretch_kept(
            before,
            blocks,
            lines,
            kept_old_start(edits, i, old_rows),
            #[trigger] kept_old_end(edits, i, old_rows),
            kept_new_start(edits, i, lines.len() as int),
        )
}

/// Whether places can come from transforms over `rows` rows.
pub open spec fn places_ok(p: Seq<Placed>, rows: int) -> bool {
    &&& sorted(p)
    &&& forall|i: int| 0 <= i < p.len() ==> 0 <= (#[trigger] p[i]).line_row() < rows
}

/// A block belongs to one of the rows.
pub proof fn placement_in_rows(b: BlockView, lines: Seq<WrapLineView>)
    requires
        is_wrapping(lines),
        showable(b, lines),
    ensures
        0 <= placement(b, lines).line_row() < lines.len(),
{
    rows_of_line(lines, b.position.row, 0);
}

/// Where blocks are arranged, each belongs to one of the rows.
pub proof fn arranged_places_ok(
    p: Seq<Placed>,
    blocks: Seq<BlockView>,
    lines: Seq<WrapLineView>,
)
    requires
        is_wrapping(lines),
        blocks_ok(blocks, lines),
        arranged(p, blocks, lines),
    ensures
        places_ok(p, lines.len() as int),
{
    assert forall|i: int| 0 <= i < p.len() implies 0 <= (#[trigger] p[i]).line_row() < lines.len() by {
        assert(is_placement(blocks, lines, p[i]));
        let k = choose|k: int| 0 <= k < blocks.len() && placement(#[trigger] blocks[k], lines) == p[i];
        placement_in_rows(blocks[k], lines);
    }
}

/// There is only one way to arrange blocks.
pub proof fn arrangement_is_unique(
    p: Seq<Placed>,
    q: Seq<Placed>,
    blocks: Seq<BlockView>,
    lines: Seq<WrapLineView>,
)
    requires
        arranged(p, blocks, lines),
        arranged(q, blocks, lines),
    ensures
        p == q,
{
    lemma_arranged_prefix(p, q, blocks, lines, p.len() as int);
    lemma_arranged_prefix(q, p, blocks, lines, q.len() as int);
    assert(p =~= q);
}

proof fn lemma_arranged_prefix(
    p: Seq<Placed>,
    q: Seq<Placed>,
    blocks: Seq<BlockView>,
    lines: Seq<WrapLineView>,
    n: int,
)
    requires
        arranged(p, blocks, lines),
        arranged(q, blocks, lines),
        0 <= n <= p.len(),
    ensures
        n <= q.len(),
        forall|i: int| 0 <= i < n ==> #[trigger] p[i] == q[i],
    decreases n,
{
    if n > 0 {
        lemma_arranged_prefix(p, q, blocks, lines, n - 1);
        let x = p[n - 1];
        assert(is_placement(blocks, lines, x));
        let k = choose|k: int| 0 <= k < blocks.len() && placement(#[trigger] blocks[k], lines) == x;
        assert(q.contains(x));
        let j = choose|j: int| 0 <= j < q.len() && q[j] == x;
        if j < n - 1 {
            assert(p[j] == q[j]);
            assert(p[j].less(p[n - 1]));
        }
        if j > n - 1 {
            let y = q[n - 1];
            assert(is_placement(blocks, lines, y));
            let m = choose|m: int|
                0 <= m < blocks.len() && placement(#[trigger] blocks[m], lines) == y;
            assert(p.contains(y));
            let i = choose|i: int| 0 <= i < p.len() && p[i] == y;
            assert(q[n - 1].less(q[j]));
            if i < n - 1 {
                assert(p[i] == q[i]);
                assert(q[i].less(q[n - 1]));
            } else if i > n - 1 {
                assert(p[n - 1].less(p[i]));
            }
        }
    }
}

// Blocks that are arranged as they should be up to a row.
spec fn arranged_upto(
    p: Seq<Placed>,
    blocks: Seq<BlockView>,
    lines: Seq<WrapLineView>,
    end: int,
) -> bool {
    &&& sorted(p)
    &&& forall|i: int|
        0 <= i < p.len() ==> is_placement(blocks, lines, #[trigger] p[i]) && p[i].line_row() < end
    &&& forall|k: int|
        0 <= k < blocks.len() && placement(#[trigger] blocks[k], lines).line_row() < end
            ==> p.contains(placement(blocks[k], lines))
}

// The first `n` of the places belong to rows before `row`, and the others do not.
spec fn splits_at(p: Seq<Placed>, n: int, row: int) -> bool {
    &&& 0 <= n <= p.len()
    &&& forall|i: int| 0 <= i < n ==> (#[trigger] p[i]).line_row() < row
    &&& forall|i: int| n <= i < p.len() ==> (#[trigger] p[i]).line_row() >= row
}

proof fn lemma_splits(p: Seq<Placed>, n: int, row: int)
    requires
        sorted(p),
        0 <= n <= p.len(),
        n > 0 ==> p[n - 1].line_row() < row,
        n < p.len() ==> p[n].line_row() >= row,
    ensures
        splits_at(p, n, row),
{
    assert forall|i: int| 0 <= i < n implies (#[trigger] p[i]).line_row() < row by {
        if i < n - 1 {
            assert(p[i].less(p[n - 1]));
        }
    }
    assert forall|i: int| n <= i < p.len() implies (#[trigger] p[i]).line_row() >= row by {
        if i > n {
            assert(p[n].less(p[i]));
        }
    }
}

// An unchanged stretch: the old blocks of the stretch, moved, are the new ones.
proof fn lemma_keep_stretch(
    p: Seq<Placed>,
    before: Seq<Placed>,
    a: int,
    b: int,
    blocks: Seq<BlockView>,
    lines: Seq<WrapLineView>,
    old_start: int,
    old_end: int,
    new_start: int,
)
    requires
        arranged_upto(p, blocks, lines, new_start),
        sorted(before),
        splits_at(before, a, old_start),
        splits_at(before, b, old_end),
        a <= b,
        old_start <= old_end,
        stretch_kept(before, blocks, lines, old_start, old_end, new_start),
    ensures
        arranged_upto(
            p + shifted(before.subrange(a, b), new_start - old_start),
            blocks,
            lines,
            new_start + (old_end - old_start),
        ),
{
    let d = new_start - old_start;
    let moved = shifted(before.subrange(a, b), d);
    let q = p + moved;
    let end = new_start + (old_end - old_start);
    assert forall|i: int| 0 <= i < moved.len() implies {
        &&& (#[trigger] moved[i]) == before[a + i].shifted(d)
        &&& new_start <= moved[i].line_row() < end
        &&& is_placement(blocks, lines, moved[i])
    } by {
        let x = before[a + i];
        assert(before.contains(x));
        assert(old_start <= x.line_row() < old_end);
    }
    assert forall|i: int, j: int| 0 <= i < j < q.len() implies (#[trigger] q[i]).less(
        #[trigger] q[j],
    ) by {
        if j < p.len() {
            assert(p[i].less(p[j]));
        } else if i >= p.len() {
            let x = before[a + (i - p.len())];
            let y = before[a + (j - p.len())];
            assert(x.less(y));
            assert(q[i] == moved[i - p.len()]);
            assert(q[j] == moved[j - p.len()]);
        } else {
            assert(q[j] == moved[j - p.len()]);
            assert(p[i].line_row() < new_start);
        }
    }
    assert forall|i: int| 0 <= i < q.len() implies is_placement(blocks, lines, #[trigger] q[i])
        && q[i].line_row() < end by {
        if i < p.len() {
            assert(q[i] == p[i]);
        } else {
            assert(q[i] == moved[i - p.len()]);
        }
    }
    assert forall|k: int|
        0 <= k < blocks.len() && placement(#[trigger] blocks[k], lines).line_row()
            < end implies q.contains(placement(blocks[k], lines)) by {
        let y = placement(blocks[k], lines);
        if y.line_row() < new_start {
            assert(p.contains(y));
            let i = choose|i: int| 0 <= i < p.len() && p[i] == y;
            assert(q[i] == y);
        } else {
            let x = y.shifted(old_start - new_start);
            assert(before.contains(x));
            let i = choose|i: int| 0 <= i < before.len() && before[i] == x;
            assert(old_start <= before[i].line_row() < old_end);
            assert(a <= i < b);
            assert(moved[i - a] == before[a + (i - a)].shifted(d));
            assert(y == x.shifted(d));
            assert(q[p.len() + (i - a)] == y);
        }
    }
}

// A changed stretch: its blocks are laid out anew.
proof fn lemma_lay_stretch(
    p: Seq<Placed>,
    s: Seq<Placed>,
    blocks: Seq<BlockView>,
    lines: Seq<WrapLineView>,
    start: int,
    end: int,
)
    requires
        arranged_upto(p, blocks, lines, start),
        start <= end,
        sorted(s),
        forall|i: int|
            0 <= i < s.len() ==> is_placement(blocks, lines, #[trigger] s[i]) && start
                <= s[i].line_row() < end,
        forall|k: int|
            0 <= k < blocks.len() && start <= placement(#[trigger] blocks[k], lines).line_row()
                < end ==> s.contains(placement(blocks[k], lines)),
    ensures
        arranged_upto(p + s, blocks, lines, end),
{
    let q = p + s;
    assert forall|i: int, j: int| 0 <= i < j < q.len() implies (#[trigger] q[i]).less(
        #[trigger] q[j],
    ) by {
        if j < p.len() {
            assert(p[i].less(p[j]));
        } else if i >= p.len() {
            assert(s[i - p.len()].less(s[j - p.len()]));
        } else {
            assert(q[j] == s[j - p.len()]);
            assert(p[i].line_row() < start);
        }
    }
    assert forall|i: int| 0 <= i < q.len() implies is_placement(blocks, lines, #[trigger] q[i])
        && q[i].line_row() < end by {
        if i < p.len() {
            assert(q[i] == p[i]);
        } else {
            assert(q[i] == s[i - p.len()]);
        }
    }
    assert forall|k: int|
        0 <= k < blocks.len() && placement(#[trigger] blocks[k], lines).line_row()
            < end implies q.contains(placement(blocks[k], lines)) by {
        let y = placement(blocks[k], lines);
        if y.line_row() < start {
            assert(p.contains(y));
            let i = choose|i: int| 0 <= i < p.len() && p[i] == y;
            assert(q[i] == y);
        } else {
            assert(s.contains(y));
            let i = choose|i: int| 0 <= i < s.len() && s[i] == y;
            assert(q[p.len() + i] == y);
        }
    }
}

// A block of the changed rows with the place it goes to.
struct Entry {
    row: u32,
    column: u32,
    index: usize,
}

spec fn entry_ok(e: Entry, blocks: Seq<BlockView>, lines: Seq<WrapLineView>) -> bool {
    &&& e.index < blocks.len()
    &&& e.row == placement(blocks[e.index as int], lines).row
    &&& e.column == placement(blocks[e.index as int], lines).block.column
}

spec fn entry_places(
    entries: Seq<Entry>,
    blocks: Seq<BlockView>,
    lines: Seq<WrapLineView>,
) -> Seq<Placed> {
    entries.map_values(|e: Entry| placement(blocks[e.index as int], lines))
}

spec fn has_entry(entries: Seq<Entry>, index: int) -> bool {
    exists|i: int| 0 <= i < entries.len() && (#[trigger] entries[i]).index == index
}

fn entry_less(a: &Entry, b: &Entry, blocks: &Vec<Block>, snap: &WrapSnapshot) -> (r: bool)
    requires
        is_wrapping(snap@),
        blocks_ok(block_views(blocks@), snap@),
        entry_ok(*a, block_views(blocks@), snap@),
        entry_ok(*b, block_views(blocks@), snap@),
    ensures
        r == placement(block_views(blocks@)[a.index as int], snap@).less(
            placement(block_views(blocks@)[b.index as int], snap@),
        ),
{
    let x: &Block = &blocks[a.index];
    let y: &Block = &blocks[b.index];
    proof {
        assert(block_views(blocks@)[a.index as int] == x@);
        assert(block_views(blocks@)[b.index as int] == y@);
        placement_in_rows(x@, snap@);
        placement_in_rows(y@, snap@);
    }
    let xr: u32 = if x.disposition.is_below() { a.row - 1 } else { a.row };
    let yr: u32 = if y.disposition.is_below() { b.row - 1 } else { b.row };
    if xr != yr {
        xr < yr
    } else if x.disposition == y.disposition {
        x.id.0 < y.id.0
    } else {
        !x.disposition.is_below()
    }
}

fn insert_entry(entries: &mut Vec<Entry>, e: Entry, blocks: &Vec<Block>, snap: &WrapSnapshot)
    requires
        is_wrapping(snap@),
        blocks_ok(block_views(blocks@), snap@),
        entry_ok(e, block_views(blocks@), snap@),
        forall|i: int|
            0 <= i < old(entries)@.len() ==> entry_ok(
                #[trigger] old(entries)@[i],
                block_views(blocks@),
                snap@,
            ) && old(entries)@[i].index != e.index,
        sorted(entry_places(old(entries)@, block_views(blocks@), snap@)),
    ensures
        exists|at: int|
            0 <= at <= old(entries)@.len() && final(entries)@ == #[trigger] old(entries)@.insert(
                at,
                e,
            ),
        sorted(entry_places(final(entries)@, block_views(blocks@), snap@)),
{
    let ghost b = block_views(blocks@);
    let ghost before = entries@;
    let ghost places = entry_places(before, b, snap@);
    let ghost new = placement(b[e.index as int], snap@);
    let mut at: usize = 0;
    while at < entries.len() && entry_less(&entries[at], &e, blocks, snap)
        invariant
            is_wrapping(snap@),
            b == block_views(blocks@),
            blocks_ok(b, snap@),
            entry_ok(e, b, snap@),
            entries@ == before,
            places == entry_places(before, b, snap@),
            new == placement(b[e.index as int], snap@),
            forall|i: int| 0 <= i < before.len() ==> entry_ok(#[trigger] before[i], b, snap@),
            at <= before.len(),
            forall|i: int| 0 <= i < at ==> (#[trigger] places[i]).less(new),
        decreases entries.len() - at,
    {
        assert(places[at as int] == placement(b[before[at as int].index as int], snap@));
        at += 1;
    }
    proof {
        if at < before.len() {
            let other = before[at as int];
            assert(!places[at as int].less(new));
            let i = other.index as int;
            let j = e.index as int;
            assert(b[i].id != b[j].id) by {
                if i < j {
                    assert(b[i].id != b[j].id);
                } else {
                    assert(b[j].id != b[i].id);
                }
            }
            assert(new.less(places[at as int]));
        }
    }
    entries.insert(at, e);
    proof {
        let after = entry_places(entries@, b, snap@);
        assert(entries@ == before.insert(at as int, e));
        assert forall|i: int, j: int| 0 <= i < j < after.len() implies (#[trigger] after[i]).less(
            #[trigger] after[j],
        ) by {
            if i == at {
                assert(after[j] == places[j - 1]);
                if j - 1 > at {
                    assert(places[at as int].less(places[j - 1]));
                }
            } else if j == at {
                assert(after[i] == places[i]);
            } else {
                let x = if i < at { i } else { i - 1 };
                let y = if j < at { j } else { j - 1 };
                assert(after[i] == places[x]);
                assert(after[j] == places[y]);
                assert(places[x].less(places[y]));
            }
        }
    }
}

/// The first block from `from` on that is not before a position.
fn first_at_or_after(blocks: &Vec<Block>, from: usize, p: Point) -> (r: usize)
    requires
        from <= blocks@.len(),
        by_position(block_views(blocks@)),
    ensures
        from <= r <= blocks@.len(),
        forall|k: int|
            from <= k < r ==> (#[trigger] block_views(blocks@)[k]).position.precedes(p),
        forall|k: int|
            r <= k < blocks@.len() ==> !(#[trigger] block_views(blocks@)[k]).position.precedes(p),
{
    let ghost b = block_views(blocks@);
    let mut low: usize = from;
    let mut high: usize = blocks.len();
    while low < high
        invariant
            b == block_views(blocks@),
            from <= low <= high <= blocks@.len(),
            by_position(b),
            forall|k: int| from <= k < low ==> (#[trigger] b[k]).position.precedes(p),
            forall|k: int| high <= k < blocks@.len() ==> !(#[trigger] b[k]).position.precedes(p),
        decreases high - low,
    {
        let mid: usize = low + (high - low) / 2;
        let ghost m = mid as int;
        assert(b[m] == blocks@[m]@);
        if blocks[mid].position.before(&p) {
            assert forall|k: int| from <= k <= mid implies (#[trigger] b[k]).position.precedes(p) by {
                if k < mid {
                    assert(b[k].position.at_most(b[m].position));
                }
            }
            low = mid + 1;
        } else {
            assert forall|k: int| mid <= k < blocks@.len() implies !(
            #[trigger] b[k]).position.precedes(p) by {
                if k > mid {
                    assert(b[m].position.at_most(b[k].position));
                }
            }
            high = mid;
        }
    }
    low
}

// A place among old transforms: the index of a transform and the rows in front of it.
#[derive(Clone, Copy)]
struct Cursor {
    index: usize,
    start: u32,
}

spec fn cursor_ok(c: Cursor, t: Seq<TransformView>) -> bool {
    &&& c.index <= t.len()
    &&& c.start == in_rows(t.take(c.index as int))
}

spec fn passed(c: Cursor, t: Seq<TransformView>) -> int {
    placed(t.take(c.index as int)).len() as int
}

proof fn lemma_step(t: Seq<TransformView>, n: int)
    requires
        all_fit(t),
        0 <= n < t.len(),
    ensures
        in_rows(t.take(n + 1)) == in_rows(t.take(n)) + t[n].input_rows(),
        out_rows(t.take(n + 1)) == out_rows(t.take(n)) + t[n].output_rows(),
        t[n] is Rows ==> placed(t.take(n + 1)).len() == placed(t.take(n)).len(),
        t[n] matches TransformView::Block(block) ==> {
            let m = placed(t.take(n)).len() as int;
            &&& placed(t.take(n + 1)).len() == m + 1
            &&& m < placed(t).len()
            &&& placed(t)[m] == (Placed { row: in_rows(t.take(n)), block })
        },
        t[n].fits(),
        in_rows(t.take(n + 1)) <= in_rows(t),
{
    assert(t.take(n + 1).drop_last() =~= t.take(n));
    assert(t.take(n + 1).last() == t[n]);
    placed_split(t, n + 1);
    placed_split(t, n);
    if t[n] is Block {
        let m = placed(t.take(n)).len() as int;
        assert(placed(t.take(n + 1))[m] == placed(t).take(m + 1)[m]);
    }
}

/// Transforms with right summaries can be counted.
pub proof fn views_fit(t: Seq<Transform>)
    requires
        all_wf(t),
    ensures
        all_fit(transform_views(t)),
{
    assert forall|i: int| 0 <= i < t.len() implies (#[trigger] transform_views(t)[i]).fits() by {
        assert(t[i].wf());
    }
}

/// Goes over the blocks that stand below the row in front of the cursor.
fn pass_below(t: &Vec<Transform>, c: Cursor) -> (r: Cursor)
    requires
        all_wf(t@),
        cursor_ok(c, transform_views(t@)),
        places_ok(placed(transform_views(t@)), in_rows(transform_views(t@))),
        passed(c, transform_views(t@)) > 0 ==> placed(transform_views(t@))[passed(
            c,
            transform_views(t@),
        ) - 1].line_row() < c.start,
    ensures
        cursor_ok(r, transform_views(t@)),
        r.index >= c.index,
        r.start == c.start,
        splits_at(
            placed(transform_views(t@)),
            passed(r, transform_views(t@)),
            c.start as int,
        ),
{
    let ghost v = transform_views(t@);
    let ghost p = placed(v);
    proof {
        views_fit(t@);
    }
    let mut index: usize = c.index;
    while index < t.len() && t[index].is_block_below()
        invariant
            all_wf(t@),
            v == transform_views(t@),
            all_fit(v),
            p == placed(v),
            c.index <= index <= t@.len(),
            c.start == in_rows(v.take(index as int)),
            placed(v.take(index as int)).len() > 0 ==> p[placed(
                v.take(index as int),
            ).len() - 1].line_row() < c.start,
        decreases t.len() - index,
    {
        proof {
            lemma_step(v, index as int);
            assert(v[index as int] == t@[index as int]@);
        }
        index += 1;
    }
    let r = Cursor { index, start: c.start };
    proof {
        let n = passed(r, v);
        placed_split(v, index as int);
        if index < t@.len() {
            assert(v[index as int] == t@[index as int]@);
            lemma_step(v, index as int);
            placed_split(v, index as int + 1);
            if n < p.len() {
                if v[index as int] is Rows {
                    assert(p[n].row >= in_rows(v.take(index as int + 1)));
                } else {
                    assert(p[n].row == c.start);
                }
                assert(p[n].line_row() >= c.start);
            }
        } else {
            assert(v.take(index as int) =~= v);
        }
        lemma_splits(p, n, c.start as int);
    }
    r
}

/// Finds the old transforms in front of a change that begins at row `row`.
fn find_start(t: &Vec<Transform>, c: Cursor, row: u32) -> (r: Cursor)
    requires
        all_wf(t@),
        cursor_ok(c, transform_views(t@)),
        places_ok(placed(transform_views(t@)), in_rows(transform_views(t@))),
        in_rows(transform_views(t@)) <= u32::MAX,
        row < in_rows(transform_views(t@)),
        c.start < row || (c.index == 0 && c.start == 0 && row == 0),
    ensures
        cursor_ok(r, transform_views(t@)),
        c.index <= r.index,
        r.start <= row,
        splits_at(placed(transform_views(t@)), passed(r, transform_views(t@)), row as int),
{
    let ghost v = transform_views(t@);
    let ghost p = placed(v);
    proof {
        views_fit(t@);
        placed_split(v, c.index as int);
    }
    let mut index: usize = c.index;
    let mut start: u32 = c.start;
    if index < t.len() {
        proof {
            lemma_step(v, index as int);
            assert(v[index as int] == t@[index as int]@);
        }
    }
    while index < t.len() && start + t[index].summary.input_rows < row
        invariant
            all_wf(t@),
            v == transform_views(t@),
            all_fit(v),
            in_rows(v) <= u32::MAX,
            c.index <= index <= t@.len(),
            start == in_rows(v.take(index as int)),
            start < row || (index == 0 && start == 0 && row == 0),
            index < t@.len() ==> {
                &&& v[index as int] == t@[index as int]@
                &&& t@[index as int].wf()
                &&& start + t@[index as int].summary.input_rows <= u32::MAX
                &&& t@[index as int].summary.input_rows == v[index as int].input_rows()
            },
        decreases t.len() - index,
    {
        start = start + t[index].summary.input_rows;
        proof {
            lemma_step(v, index as int);
        }
        index += 1;
        if index < t.len() {
            proof {
                lemma_step(v, index as int);
                assert(v[index as int] == t@[index as int]@);
            }
        }
    }
    proof {
        placed_split(v, index as int);
        if index == t@.len() {
            assert(v.take(index as int) =~= v);
        }
        assert(index < t@.len());
        lemma_step(v, index as int);
    }
    let here = Cursor { index, start };
    if t[index].is_isomorphic() && start + t[index].summary.input_rows == row {
        let next = Cursor { index: index + 1, start: row };
        proof {
            let n = passed(next, v);
            assert(n == passed(here, v));
            if n > 0 {
                assert(p[n - 1].row <= start);
            }
        }
        pass_below(t, next)
    } else {
        proof {
            let n = passed(here, v);
            placed_split(v, index as int + 1);
            if n > 0 {
                assert(p[n - 1].row <= start);
                if row == 0 {
                    assert(v.take(0) =~= Seq::empty());
                }
            }
            if n < p.len() {
                if v[index as int] is Rows {
                    assert(p[n].row >= in_rows(v.take(index as int + 1)));
                } else {
                    assert(p[n].row == start);
                    assert(p[n].line_row() >= 0);
                }
            }
            lemma_splits(p, n, row as int);
        }
        here
    }
}

/// Finds the old transforms behind a change that ends at row `row`.
fn find_end(t: &Vec<Transform>, c: Cursor, row: u32) -> (r: Cursor)
    requires
        all_wf(t@),
        cursor_ok(c, transform_views(t@)),
        places_ok(placed(transform_views(t@)), in_rows(transform_views(t@))),
        in_rows(transform_views(t@)) <= u32::MAX,
        c.start < row,
    ensures
        cursor_ok(r, transform_views(t@)),
        c.index <= r.index,
        r.start >= row || r.start == in_rows(transform_views(t@)),
        splits_at(
            placed(transform_views(t@)),
            passed(r, transform_views(t@)),
            if row < in_rows(transform_views(t@)) {
                row as int
            } else {
                in_rows(transform_views(t@))
            },
        ),
{
    let ghost v = transform_views(t@);
    let ghost p = placed(v);
    let ghost total = in_rows(v);
    proof {
        views_fit(t@);
        placed_split(v, c.index as int);
    }
    let mut index: usize = c.index;
    let mut start: u32 = c.start;
    if index < t.len() {
        proof {
            lemma_step(v, index as int);
            assert(v[index as int] == t@[index as int]@);
        }
    }
    while index < t.len() && start + t[index].summary.input_rows < row
        invariant
            all_wf(t@),
            v == transform_views(t@),
            all_fit(v),
            p == placed(v),
            in_rows(v) == total,
            total <= u32::MAX,
            c.index <= index <= t@.len(),
            start == in_rows(v.take(index as int)),
            start < row,
            index < t@.len() ==> {
                &&& v[index as int] == t@[index as int]@
                &&& t@[index as int].wf()
                &&& start + t@[index as int].summary.input_rows <= u32::MAX
                &&& t@[index as int].summary.input_rows == v[index as int].input_rows()
            },
        decreases t.len() - index,
    {
        start = start + t[index].summary.input_rows;
        proof {
            lemma_step(v, index as int);
        }
        index += 1;
        if index < t.len() {
            proof {
                lemma_step(v, index as int);
                assert(v[index as int] == t@[index as int]@);
            }
        }
    }
    if index == t.len() {
        let r = Cursor { index, start };
        proof {
            assert(v.take(index as int) =~= v);
            let n = passed(r, v);
            if n > 0 {
                assert(p[n - 1].line_row() < total);
            }
            lemma_splits(p, n, total);
        }
        return r;
    }
    proof {
        placed_split(v, index as int);
        lemma_step(v, index as int);
        placed_split(v, index as int + 1);
    }
    let end: u32 = start + t[index].summary.input_rows;
    let next = Cursor { index: index + 1, start: end };
    if end == row {
        proof {
            let n = passed(next, v);
            if n > 0 {
                assert(p[n - 1].row <= end);
                if v[index as int] is Rows {
                    assert(p[n - 1].row <= start);
                }
            }
        }
        pass_below(t, next)
    } else {
        proof {
            let n = passed(next, v);
            if n > 0 {
                if v[index as int] is Rows {
                    assert(p[n - 1].row <= start);
                } else {
                    assert(p[n - 1].line_row() < total);
                }
            }
            if n < p.len() {
                assert(p[n].row >= end);
                assert(p[n].line_row() < total);
            }
            lemma_splits(p, n, if row < total { row as int } else { total });
        }
        next
    }
}

proof fn lemma_subrange(t: Seq<TransformView>, i: int, j: int)
    requires
        all_fit(t),
        0 <= i <= j <= t.len(),
    ensures
        in_rows(t.subrange(i, j)) == in_rows(t.take(j)) - in_rows(t.take(i)),
        placed(t.take(i)).len() <= placed(t.take(j)).len() <= placed(t).len(),
        shifted(placed(t.subrange(i, j)), in_rows(t.take(i))) == placed(t).subrange(
            placed(t.take(i)).len() as int,
            placed(t.take(j)).len() as int,
        ),
{
    let a = t.take(i);
    let b = t.subrange(i, j);
    assert(t.take(j) =~= a + b);
    placed_in_sequence(a, b);
    placed_split(t, i);
    placed_split(t, j);
    let x = placed(a).len() as int;
    let y = placed(t.take(j)).len() as int;
    let moved = shifted(placed(b), in_rows(a));
    assert forall|i: int| 0 <= i < moved.len() implies moved[i] == placed(t).subrange(x, y)[i] by {
        assert(placed(t.take(j))[x + i] == moved[i]);
        assert(placed(t).take(y)[x + i] == placed(t)[x + i]);
    }
    assert(moved =~= placed(t).subrange(x, y));
}

/// Adds copies of the transforms from `from` to `to` at the end.
fn copy_range(new: &mut Vec<Transform>, t: &Vec<Transform>, from: usize, to: usize)
    requires
        all_wf(old(new)@),
        all_wf(t@),
        from <= to <= t@.len(),
    ensures
        all_wf(final(new)@),
        transform_views(final(new)@) == transform_views(old(new)@) + transform_views(
            t@,
        ).subrange(from as int, to as int),
{
    let ghost before = transform_views(new@);
    let ghost v = transform_views(t@);
    let mut i: usize = from;
    assert(before + v.subrange(from as int, from as int) =~= before);
    while i < to
        invariant
            all_wf(new@),
            all_wf(t@),
            from <= i <= to <= t@.len(),
            v == transform_views(t@),
            transform_views(new@) == before + v.subrange(from as int, i as int),
        decreases to - i,
    {
        push_transform(new, t[i].copied());
        assert(v.subrange(from as int, i + 1) =~= v.subrange(from as int, i as int).push(
            v[i as int],
        ));
        assert((before + v.subrange(from as int, i as int)).push(v[i as int]) =~= before
            + v.subrange(from as int, i + 1));
        i += 1;
    }
}

// Whether the places are exactly those of the blocks from `from` to `to`, in order.
spec fn lays_out(
    s: Seq<Placed>,
    blocks: Seq<BlockView>,
    lines: Seq<WrapLineView>,
    from: int,
    to: int,
) -> bool {
    &&& sorted(s)
    &&& forall|i: int|
        0 <= i < s.len() ==> exists|k: int|
            from <= k < to && placement(#[trigger] blocks[k], lines) == #[trigger] s[i]
    &&& forall|k: int| from <= k < to ==> s.contains(placement(#[trigger] blocks[k], lines))
}

/// Finds the places of the blocks from `from` to `to` and puts them in order.
fn collect_entries(blocks: &Vec<Block>, from: usize, to: usize, snap: &WrapSnapshot) -> (r: Vec<
    Entry,
>)
    requires
        is_wrapping(snap@),
        blocks_ok(block_views(blocks@), snap@),
        from <= to <= blocks@.len(),
    ensures
        forall|i: int|
            0 <= i < r@.len() ==> entry_ok(#[trigger] r@[i], block_views(blocks@), snap@) && from
                <= r@[i].index < to,
        lays_out(
            entry_places(r@, block_views(blocks@), snap@),
            block_views(blocks@),
            snap@,
            from as int,
            to as int,
        ),
{
    let ghost b = block_views(blocks@);
    let mut entries: Vec<Entry> = Vec::new();
    let mut k: usize = from;
    while k < to
        invariant
            is_wrapping(snap@),
            b == block_views(blocks@),
            blocks_ok(b, snap@),
            from <= k <= to <= blocks@.len(),
            forall|i: int|
                0 <= i < entries@.len() ==> entry_ok(#[trigger] entries@[i], b, snap@) && from
                    <= entries@[i].index < k,
            forall|j: int| from <= j < k ==> #[trigger] has_entry(entries@, j),
            sorted(entry_places(entries@, b, snap@)),
        decreases to - k,
    {
        let block: &Block = &blocks[k];
        assert(b[k as int] == block@);
        assert(showable(b[k as int], snap@));
        proof {
            rows_of_line(snap@, block.position.row, 0);
        }
        let column: u32 = snap.column_of(block.position);
        let row: u32 = match block.disposition {
            BlockDisposition::Above => snap.row_of(Point { row: block.position.row, column: 0 }),
            BlockDisposition::Below => snap.row_of(
                Point { row: block.position.row, column: u32::MAX },
            ) + 1,
        };
        let e = Entry { row, column, index: k };
        let ghost before = entries@;
        insert_entry(&mut entries, e, blocks, snap);
        proof {
            let at = choose|at: int|
                0 <= at <= before.len() && entries@ == #[trigger] before.insert(at, e);
            assert forall|i: int| 0 <= i < entries@.len() implies entry_ok(
                #[trigger] entries@[i],
                b,
                snap@,
            ) && from <= entries@[i].index < k + 1 by {
                if i != at {
                    let x = if i < at { i } else { i - 1 };
                    assert(entries@[i] == before[x]);
                }
            }
            assert forall|j: int| from <= j < k + 1 implies #[trigger] has_entry(entries@, j) by {
                if j == k {
                    assert(entries@[at].index == j);
                } else {
                    assert(has_entry(before, j));
                    let x = choose|x: int| 0 <= x < before.len() && (#[trigger] before[x]).index == j;
                    let i = if x < at { x } else { x + 1 };
                    assert(entries@[i] == before[x]);
                }
            }
        }
        k += 1;
    }
    proof {
        let s = entry_places(entries@, b, snap@);
        assert forall|i: int| 0 <= i < s.len() implies exists|j: int|
            from <= j < to && placement(#[trigger] b[j], snap@) == #[trigger] s[i] by {
            let j = entries@[i].index as int;
            assert(entry_ok(entries@[i], b, snap@));
            assert(placement(b[j], snap@) == s[i]);
        }
        assert forall|j: int| from <= j < to implies s.contains(placement(#[trigger] b[j], snap@)) by {
            assert(has_entry(entries@, j));
            let i = choose|i: int| 0 <= i < entries@.len() && (#[trigger] entries@[i]).index == j;
            assert(s[i] == placement(b[j], snap@));
        }
    }
    entries
}

/// Lays out the blocks from `from` to `to` behind the transforms, which take up `rows` rows.
fn lay_blocks(
    new: &mut Vec<Transform>,
    rows: u32,
    blocks: &Vec<Block>,
    from: usize,
    to: usize,
    snap: &WrapSnapshot,
    end: u32,
) -> (r: u32)
    requires
        is_wrapping(snap@),
        blocks_ok(block_views(blocks@), snap@),
        from <= to <= blocks@.len(),
        all_wf(old(new)@),
        in_rows(transform_views(old(new)@)) == rows,
        rows <= end <= snap@.len(),
        forall|k: int|
            from <= k < to ==> rows <= placement(
                #[trigger] block_views(blocks@)[k],
                snap@,
            ).line_row() < end,
    ensures
        all_wf(final(new)@),
        in_rows(transform_views(final(new)@)) == r,
        r <= end,
        exists|s: Seq<Placed>|
            placed(transform_views(final(new)@)) == placed(transform_views(old(new)@)) + s
                && #[trigger] lays_out(s, block_views(blocks@), snap@, from as int, to as int),
{
    let ghost b = block_views(blocks@);
    let entries: Vec<Entry> = collect_entries(blocks, from, to, snap);
    let ghost s = entry_places(entries@, b, snap@);
    let ghost base = placed(transform_views(new@));
    let mut total: u32 = rows;
    let mut i: usize = 0;
    assert(base + s.take(0) =~= base);
    while i < entries.len()
        invariant
            is_wrapping(snap@),
            b == block_views(blocks@),
            blocks_ok(b, snap@),
            from <= to <= blocks@.len(),
            rows <= total <= end <= snap@.len(),
            snap@.len() < u32::MAX,
            i <= entries@.len(),
            s == entry_places(entries@, b, snap@),
            sorted(s),
            forall|x: int|
                0 <= x < entries@.len() ==> entry_ok(#[trigger] entries@[x], b, snap@) && from
                    <= entries@[x].index < to,
            forall|k: int|
                from <= k < to ==> rows <= placement(#[trigger] b[k], snap@).line_row() < end,
            all_wf(new@),
            in_rows(transform_views(new@)) == total,
            placed(transform_views(new@)) == base + s.take(i as int),
            i == 0 ==> total == rows,
            i > 0 ==> total == s[i - 1].row,
        decreases entries.len() - i,
    {
        let e: &Entry = &entries[i];
        assert(entry_ok(entries@[i as int], b, snap@));
        let ghost k = e.index as int;
        let ghost place = placement(b[k], snap@);
        assert(s[i as int] == place);
        assert(rows <= placement(b[k], snap@).line_row() < end);
        proof {
            if i > 0 {
                let prev = s[i - 1];
                assert(prev.less(place));
                let j = entries@[i - 1].index as int;
                assert(entry_ok(entries@[i - 1], b, snap@));
                assert(prev == placement(b[j], snap@));
                assert(prev.row <= place.row);
            }
        }
        push_isomorphic(new, e.row - total);
        total = e.row;
        let block: &Block = &blocks[e.index];
        assert(b[k] == block@);
        assert(showable(b[k], snap@));
        let aligned = AlignedBlock {
            id: block.id,
            disposition: block.disposition,
            column: e.column,
            body: block.body.clone(),
        };
        proof {
            column_of_in_row(snap@, b[k].position);
        }
        assert(aligned@ == place.block);
        push_transform(new, Transform::block(aligned));
        proof {
            assert(s.take(i + 1) =~= s.take(i as int).push(place));
            assert((base + s.take(i as int)).push(place) =~= base + s.take(i + 1));
        }
        i += 1;
    }
    assert(s.take(i as int) =~= s);
    assert(lays_out(s, b, snap@, from as int, to as int));
    total
}

/// The rows of wrapped text that transforms take up.
fn input_row_count(t: &Vec<Transform>) -> (r: u32)
    requires
        all_wf(t@),
        in_rows(transform_views(t@)) <= u32::MAX,
    ensures
        r == in_rows(transform_views(t@)),
{
    let ghost v = transform_views(t@);
    proof {
        views_fit(t@);
    }
    let mut total: u32 = 0;
    let mut i: usize = 0;
    while i < t.len()
        invariant
            all_wf(t@),
            v == transform_views(t@),
            all_fit(v),
            in_rows(v) <= u32::MAX,
            i <= t@.len(),
            total == in_rows(v.take(i as int)),
        decreases t.len() - i,
    {
        proof {
            lemma_step(v, i as int);
            assert(t@[i as int].wf());
            assert(v[i as int] == t@[i as int]@);
        }
        total = total + t[i].summary.input_rows;
        i += 1;
    }
    assert(v.take(i as int) =~= v);
    total
}

// The blocks around a row that begins a buffer line.
proof fn lemma_position_side(b: BlockView, lines: Seq<WrapLineView>, w: int)
    requires
        is_wrapping(lines),
        showable(b, lines),
        0 <= w < lines.len(),
        lines[w].start.column == 0,
    ensures
        b.position.precedes(lines[w].start) == (placement(b, lines).line_row() < w),
{
    rows_of_line(lines, b.position.row, w);
}

/// Adds the old transforms from the cursor to row `row` behind the new ones, which take up `rows`
/// rows.
fn keep_until(
    new: &mut Vec<Transform>,
    rows: u32,
    t: &Vec<Transform>,
    c: Cursor,
    row: u32,
) -> (r: Cursor)
    requires
        all_wf(t@),
        cursor_ok(c, transform_views(t@)),
        places_ok(placed(transform_views(t@)), in_rows(transform_views(t@))),
        in_rows(transform_views(t@)) <= u32::MAX,
        row < in_rows(transform_views(t@)),
        c.start < row || (c.index == 0 && c.start == 0 && row == 0),
        all_wf(old(new)@),
        in_rows(transform_views(old(new)@)) == rows,
        rows + (row - c.start) <= u32::MAX,
    ensures
        cursor_ok(r, transform_views(t@)),
        r.start <= row,
        passed(c, transform_views(t@)) <= passed(r, transform_views(t@)),
        splits_at(placed(transform_views(t@)), passed(r, transform_views(t@)), row as int),
        all_wf(final(new)@),
        in_rows(transform_views(final(new)@)) == rows + (row - c.start),
        placed(transform_views(final(new)@)) == placed(transform_views(old(new)@)) + shifted(
            placed(transform_views(t@)).subrange(
                passed(c, transform_views(t@)),
                passed(r, transform_views(t@)),
            ),
            rows - c.start,
        ),
{
    let ghost v = transform_views(t@);
    let head = find_start(t, c, row);
    let ghost before = transform_views(new@);
    copy_range(new, t, c.index, head.index);
    proof {
        views_fit(t@);
        lemma_kept(before, v, c, head);
    }
    push_isomorphic(new, row - head.start);
    head
}

proof fn lemma_kept(before: Seq<TransformView>, v: Seq<TransformView>, c: Cursor, head: Cursor)
    requires
        all_fit(v),
        cursor_ok(c, v),
        cursor_ok(head, v),
        c.index <= head.index,
    ensures
        ({
            let after = before + v.subrange(c.index as int, head.index as int);
            let d = in_rows(before) - c.start;
            &&& c.start <= head.start
            &&& passed(c, v) <= passed(head, v) <= placed(v).len()
            &&& in_rows(after) == in_rows(before) + (head.start - c.start)
            &&& placed(after) == placed(before) + shifted(
                placed(v).subrange(passed(c, v), passed(head, v)),
                d,
            )
        }),
{
    let part = v.subrange(c.index as int, head.index as int);
    lemma_subrange(v, c.index as int, head.index as int);
    placed_in_sequence(before, part);
    assert(all_fit(part)) by {
        assert forall|i: int| 0 <= i < part.len() implies (#[trigger] part[i]).fits() by {
            assert(v[c.index + i].fits());
        }
    }
    rows_are_counted(part);
    assert(shifted(placed(part), in_rows(before)) =~= shifted(
        shifted(placed(part), c.start as int),
        in_rows(before) - c.start,
    ));
}

/// Lays out the blocks of the rows from `start` to `end`, which begin and end with buffer lines,
/// and answers how many blocks stand before row `end`.
fn lay_changed(
    new: &mut Vec<Transform>,
    blocks: &Vec<Block>,
    last_block: usize,
    snap: &WrapSnapshot,
    start: u32,
    end: u32,
) -> (end_block: usize)
    requires
        is_wrapping(snap@),
        blocks_ok(block_views(blocks@), snap@),
        last_block <= blocks@.len(),
        start < end <= snap@.len(),
        snap@[start as int].start.column == 0,
        end < snap@.len() ==> snap@[end as int].start.column == 0,
        forall|k: int|
            0 <= k < last_block ==> placement(
                #[trigger] block_views(blocks@)[k],
                snap@,
            ).line_row() < start,
        all_wf(old(new)@),
        in_rows(transform_views(old(new)@)) == start,
        arranged_upto(
            placed(transform_views(old(new)@)),
            block_views(blocks@),
            snap@,
            start as int,
        ),
    ensures
        end_block <= blocks@.len(),
        forall|k: int|
            0 <= k < end_block ==> placement(
                #[trigger] block_views(blocks@)[k],
                snap@,
            ).line_row() < end,
        all_wf(final(new)@),
        in_rows(transform_views(final(new)@)) == end,
        arranged_upto(
            placed(transform_views(final(new)@)),
            block_views(blocks@),
            snap@,
            end as int,
        ),
{
    let ghost b = block_views(blocks@);
    let start_block: usize = first_at_or_after(blocks, last_block, snap.start(start));
    proof {
        assert forall|k: int| 0 <= k < b.len() implies (placement(
            #[trigger] b[k],
            snap@,
        ).line_row() < start) == (k < start_block) by {
            if k >= last_block {
                assert(b[k].position.precedes(snap@[start as int].start) == (k < start_block));
                lemma_position_side(b[k], snap@, start as int);
            }
        }
    }
    let end_block: usize = if end >= snap.row_count() {
        blocks.len()
    } else {
        first_at_or_after(blocks, start_block, snap.start(end))
    };
    proof {
        assert forall|k: int| 0 <= k < b.len() implies (placement(
            #[trigger] b[k],
            snap@,
        ).line_row() < end) == (k < end_block) by {
            if end >= snap@.len() {
                placement_in_rows(b[k], snap@);
            } else if k >= start_block {
                assert(b[k].position.precedes(snap@[end as int].start) == (k < end_block));
                lemma_position_side(b[k], snap@, end as int);
            }
        }
    }
    let ghost kept = placed(transform_views(new@));
    let rows: u32 = lay_blocks(new, start, blocks, start_block, end_block, snap, end);
    proof {
        let s = choose|s: Seq<Placed>|
            placed(transform_views(new@)) == kept + s && #[trigger] lays_out(
                s,
                b,
                snap@,
                start_block as int,
                end_block as int,
            );
        assert forall|i: int| 0 <= i < s.len() implies is_placement(b, snap@, #[trigger] s[i])
            && start <= s[i].line_row() < end by {
            let k = choose|k: int|
                start_block <= k < end_block && placement(#[trigger] b[k], snap@) == s[i];
            assert(placement(b[k], snap@) == s[i]);
        }
        lemma_lay_stretch(kept, s, b, snap@, start as int, end as int);
    }
    push_isomorphic(new, end - rows);
    end_block
}

/// Tells whether edits cover whole buffer lines.
fn cover_lines(edits: &Vec<RowEdit>, old_rows: u32, snap: &WrapSnapshot) -> (r: bool)
    requires
        edits_ok(edits@, old_rows as int, snap@),
        is_wrapping(snap@),
    ensures
        r == line_edits_ok(edits@, old_rows as int, snap@),
{
    let rows: u32 = snap.row_count();
    let mut i: usize = 0;
    while i < edits.len()
        invariant
            i <= edits@.len(),
            rows == snap@.len(),
            forall|j: int| 0 <= j < i ==> #[trigger] covers_lines(
                edits@,
                j,
                old_rows as int,
                snap@,
            ),
        decreases edits.len() - i,
    {
        let e: RowEdit = edits[i];
        let covers: bool = e.old_start < e.old_end && e.new_start < e.new_end && e.old_start
            < old_rows && e.new_start < rows && snap.start(e.new_start).column == 0 && (e.new_end
            >= rows || snap.start(e.new_end).column == 0);
        assert(covers == covers_lines(edits@, i as int, old_rows as int, snap@));
        if !covers {
            return false;
        }
        i += 1;
    }
    true
}

/// Of the rows up to `row`, the last one with which a line begins.
fn line_start_row(snap: &WrapSnapshot, row: u32) -> (r: u32)
    requires
        is_wrapping(snap@),
        row < snap@.len(),
    ensures
        r == head_row(snap@, row as int),
        r <= row,
        snap@[r as int].start.column == 0,
{
    let mut r: u32 = row;
    while snap.start(r).column != 0
        invariant
            is_wrapping(snap@),
            r <= row < snap@.len(),
            head_row(snap@, row as int) == head_row(snap@, r as int),
        decreases r,
    {
        r -= 1;
    }
    r
}

/// The number of the row, at or behind `row`, with which a line begins, or of all rows if none does.
fn next_line_row(snap: &WrapSnapshot, row: u32) -> (r: u32)
    requires
        row <= snap@.len(),
        is_wrapping(snap@),
    ensures
        r == next_head(snap@, row as int),
        row <= r <= snap@.len(),
        r < snap@.len() ==> snap@[r as int].start.column == 0,
{
    let rows: u32 = snap.row_count();
    let mut r: u32 = row;
    while r < rows && snap.start(r).column != 0
        invariant
            row <= r <= rows,
            rows == snap@.len(),
            next_head(snap@, row as int) == next_head(snap@, r as int),
        decreases rows - r,
    {
        r += 1;
    }
    r
}

/// Widens edits to whole buffer lines. Edits that do not cover whole lines become one, from the line
/// in which the first begins to the line in which the last ends, with at least one row on either
/// side.
fn whole_lines(
    edits: &Vec<RowEdit>,
    old_rows: u32,
    snap: &WrapSnapshot,
    Ghost(before): Ghost<Seq<Placed>>,
    Ghost(blocks): Ghost<Seq<BlockView>>,
) -> (r: Vec<RowEdit>)
    requires
        0 < old_rows,
        is_wrapping(snap@),
        edits_ok(edits@, old_rows as int, snap@),
        edits_account(edits@, before, old_rows as int, blocks, snap@),
    ensures
        line_edits_ok(r@, old_rows as int, snap@),
        edits_account(r@, before, old_rows as int, blocks, snap@),
        r@.len() == 0 <==> edits@.len() == 0,
{
    let n: usize = edits.len();
    if n == 0 || cover_lines(edits, old_rows, snap) {
        let r: Vec<RowEdit> = edits.clone();
        assert(r@ =~= edits@);
        return r;
    }
    let rows: u32 = snap.row_count();
    proof {
        assert(edit_ok(edits@, 0, old_rows as int, snap@));
        lemma_edits_ascend(edits@, n - 1, old_rows as int, snap@);
    }
    let mut first: u32 = edits[0].new_start;
    if first >= old_rows {
        first = old_rows - 1;
    }
    if first >= rows {
        first = rows - 1;
    }
    let start: u32 = line_start_row(snap, first);
    let last: RowEdit = edits[n - 1];
    let old_end: u32 = if last.old_end < old_rows {
        last.old_end
    } else {
        old_rows
    };
    let new_end: u32 = if last.new_end < rows {
        last.new_end
    } else {
        rows
    };
    let more: u32 = if old_end <= start || new_end <= start {
        1
    } else {
        0
    };
    let end: u32 = next_line_row(snap, new_end + more);
    let edit = RowEdit {
        old_start: start,
        old_end: old_end + (end - new_end),
        new_start: start,
        new_end: end,
    };
    let mut r: Vec<RowEdit> = Vec::new();
    r.push(edit);
    proof {
        assert(r@ =~= seq![edit]);
        assert(covers_lines(r@, 0, old_rows as int, snap@));
        assert(kept_old_end(edits@, 0, old_rows as int) == edits@[0].old_start);
        assert(kept_old_end(edits@, n as int, old_rows as int) == old_rows);
        assert(kept_old_end(r@, 0, old_rows as int) == start);
        assert(kept_old_end(r@, 1, old_rows as int) == old_rows);
    }
    r
}

/// Edits follow each other: each ends at or behind the beginning of the first.
proof fn lemma_edits_ascend(
    edits: Seq<RowEdit>,
    i: int,
    old_rows: int,
    lines: Seq<WrapLineView>,
)
    requires
        edits_ok(edits, old_rows, lines),
        0 <= i < edits.len(),
    ensures
        edits[0].old_start <= old_end(edits, i, old_rows),
        edits[0].new_start <= new_end(edits, i, lines.len() as int),
        edits[0].old_start == edits[0].new_start,
    decreases i,
{
    assert(edit_ok(edits, i, old_rows, lines));
    assert(edit_ok(edits, 0, old_rows, lines));
    if i > 0 {
        lemma_edits_ascend(edits, i - 1, old_rows, lines);
    }
}

/// Arranges blocks among changed rows: transforms that the edits leave alone are kept, and the
/// blocks of changed rows are laid out anew.
#[verifier::rlimit(60)]
fn sync(
    t: &Vec<Transform>,
    blocks: &Vec<Block>,
    snap: &WrapSnapshot,
    edits: &Vec<RowEdit>,
) -> (r: Vec<Transform>)
    requires
        all_wf(t@),
        in_rows(transform_views(t@)) <= u32::MAX,
        places_ok(placed(transform_views(t@)), in_rows(transform_views(t@))),
        is_wrapping(snap@),
        blocks_ok(block_views(blocks@), snap@),
        line_edits_ok(edits@, in_rows(transform_views(t@)), snap@),
        edits_account(
            edits@,
            placed(transform_views(t@)),
            in_rows(transform_views(t@)),
            block_views(blocks@),
            snap@,
        ),
    ensures
        all_wf(r@),
        in_rows(transform_views(r@)) == snap@.len(),
        arranged(placed(transform_views(r@)), block_views(blocks@), snap@),
        edits@.len() == 0 ==> transform_views(r@) == transform_views(t@),
{
    let ghost v = transform_views(t@);
    let ghost o = placed(v);
    let ghost b = block_views(blocks@);
    let ghost n = edits@.len() as int;
    let old_rows: u32 = input_row_count(t);
    let new_rows: u32 = snap.row_count();
    let mut new: Vec<Transform> = Vec::new();
    let mut rows: u32 = 0;
    let mut c = Cursor { index: 0, start: 0 };
    let mut last_block: usize = 0;
    let mut e: usize = 0;
    proof {
        views_fit(t@);
        assert(v.take(0) =~= Seq::empty());
        assert(transform_views(new@) =~= Seq::empty());
        assert(splits_at(o, 0, 0));
        assert forall|k: int|
            0 <= k < b.len() && placement(#[trigger] b[k], snap@).line_row() < 0 implies Seq::<
            Placed,
        >::empty().contains(placement(b[k], snap@)) by {
            placement_in_rows(b[k], snap@);
        }
        assert(arranged_upto(placed(transform_views(new@)), b, snap@, 0));
    }
    while e < edits.len()
        invariant
            all_wf(t@),
            v == transform_views(t@),
            o == placed(v),
            in_rows(v) == old_rows,
            places_ok(o, old_rows as int),
            is_wrapping(snap@),
            new_rows == snap@.len(),
            b == block_views(blocks@),
            blocks_ok(b, snap@),
            n == edits@.len(),
            line_edits_ok(edits@, old_rows as int, snap@),
            edits_account(edits@, o, old_rows as int, b, snap@),
            e <= n,
            cursor_ok(c, v),
            e == 0 ==> c.index == 0 && c.start == 0 && transform_views(new@).len() == 0,
            0 < e < n ==> c.start < edits@[e as int].old_start,
            kept_old_start(edits@, e as int, old_rows as int) <= c.start,
            splits_at(o, passed(c, v), kept_old_start(edits@, e as int, old_rows as int)),
            all_wf(new@),
            in_rows(transform_views(new@)) == rows,
            rows == kept_new_start(edits@, e as int, new_rows as int) + (c.start - kept_old_start(
                edits@,
                e as int,
                old_rows as int,
            )),
            arranged_upto(
                placed(transform_views(new@)),
                b,
                snap@,
                kept_new_start(edits@, e as int, new_rows as int),
            ),
            last_block <= blocks@.len(),
            forall|k: int|
                0 <= k < last_block ==> placement(#[trigger] b[k], snap@).line_row()
                    < kept_new_start(edits@, e as int, new_rows as int),
        decreases n - e,
    {
        let first: RowEdit = edits[e];
        let ghost i0 = e as int;
        let ghost oe = kept_old_start(edits@, i0, old_rows as int);
        let ghost ne = kept_new_start(edits@, i0, new_rows as int);
        let ghost os = first.old_start as int;
        let ghost ns = first.new_start as int;
        assert(edit_ok(edits@, i0, old_rows as int, snap@));
        assert(covers_lines(edits@, i0, old_rows as int, snap@));
        // Keep the old transforms in front of this edit.
        let ghost before = placed(transform_views(new@));
        let head = keep_until(&mut new, rows, t, c, first.old_start);
        proof {
            assert(kept_old_end(edits@, i0, old_rows as int) == os);
            lemma_keep_stretch(before, o, passed(c, v), passed(head, v), b, snap@, oe, os, ne);
        }
        // Pass over the old transforms that this edit touches, and with it all edits that touch
        // the same transform.
        let mut old_end: u32 = first.old_end;
        let mut new_end: u32 = first.new_end;
        let mut tail = find_end(t, head, old_end);
        e += 1;
        while e < edits.len() && edits[e].old_start <= tail.start
            invariant
                all_wf(t@),
                v == transform_views(t@),
                o == placed(v),
                in_rows(v) == old_rows,
                places_ok(o, old_rows as int),
                new_rows == snap@.len(),
                n == edits@.len(),
                line_edits_ok(edits@, old_rows as int, snap@),
                0 <= i0 < e <= n,
                ns < new_rows,
                cursor_ok(head, v),
                head.start <= os < old_end,
                old_end == edits@[e - 1].old_end,
                new_end == edits@[e - 1].new_end,
                ns < new_end,
                cursor_ok(tail, v),
                tail.start >= old_end || tail.start == old_rows,
                splits_at(
                    o,
                    passed(tail, v),
                    kept_old_start(edits@, e as int, old_rows as int),
                ),
            decreases n - e,
        {
            assert(edit_ok(edits@, e as int, old_rows as int, snap@));
            assert(covers_lines(edits@, e as int, old_rows as int, snap@));
            assert(edit_ok(edits@, e - 1, old_rows as int, snap@));
            assert(covers_lines(edits@, e - 1, old_rows as int, snap@));
            old_end = edits[e].old_end;
            new_end = edits[e].new_end;
            tail = find_end(t, head, old_end);
            e += 1;
        }
        assert(edit_ok(edits@, e - 1, old_rows as int, snap@));
        assert(covers_lines(edits@, e - 1, old_rows as int, snap@));
        let old_stop: u32 = if old_end < old_rows { old_end } else { old_rows };
        let new_stop: u32 = if new_end < new_rows { new_end } else { new_rows };
        // Lay out the blocks of the changed rows.
        last_block = lay_changed(&mut new, blocks, last_block, snap, first.new_start, new_stop);
        // Keep the rest of the old transform behind this edit.
        proof {
            if e < n {
                assert(edit_ok(edits@, e as int, old_rows as int, snap@));
                assert(covers_lines(edits@, e as int, old_rows as int, snap@));
            }
            views_fit(t@);
            placed_split(v, tail.index as int);
        }
        push_isomorphic(&mut new, tail.start - old_stop);
        rows = new_stop + (tail.start - old_stop);
        c = tail;
    }
    let ghost before = transform_views(new@);
    copy_range(&mut new, t, c.index, t.len());
    proof {
        if n == 0 {
            assert(transform_views(new@) =~= v);
        }
        let oe = kept_old_start(edits@, n, old_rows as int);
        let ne = kept_new_start(edits@, n, new_rows as int);
        let end = Cursor { index: t@.len() as usize, start: old_rows };
        assert(v.take(v.len() as int) =~= v);
        views_fit(t@);
        lemma_kept(before, v, c, end);
        assert(kept_old_end(edits@, n, old_rows as int) == old_rows);
        lemma_keep_stretch(
            placed(before),
            o,
            passed(c, v),
            o.len() as int,
            b,
            snap@,
            oe,
            old_rows as int,
            ne,
        );
        let p = placed(transform_views(new@));
        assert(arranged_upto(p, b, snap@, new_rows as int));
        assert forall|k: int| 0 <= k < b.len() implies p.contains(
            placement(#[trigger] b[k], snap@),
        ) by {
            placement_in_rows(b[k], snap@);
        }
    }
    new
}

// The line with which the rows of a line begin: the line itself, unless a fold joins it to one in
// front of it.
spec fn head_line(lines: Seq<WrapLineView>, line: u32) -> u32 {
    lines[head_row(lines, first_row(lines, line))].start.row
}

// Whether a row begins with a line.
spec fn begins_row(lines: Seq<WrapLineView>, line: u32) -> bool {
    lines[first_row(lines, line)].start == Point { row: line, column: 0 }
}

// The edit that covers the rows that begin with a line and stay the same, up to the next row that
// begins a line.
spec fn line_edit(lines: Seq<WrapLineView>, line: u32) -> RowEdit {
    RowEdit {
        old_start: first_row(lines, line) as u32,
        old_end: next_head(lines, first_row(lines, line) + 1) as u32,
        new_start: first_row(lines, line) as u32,
        new_end: next_head(lines, first_row(lines, line) + 1) as u32,
    }
}

// Whether edits cover the rows that begin with the given lines, in ascending order.
spec fn covers(edits: Seq<RowEdit>, touched: Seq<u32>, lines: Seq<WrapLineView>) -> bool {
    &&& edits.len() == touched.len()
    &&& forall|i: int| 0 <= i < touched.len() ==> begins_row(lines, #[trigger] touched[i])
    &&& forall|i: int| 0 <= i < edits.len() ==> #[trigger] edits[i] == line_edit(lines, touched[i])
    &&& forall|i: int, j: int| 0 <= i < j < touched.len() ==> #[trigger] touched[i] < #[trigger] touched[j]
}

// A line begins a row, and its rows stand in front of the next row that begins a line.
proof fn lemma_head_line(lines: Seq<WrapLineView>, line: u32)
    requires
        is_wrapping(lines),
    ensures
        ({
            let g = head_line(lines, line);
            let s = first_row(lines, g);
            &&& begins_row(lines, g)
            &&& s == head_row(lines, first_row(lines, line))
            &&& 0 <= s <= first_row(lines, line) <= last_row(lines, line)
            &&& last_row(lines, line) < next_head(lines, s + 1) <= lines.len()
        }),
{
    let a = first_row(lines, line);
    rows_of_line(lines, line, 0);
    head_row_is_last(lines, a);
    let s = head_row(lines, a);
    let g = lines[s].start.row;
    rows_of_line(lines, g, s);
    next_head_is_first(lines, s + 1);
    let e = next_head(lines, s + 1);
    if e <= last_row(lines, line) {
        rows_of_line(lines, line, e);
    }
}

// Rows further down belong to lines further down.
proof fn lemma_heads_ascend(lines: Seq<WrapLineView>, a: u32, b: u32)
    requires
        is_wrapping(lines),
        a <= b,
    ensures
        head_line(lines, a) <= head_line(lines, b),
{
    lemma_head_line(lines, a);
    lemma_head_line(lines, b);
    let s = head_row(lines, first_row(lines, a));
    let r = head_row(lines, first_row(lines, b));
    rows_of_line(lines, a, s);
    rows_of_line(lines, b, s);
    row_of_is_last_start(lines, Point { row: a, column: 0 });
    row_of_is_last_start(lines, Point { row: b, column: 0 });
    head_row_is_last(lines, first_row(lines, b));
    if r < s {
        assert(lines[s].start.column > 0);
    } else if s < r {
        starts_ascend(lines, s, r);
    }
}

proof fn lemma_lines_ascend(lines: Seq<WrapLineView>, a: u32, b: u32)
    requires
        is_wrapping(lines),
        begins_row(lines, a),
        begins_row(lines, b),
        a < b,
    ensures
        first_row(lines, a) < next_head(lines, first_row(lines, a) + 1) <= first_row(lines, b),
{
    rows_of_line(lines, a, 0);
    rows_of_line(lines, b, 0);
    let x = first_row(lines, a);
    let y = first_row(lines, b);
    if y < x {
        starts_ascend(lines, y, x);
    }
    next_head_is_first(lines, x + 1);
    if y < next_head(lines, x + 1) {
        assert(lines[y].start.column > 0);
    }
}

proof fn lemma_covers_ok(edits: Seq<RowEdit>, touched: Seq<u32>, lines: Seq<WrapLineView>)
    requires
        is_wrapping(lines),
        covers(edits, touched, lines),
    ensures
        line_edits_ok(edits, lines.len() as int, lines),
{
    let rows = lines.len() as int;
    assert forall|i: int| 0 <= i < edits.len() implies #[trigger] edit_ok(edits, i, rows, lines)
        && covers_lines(edits, i, rows, lines) by {
        let line = touched[i];
        rows_of_line(lines, line, 0);
        assert(edits[i] == line_edit(lines, line));
        next_head_is_first(lines, first_row(lines, line) + 1);
        if i > 0 {
            rows_of_line(lines, touched[i - 1], 0);
            assert(edits[i - 1] == line_edit(lines, touched[i - 1]));
            lemma_lines_ascend(lines, touched[i - 1], line);
        }
    }
    assert forall|i: int| 0 <= i < edits.len() implies #[trigger] covers_lines(
        edits,
        i,
        rows,
        lines,
    ) by {
        assert(edit_ok(edits, i, rows, lines));
    }
    if edits.len() > 0 {
        let line = touched[edits.len() - 1];
        rows_of_line(lines, line, 0);
        next_head_is_first(lines, first_row(lines, line) + 1);
        assert(edits[edits.len() - 1] == line_edit(lines, line));
    }
}

// A block of a touched line is not in an unchanged stretch.
proof fn lemma_outside_stretch(
    edits: Seq<RowEdit>,
    touched: Seq<u32>,
    lines: Seq<WrapLineView>,
    b: BlockView,
    i: int,
)
    requires
        is_wrapping(lines),
        covers(edits, touched, lines),
        touched.contains(head_line(lines, b.position.row)),
        0 <= i <= edits.len(),
    ensures
        !(kept_old_start(edits, i, lines.len() as int) <= placement(b, lines).line_row()
            < kept_old_end(edits, i, lines.len() as int)),
{
    let line = head_line(lines, b.position.row);
    lemma_head_line(lines, b.position.row);
    let j = choose|j: int| 0 <= j < touched.len() && touched[j] == line;
    rows_of_line(lines, line, 0);
    assert(edits[j] == line_edit(lines, line));
    if j < i {
        let prev = touched[i - 1];
        rows_of_line(lines, prev, 0);
        next_head_is_first(lines, first_row(lines, prev) + 1);
        assert(edits[i - 1] == line_edit(lines, prev));
        if j < i - 1 {
            assert(touched[j] < touched[i - 1]);
            lemma_lines_ascend(lines, line, prev);
        }
    } else {
        let next = touched[i];
        rows_of_line(lines, next, 0);
        assert(edits[i] == line_edit(lines, next));
        if i < j {
            assert(touched[i] < touched[j]);
            lemma_lines_ascend(lines, next, line);
        }
    }
}

proof fn lemma_covers_account(
    edits: Seq<RowEdit>,
    touched: Seq<u32>,
    lines: Seq<WrapLineView>,
    p: Seq<Placed>,
    before: Seq<BlockView>,
    after: Seq<BlockView>,
)
    requires
        is_wrapping(lines),
        covers(edits, touched, lines),
        blocks_ok(before, lines),
        blocks_ok(after, lines),
        arranged(p, before, lines),
        forall|k: int|
            0 <= k < before.len() ==> after.contains(#[trigger] before[k]) || touched.contains(
                head_line(lines, before[k].position.row),
            ),
        forall|k: int|
            0 <= k < after.len() ==> before.contains(#[trigger] after[k]) || touched.contains(
                head_line(lines, after[k].position.row),
            ),
    ensures
        edits_account(edits, p, lines.len() as int, after, lines),
{
    let rows = lines.len() as int;
    assert forall|i: int| 0 <= i <= edits.len() implies stretch_kept(
        p,
        after,
        lines,
        kept_old_start(edits, i, rows),
        #[trigger] kept_old_end(edits, i, rows),
        kept_new_start(edits, i, rows),
    ) by {
        let a = kept_old_start(edits, i, rows);
        let z = kept_old_end(edits, i, rows);
        if i > 0 {
            assert(edits[i - 1] == line_edit(lines, touched[i - 1]));
        }
        assert(kept_new_start(edits, i, rows) == a);
        assert forall|x: Placed| #[trigger]
            p.contains(x) && a <= x.line_row() < z implies is_placement(
            after,
            lines,
            x.shifted(0),
        ) by {
            assert(x.shifted(0) == x);
            let m = choose|m: int| 0 <= m < p.len() && p[m] == x;
            assert(is_placement(before, lines, p[m]));
            let k = choose|k: int|
                0 <= k < before.len() && placement(#[trigger] before[k], lines) == x;
            assert(showable(before[k], lines));
            if touched.contains(head_line(lines, before[k].position.row)) {
                lemma_outside_stretch(edits, touched, lines, before[k], i);
            }
            let j = choose|j: int| 0 <= j < after.len() && after[j] == before[k];
            assert(placement(after[j], lines) == x);
        }
        assert forall|k: int|
            0 <= k < after.len() && a <= placement(#[trigger] after[k], lines).line_row() < a + (z
                - a) implies p.contains(placement(after[k], lines).shifted(0)) by {
            let y = placement(after[k], lines);
            assert(y.shifted(0) == y);
            assert(showable(after[k], lines));
            if touched.contains(head_line(lines, after[k].position.row)) {
                lemma_outside_stretch(edits, touched, lines, after[k], i);
            }
            let j = choose|j: int| 0 <= j < before.len() && before[j] == after[k];
            assert(p.contains(placement(before[j], lines)));
        }
    }
}

/// The rows that blocks show.
pub open spec fn block_rows(blocks: Seq<BlockView>) -> int
    decreases blocks.len(),
{
    if blocks.len() == 0 {
        0
    } else {
        block_rows(blocks.drop_last()) + crate::block_transforms::lines_of(
            blocks.last().body.text,
        ).len()
    }
}

spec fn placed_rows(p: Seq<Placed>) -> int
    decreases p.len(),
{
    if p.len() == 0 {
        0
    } else {
        placed_rows(p.drop_last()) + crate::block_transforms::lines_of(
            p.last().block.body.text,
        ).len()
    }
}

proof fn lemma_placed_rows(t: Seq<TransformView>)
    ensures
        out_rows(t) == in_rows(t) + placed_rows(placed(t)),
    decreases t.len(),
{
    if t.len() > 0 {
        lemma_placed_rows(t.drop_last());
        match t.last() {
            TransformView::Rows(_) => {},
            TransformView::Block(block) => {
                assert(placed(t).drop_last() =~= placed(t.drop_last()));
            },
        }
    }
}

proof fn lemma_placed_rows_remove(p: Seq<Placed>, i: int)
    requires
        0 <= i < p.len(),
    ensures
        placed_rows(p) == placed_rows(p.remove(i)) + crate::block_transforms::lines_of(
            p[i].block.body.text,
        ).len(),
    decreases p.len(),
{
    if i == p.len() - 1 {
        assert(p.remove(i) =~= p.drop_last());
    } else {
        lemma_placed_rows_remove(p.drop_last(), i);
        assert(p.remove(i).drop_last() =~= p.drop_last().remove(i));
        assert(p.remove(i).last() == p.last());
    }
}

proof fn lemma_arranged_rows(
    p: Seq<Placed>,
    blocks: Seq<BlockView>,
    lines: Seq<WrapLineView>,
)
    requires
        distinct_ids(blocks),
        arranged(p, blocks, lines),
    ensures
        placed_rows(p) == block_rows(blocks),
    decreases blocks.len(),
{
    if blocks.len() == 0 {
        if p.len() > 0 {
            assert(is_placement(blocks, lines, p[0]));
        }
    } else {
        let last = blocks.len() - 1;
        let rest = blocks.drop_last();
        let y = placement(blocks[last], lines);
        assert(p.contains(y));
        let i = choose|i: int| 0 <= i < p.len() && p[i] == y;
        let q = p.remove(i);
        assert(sorted(q)) by {
            assert forall|a: int, b: int| 0 <= a < b < q.len() implies (#[trigger] q[a]).less(
                #[trigger] q[b],
            ) by {
                let x = if a < i { a } else { a + 1 };
                let z = if b < i { b } else { b + 1 };
                assert(p[x].less(p[z]));
            }
        }
        assert forall|a: int| 0 <= a < q.len() implies is_placement(rest, lines, #[trigger] q[a]) by {
            let x = if a < i { a } else { a + 1 };
            assert(is_placement(blocks, lines, p[x]));
            let k = choose|k: int|
                0 <= k < blocks.len() && placement(#[trigger] blocks[k], lines) == p[x];
            if k == last {
                if x < i {
                    assert(p[x].less(p[i]));
                } else {
                    assert(p[i].less(p[x]));
                }
            }
            assert(rest[k] == blocks[k]);
        }
        assert forall|k: int| 0 <= k < rest.len() implies q.contains(
            placement(#[trigger] rest[k], lines),
        ) by {
            let z = placement(blocks[k], lines);
            assert(p.contains(z));
            let x = choose|x: int| 0 <= x < p.len() && p[x] == z;
            assert(blocks[k].id != blocks[last].id);
            assert(x != i);
            let a = if x < i { x } else { x - 1 };
            assert(q[a] == z);
        }
        assert(distinct_ids(rest));
        lemma_arranged_rows(q, rest, lines);
        lemma_placed_rows_remove(p, i);
    }
}

/// Where blocks are arranged, the rows shown are the rows of wrapped text and those of all
/// blocks.
pub proof fn rows_shown(
    t: Seq<TransformView>,
    blocks: Seq<BlockView>,
    lines: Seq<WrapLineView>,
)
    requires
        distinct_ids(blocks),
        arranged(placed(t), blocks, lines),
    ensures
        out_rows(t) == in_rows(t) + block_rows(blocks),
{
    lemma_placed_rows(t);
    lemma_arranged_rows(placed(t), blocks, lines);
}

/// The blocks of a buffer and where they stand among its wrapped rows.
#[derive(Debug)]
pub struct BlockMap {
    next_block_id: usize,
    wrap_snapshot: WrapSnapshot,
    blocks: Vec<Block>,
    transforms: Vec<Transform>,
}

/// What a new block is made of.
#[derive(Debug)]
pub struct BlockProperties {
    pub position: Point,
    pub disposition: BlockDisposition,
    pub body: BlockBody,
}

/// The block that properties make, under an identity.
pub open spec fn made_block(props: BlockProperties, id: int) -> BlockView {
    BlockView {
        id: BlockId(id as usize),
        position: props.position,
        disposition: props.disposition,
        body: props.body@,
    }
}

/// The rows that new blocks show.
pub open spec fn new_rows(props: Seq<BlockProperties>) -> int
    decreases props.len(),
{
    if props.len() == 0 {
        0
    } else {
        new_rows(props.drop_last()) + crate::block_transforms::lines_of(
            props.last().body.text@,
        ).len()
    }
}

/// Whether a block is among those that properties make, from identity `base` on.
pub open spec fn is_made(props: Seq<BlockProperties>, base: int, b: BlockView) -> bool {
    exists|i: int| 0 <= i < props.len() && made_block(#[trigger] props[i], base + i) == b
}

proof fn lemma_block_rows_insert(blocks: Seq<BlockView>, at: int, b: BlockView)
    requires
        0 <= at <= blocks.len(),
    ensures
        block_rows(blocks.insert(at, b)) == block_rows(blocks) + crate::block_transforms::lines_of(
            b.body.text,
        ).len(),
    decreases blocks.len(),
{
    let after = blocks.insert(at, b);
    if at == blocks.len() {
        assert(after.drop_last() =~= blocks);
    } else {
        lemma_block_rows_insert(blocks.drop_last(), at, b);
        assert(after.drop_last() =~= blocks.drop_last().insert(at, b));
        assert(after.last() == blocks.last());
    }
}

impl BlockMap {
    /// The blocks, by position.
    pub closed spec fn blocks(&self) -> Seq<BlockView> {
        block_views(self.blocks@)
    }

    /// The wrapped rows.
    pub closed spec fn lines(&self) -> Seq<WrapLineView> {
        self.wrap_snapshot@
    }

    /// The rows and blocks in the order in which they are shown.
    pub closed spec fn transforms(&self) -> Seq<TransformView> {
        transform_views(self.transforms@)
    }

    /// The identity that the next block gets.
    pub closed spec fn next_id(&self) -> int {
        self.next_block_id as int
    }

    /// Whether every block stands in its place and all rows can be counted.
    pub closed spec fn wf(&self) -> bool {
        &&& is_wrapping(self.wrap_snapshot@)
        &&& blocks_ok(block_views(self.blocks@), self.wrap_snapshot@)
        &&& forall|i: int|
            0 <= i < self.blocks@.len() ==> (#[trigger] self.blocks@[i]).id.0 < self.next_block_id
        &&& all_wf(self.transforms@)
        &&& in_rows(transform_views(self.transforms@)) == self.wrap_snapshot@.len()
        &&& arranged(
            placed(transform_views(self.transforms@)),
            block_views(self.blocks@),
            self.wrap_snapshot@,
        )
        &&& self.wrap_snapshot@.len() + block_rows(block_views(self.blocks@)) <= u32::MAX
    }

    /// In a well-formed map every block stands in its place, and what is shown are the wrapped
    /// rows and the blocks.
    pub proof fn wf_arranges(&self)
        requires
            self.wf(),
        ensures
            is_wrapping(self.lines()),
            blocks_ok(self.blocks(), self.lines()),
            arranged(placed(self.transforms()), self.blocks(), self.lines()),
            all_fit(self.transforms()),
            in_rows(self.transforms()) == self.lines().len(),
            out_rows(self.transforms()) == self.lines().len() + block_rows(self.blocks()),
            out_rows(self.transforms()) <= u32::MAX,
    {
        views_fit(self.transforms@);
        rows_shown(self.transforms(), self.blocks(), self.lines());
    }

    /// Copies of the wrapped rows and of the transforms.
    pub fn copy_parts(&self) -> (r: (WrapSnapshot, Vec<Transform>))
        requires
            self.wf(),
        ensures
            r.0@ == self.lines(),
            all_wf(r.1@),
            transform_views(r.1@) == self.transforms(),
    {
        let mut transforms: Vec<Transform> = Vec::new();
        assert(transform_views(transforms@) =~= Seq::empty());
        copy_range(&mut transforms, &self.transforms, 0, self.transforms.len());
        assert(transform_views(transforms@) =~= self.transforms());
        (self.wrap_snapshot.clone(), transforms)
    }

    /// A map without blocks.
    pub fn new(wrap_snapshot: WrapSnapshot) -> (r: BlockMap)
        ensures
            r.wf(),
            r.blocks() == Seq::<BlockView>::empty(),
            r.lines() == wrap_snapshot@,
            r.next_id() == 0,
    {
        let rows: u32 = wrap_snapshot.row_count();
        let mut transforms: Vec<Transform> = Vec::new();
        assert(transform_views(transforms@) =~= Seq::empty());
        push_transform(&mut transforms, Transform::isomorphic(rows));
        let r = BlockMap { next_block_id: 0, wrap_snapshot, blocks: Vec::new(), transforms };
        assert(r.blocks() =~= Seq::empty());
        r
    }

    /// Adds blocks and answers their identities.
    pub fn insert(&mut self, blocks: Vec<BlockProperties>) -> (ids: Vec<BlockId>)
        requires
            old(self).wf(),
            forall|i: int|
                0 <= i < blocks@.len() ==> showable(
                    made_block(#[trigger] blocks@[i], 0),
                    old(self).lines(),
                ),
            old(self).next_id() + blocks@.len() <= usize::MAX,
            old(self).lines().len() + block_rows(old(self).blocks()) + new_rows(blocks@)
                <= u32::MAX,
        ensures
            final(self).wf(),
            final(self).lines() == old(self).lines(),
            final(self).next_id() == old(self).next_id() + blocks@.len(),
            ids@ == Seq::new(
                blocks@.len(),
                |i: int| BlockId((old(self).next_id() + i) as usize),
            ),
            final(self).blocks().len() == old(self).blocks().len() + blocks@.len(),
            forall|b: BlockView| #[trigger]
                final(self).blocks().contains(b) <==> old(self).blocks().contains(b) || is_made(
                    blocks@,
                    old(self).next_id(),
                    b,
                ),
            without(final(self).blocks(), ids@) == old(self).blocks(),
    {
        let ghost base = self.next_id();
        let ghost lines = self.lines();
        let ghost before = self.blocks();
        let ghost props = blocks@;
        let mut ids: Vec<BlockId> = Vec::new();
        let mut edits: Vec<RowEdit> = Vec::new();
        let ghost mut touched: Seq<u32> = Seq::empty();
        let mut i: usize = 0;
        proof {
            assert(props.take(0) =~= Seq::empty());
            lemma_without_nothing(before);
            assert forall|b: BlockView| #[trigger] self.blocks().contains(b) <==> before.contains(b)
                || is_made(props.take(0), base, b) by {}
        }
        while i < blocks.len()
            invariant
                old(self).wf(),
                base == old(self).next_id(),
                before == old(self).blocks(),
                lines == old(self).lines(),
                props == blocks@,
                is_wrapping(lines),
                self.wrap_snapshot@ == lines,
                self.transforms == old(self).transforms,
                forall|j: int|
                    0 <= j < props.len() ==> showable(made_block(#[trigger] props[j], 0), lines),
                base + props.len() <= usize::MAX,
                i <= props.len(),
                self.next_block_id == base + i,
                ids@ == Seq::new(i as nat, |j: int| BlockId((base + j) as usize)),
                self.blocks().len() == before.len() + i,
                without(self.blocks(), ids@) == before,
                blocks_ok(self.blocks(), lines),
                forall|j: int|
                    0 <= j < self.blocks@.len() ==> (#[trigger] self.blocks@[j]).id.0
                        < self.next_block_id,
                forall|b: BlockView| #[trigger]
                    self.blocks().contains(b) <==> before.contains(b) || is_made(
                        props.take(i as int),
                        base,
                        b,
                    ),
                block_rows(self.blocks()) == block_rows(before) + new_rows(props.take(i as int)),
                covers(edits@, touched, lines),
                forall|j: int|
                    0 <= j < i ==> touched.contains(
                        head_line(lines, (#[trigger] props[j]).position.row),
                    ),
            decreases blocks.len() - i,
        {
            let id = BlockId(self.next_block_id);
            self.next_block_id = self.next_block_id + 1;
            let ghost ids_before = ids@;
            ids.push(id);
            let properties: &BlockProperties = &blocks[i];
            let position: Point = properties.position;
            let block = Block {
                id,
                position,
                disposition: properties.disposition,
                body: properties.body.clone(),
            };
            let ghost made = block@;
            assert(showable(made_block(props[i as int], 0), lines));
            assert(made == made_block(props[i as int], base + i));
            let ghost listed = self.blocks();
            let at: usize = first_at_or_after(&self.blocks, 0, position);
            self.blocks.insert(at, block);
            proof {
                assert forall|j: int| 0 <= j < listed.len() implies (#[trigger] listed[j]).id
                    != id by {
                    let old_id = if j < at {
                        self.blocks@[j].id
                    } else {
                        self.blocks@[j + 1].id
                    };
                    assert(listed[j].id == old_id);
                }
                lemma_without_other(listed, ids_before, id);
                assert(ids@[i as int] == id);
                lemma_without_inserted(listed, at as int, made, ids@);
                lemma_insert_block(listed, at as int, made, lines);
                assert(self.blocks() =~= listed.insert(at as int, made));
                assert(without(self.blocks(), ids@) == before);
                lemma_block_rows_insert(listed, at as int, made);
                assert(props.take(i + 1).drop_last() =~= props.take(i as int));
                assert(props.take(i + 1).last() == props[i as int]);
                assert forall|b: BlockView| #[trigger] self.blocks().contains(b)
                    <==> before.contains(b) || is_made(props.take(i + 1), base, b) by {
                    lemma_contains_insert(listed, at as int, made, b);
                    lemma_is_made(props, base, i as int, b);
                }
                assert forall|j: int| 0 <= j < self.blocks@.len() implies (
                #[trigger] self.blocks@[j]).id.0 < self.next_block_id by {
                    assert(self.blocks()[j] == self.blocks@[j]@);
                    if j < at {
                        assert(listed[j] == self.blocks@[j]@);
                    } else if j > at {
                        assert(listed[j - 1] == self.blocks@[j]@);
                    }
                }
            }
            let edit: RowEdit = edit_of_line(&self.wrap_snapshot, position.row);
            let ghost head = head_line(lines, position.row);
            proof {
                lemma_head_line(lines, position.row);
            }
            let ghost touched_before = touched;
            let spot: Option<usize> = add_edit(&mut edits, edit, Ghost(touched), Ghost(lines), Ghost(head));
            proof {
                match spot {
                    Some(x) => {
                        touched = touched.insert(x as int, head);
                        assert(touched[x as int] == head);
                    },
                    None => {},
                }
                assert forall|j: int| 0 <= j < i + 1 implies touched.contains(
                    head_line(lines, (#[trigger] props[j]).position.row),
                ) by {
                    if j < i {
                        let line = head_line(lines, props[j].position.row);
                        assert(touched_before.contains(line));
                        match spot {
                            Some(x) => {
                                let y = choose|y: int|
                                    0 <= y < touched_before.len() && touched_before[y] == line;
                                let z = if y < x { y } else { y + 1 };
                                assert(touched[z] == line);
                            },
                            None => {},
                        }
                    }
                }
            }
            i += 1;
        }
        proof {
            assert(props.take(i as int) =~= props);
            arranged_places_ok(placed(old(self).transforms()), before, lines);
            lemma_covers_ok(edits@, touched, lines);
            assert forall|k: int| 0 <= k < before.len() implies self.blocks().contains(
                #[trigger] before[k],
            ) by {
                assert(before.contains(before[k]));
            }
            assert forall|k: int| 0 <= k < self.blocks().len() implies before.contains(
                #[trigger] self.blocks()[k],
            ) || touched.contains(head_line(lines, self.blocks()[k].position.row)) by {
                let b = self.blocks()[k];
                assert(self.blocks().contains(b));
                if !before.contains(b) {
                    assert(is_made(props, base, b));
                    let j = choose|j: int|
                        0 <= j < props.len() && made_block(#[trigger] props[j], base + j) == b;
                    assert(touched.contains(head_line(lines, props[j].position.row)));
                }
            }
            lemma_covers_account(
                edits@,
                touched,
                lines,
                placed(old(self).transforms()),
                before,
                self.blocks(),
            );
        }
        let transforms: Vec<Transform> = sync(
            &self.transforms,
            &self.blocks,
            &self.wrap_snapshot,
            &edits,
        );
        self.transforms = transforms;
        ids
    }
}

proof fn lemma_insert_block(
    blocks: Seq<BlockView>,
    at: int,
    b: BlockView,
    lines: Seq<WrapLineView>,
)
    requires
        blocks_ok(blocks, lines),
        0 <= at <= blocks.len(),
        showable(b, lines),
        forall|k: int| 0 <= k < at ==> (#[trigger] blocks[k]).position.precedes(b.position),
        forall|k: int| at <= k < blocks.len() ==> !(#[trigger] blocks[k]).position.precedes(b.position),
        forall|k: int| 0 <= k < blocks.len() ==> (#[trigger] blocks[k]).id != b.id,
    ensures
        blocks_ok(blocks.insert(at, b), lines),
{
    let after = blocks.insert(at, b);
    assert forall|i: int, j: int| 0 <= i < j < after.len() implies (
    #[trigger] after[i]).position.at_most((#[trigger] after[j]).position) && after[i].id
        != after[j].id by {
        if i == at {
            assert(after[j] == blocks[j - 1]);
        } else if j == at {
            assert(after[i] == blocks[i]);
        } else {
            let x = if i < at { i } else { i - 1 };
            let y = if j < at { j } else { j - 1 };
            assert(after[i] == blocks[x]);
            assert(after[j] == blocks[y]);
            assert(blocks[x].position.at_most(blocks[y].position));
            assert(blocks[x].id != blocks[y].id);
        }
    }
    assert forall|i: int| 0 <= i < after.len() implies showable(#[trigger] after[i], lines) by {
        if i < at {
            assert(after[i] == blocks[i]);
        } else if i > at {
            assert(after[i] == blocks[i - 1]);
        }
    }
}

proof fn lemma_contains_insert(blocks: Seq<BlockView>, at: int, x: BlockView, b: BlockView)
    requires
        0 <= at <= blocks.len(),
    ensures
        blocks.insert(at, x).contains(b) == (blocks.contains(b) || b == x),
{
    let after = blocks.insert(at, x);
    if blocks.contains(b) {
        let i = choose|i: int| 0 <= i < blocks.len() && blocks[i] == b;
        let j = if i < at { i } else { i + 1 };
        assert(after[j] == b);
    }
    if b == x {
        assert(after[at] == b);
    }
    if after.contains(b) && b != x {
        let j = choose|j: int| 0 <= j < after.len() && after[j] == b;
        let i = if j < at { j } else { j - 1 };
        assert(blocks[i] == b);
    }
}

proof fn lemma_is_made(props: Seq<BlockProperties>, base: int, n: int, b: BlockView)
    requires
        0 <= n < props.len(),
    ensures
        is_made(props.take(n + 1), base, b) == (is_made(props.take(n), base, b) || b == made_block(
            props[n],
            base + n,
        )),
{
    let long = props.take(n + 1);
    let short = props.take(n);
    if is_made(short, base, b) {
        let i = choose|i: int|
            0 <= i < short.len() && made_block(#[trigger] short[i], base + i) == b;
        assert(made_block(long[i], base + i) == b);
    }
    if b == made_block(props[n], base + n) {
        assert(made_block(long[n], base + n) == b);
    }
    if is_made(long, base, b) {
        let i = choose|i: int| 0 <= i < long.len() && made_block(#[trigger] long[i], base + i) == b;
        if i < n {
            assert(made_block(short[i], base + i) == b);
        }
    }
}

/// The edit that covers the rows of a line, with those of the lines that are joined to it.
fn edit_of_line(snap: &WrapSnapshot, line: u32) -> (r: RowEdit)
    requires
        is_wrapping(snap@),
    ensures
        r == line_edit(snap@, head_line(snap@, line)),
{
    let row: u32 = snap.row_of(Point { row: line, column: 0 });
    proof {
        lemma_head_line(snap@, line);
    }
    let start_row: u32 = line_start_row(snap, row);
    let end_row: u32 = next_line_row(snap, start_row + 1);
    RowEdit { old_start: start_row, old_end: end_row, new_start: start_row, new_end: end_row }
}

/// Puts an edit of a line among the others, unless the line is covered already; answers where.
fn add_edit(
    edits: &mut Vec<RowEdit>,
    edit: RowEdit,
    Ghost(touched): Ghost<Seq<u32>>,
    Ghost(lines): Ghost<Seq<WrapLineView>>,
    Ghost(line): Ghost<u32>,
) -> (r: Option<usize>)
    requires
        is_wrapping(lines),
        begins_row(lines, line),
        covers(old(edits)@, touched, lines),
        edit == line_edit(lines, line),
    ensures
        match r {
            Some(at) => at <= touched.len() && covers(
                final(edits)@,
                touched.insert(at as int, line),
                lines,
            ),
            None => final(edits)@ == old(edits)@ && touched.contains(line),
        },
{
    let ghost before = edits@;
    let mut at: usize = 0;
    proof {
        rows_of_line(lines, line, 0);
    }
    while at < edits.len() && edits[at].old_start < edit.old_start
        invariant
            is_wrapping(lines),
            begins_row(lines, line),
            first_row(lines, line) < u32::MAX,
            covers(before, touched, lines),
            edits@ == before,
            edit == line_edit(lines, line),
            at <= before.len(),
            forall|k: int| 0 <= k < at ==> (#[trigger] touched[k]) < line,
        decreases edits.len() - at,
    {
        proof {
            let other = touched[at as int];
            assert(before[at as int] == line_edit(lines, other));
            rows_of_line(lines, other, 0);
            rows_of_line(lines, line, 0);
            if other > line {
                lemma_lines_ascend(lines, line, other);
            }
        }
        at += 1;
    }
    if at < edits.len() {
        proof {
            let other = touched[at as int];
            assert(before[at as int] == line_edit(lines, other));
            rows_of_line(lines, other, 0);
            if other < line {
                lemma_lines_ascend(lines, other, line);
            }
            if other > line {
                lemma_lines_ascend(lines, line, other);
            }
        }
        if edits[at].old_start == edit.old_start {
            assert(touched[at as int] == line);
            return None;
        }
        assert(touched[at as int] > line);
    }
    edits.insert(at, edit);
    proof {
        let after = touched.insert(at as int, line);
        assert forall|i: int| 0 <= i < after.len() implies begins_row(
            lines,
            #[trigger] after[i],
        ) by {
            if i < at {
                assert(after[i] == touched[i]);
            } else if i > at {
                assert(after[i] == touched[i - 1]);
            }
        }
        assert forall|i: int| 0 <= i < edits@.len() implies #[trigger] edits@[i] == line_edit(
            lines,
            after[i],
        ) by {
            if i < at {
                assert(edits@[i] == before[i]);
            } else if i > at {
                assert(edits@[i] == before[i - 1]);
            }
        }
        assert forall|i: int, j: int| 0 <= i < j < after.len() implies #[trigger] after[i]
            < #[trigger] after[j] by {
            if i == at {
                assert(after[j] == touched[j - 1]);
                if j - 1 > at {
                    assert(touched[at as int] < touched[j - 1]);
                }
            } else if j == at {
                assert(after[i] == touched[i]);
            } else {
                let x = if i < at { i } else { i - 1 };
                let y = if j < at { j } else { j - 1 };
                assert(touched[x] < touched[y]);
            }
        }
    }
    Some(at)
}

/// The blocks whose identity is not among the given ones.
pub open spec fn without(blocks: Seq<BlockView>, ids: Seq<BlockId>) -> Seq<BlockView>
    decreases blocks.len(),
{
    if blocks.len() == 0 {
        Seq::empty()
    } else if ids.contains(blocks.last().id) {
        without(blocks.drop_last(), ids)
    } else {
        without(blocks.drop_last(), ids).push(blocks.last())
    }
}

proof fn lemma_without_nothing(blocks: Seq<BlockView>)
    ensures
        without(blocks, Seq::empty()) == blocks,
    decreases blocks.len(),
{
    if blocks.len() > 0 {
        lemma_without_nothing(blocks.drop_last());
        assert(blocks.drop_last().push(blocks.last()) =~= blocks);
    } else {
        assert(blocks =~= Seq::empty());
    }
}

proof fn lemma_without_other(blocks: Seq<BlockView>, ids: Seq<BlockId>, id: BlockId)
    requires
        forall|j: int| 0 <= j < blocks.len() ==> (#[trigger] blocks[j]).id != id,
    ensures
        without(blocks, ids.push(id)) == without(blocks, ids),
    decreases blocks.len(),
{
    if blocks.len() > 0 {
        let last = blocks[blocks.len() - 1];
        assert forall|j: int| 0 <= j < blocks.drop_last().len() implies (
        #[trigger] blocks.drop_last()[j]).id != id by {
            assert(blocks.drop_last()[j] == blocks[j]);
        }
        lemma_without_other(blocks.drop_last(), ids, id);
        if ids.contains(last.id) {
            let k = choose|k: int| 0 <= k < ids.len() && ids[k] == last.id;
            assert(ids.push(id)[k] == last.id);
        }
        if ids.push(id).contains(last.id) {
            let k = choose|k: int| 0 <= k < ids.push(id).len() && ids.push(id)[k] == last.id;
            assert(ids[k] == last.id);
        }
    }
}

proof fn lemma_without_inserted(blocks: Seq<BlockView>, at: int, b: BlockView, ids: Seq<BlockId>)
    requires
        0 <= at <= blocks.len(),
        ids.contains(b.id),
    ensures
        without(blocks.insert(at, b), ids) == without(blocks, ids),
    decreases blocks.len(),
{
    let after = blocks.insert(at, b);
    if at == blocks.len() {
        assert(after.drop_last() =~= blocks);
    } else {
        lemma_without_inserted(blocks.drop_last(), at, b, ids);
        assert(after.drop_last() =~= blocks.drop_last().insert(at, b));
        assert(after.last() == blocks.last());
    }
}

proof fn lemma_without(blocks: Seq<BlockView>, ids: Seq<BlockId>)
    ensures
        forall|b: BlockView| #[trigger]
            without(blocks, ids).contains(b) <==> blocks.contains(b) && !ids.contains(b.id),
        block_rows(without(blocks, ids)) <= block_rows(blocks),
        by_position(blocks) ==> by_position(without(blocks, ids)),
        distinct_ids(blocks) ==> distinct_ids(without(blocks, ids)),
    decreases blocks.len(),
{
    if blocks.len() > 0 {
        let rest = blocks.drop_last();
        let last = blocks.last();
        let kept = without(rest, ids);
        lemma_without(rest, ids);
        let all = without(blocks, ids);
        if !ids.contains(last.id) {
            assert(all.drop_last() =~= kept);
        }
        assert forall|b: BlockView| #[trigger] all.contains(b) <==> blocks.contains(b)
            && !ids.contains(b.id) by {
            assert(blocks.contains(b) == (rest.contains(b) || b == last)) by {
                if rest.contains(b) {
                    let i = choose|i: int| 0 <= i < rest.len() && rest[i] == b;
                    assert(blocks[i] == b);
                }
                if b == last {
                    assert(blocks[blocks.len() - 1] == b);
                }
                if blocks.contains(b) && b != last {
                    let i = choose|i: int| 0 <= i < blocks.len() && blocks[i] == b;
                    assert(rest[i] == b);
                }
            }
            if !ids.contains(last.id) {
                if kept.contains(b) {
                    let i = choose|i: int| 0 <= i < kept.len() && kept[i] == b;
                    assert(all[i] == b);
                }
                if b == last {
                    assert(all[kept.len() as int] == b);
                }
                if all.contains(b) && b != last {
                    let i = choose|i: int| 0 <= i < all.len() && all[i] == b;
                    assert(kept[i] == b);
                }
            }
        }
        if by_position(blocks) {
            assert(by_position(rest));
            assert forall|i: int, j: int| 0 <= i < j < all.len() implies (
            #[trigger] all[i]).position.at_most((#[trigger] all[j]).position) by {
                if j == kept.len() {
                    assert(kept.contains(kept[i]));
                    let k = choose|k: int| 0 <= k < rest.len() && rest[k] == kept[i];
                    assert(blocks[k].position.at_most(blocks[blocks.len() - 1].position));
                } else {
                    assert(kept[i].position.at_most(kept[j].position));
                }
            }
        }
        if distinct_ids(blocks) {
            assert(distinct_ids(rest));
            assert forall|i: int, j: int| 0 <= i < j < all.len() implies (#[trigger] all[i]).id != (
            #[trigger] all[j]).id by {
                if j == kept.len() {
                    assert(kept.contains(kept[i]));
                    let k = choose|k: int| 0 <= k < rest.len() && rest[k] == kept[i];
                    assert(blocks[k].id != blocks[blocks.len() - 1].id);
                } else {
                    assert(kept[i].id != kept[j].id);
                }
            }
        }
    }
}

impl Clone for Block {
    fn clone(&self) -> (r: Self)
        ensures
            r@ == self@,
    {
        Block {
            id: self.id,
            position: self.position,
            disposition: self.disposition,
            body: self.body.clone(),
        }
    }
}

fn holds_id(ids: &Vec<BlockId>, id: BlockId) -> (r: bool)
    ensures
        r == ids@.contains(id),
{
    let mut i: usize = 0;
    while i < ids.len()
        invariant
            i <= ids@.len(),
            forall|j: int| 0 <= j < i ==> ids@[j] != id,
        decreases ids.len() - i,
    {
        if ids[i] == id {
            return true;
        }
        i += 1;
    }
    false
}

impl BlockMap {
    /// Takes blocks out.
    pub fn remove(&mut self, block_ids: &Vec<BlockId>)
        requires
            old(self).wf(),
        ensures
            final(self).wf(),
            final(self).lines() == old(self).lines(),
            final(self).next_id() == old(self).next_id(),
            final(self).blocks() == without(old(self).blocks(), block_ids@),
    {
        let ghost lines = self.lines();
        let ghost before = self.blocks();
        let ghost ids = block_ids@;
        let mut kept: Vec<Block> = Vec::new();
        let mut edits: Vec<RowEdit> = Vec::new();
        let ghost mut touched: Seq<u32> = Seq::empty();
        let mut last_edit: Option<RowEdit> = None;
        let mut i: usize = 0;
        assert(block_views(kept@) =~= without(before.take(0), ids));
        while i < self.blocks.len()
            invariant
                *self == *old(self),
                old(self).wf(),
                lines == self.lines(),
                before == self.blocks(),
                ids == block_ids@,
                i <= before.len(),
                block_views(kept@) == without(before.take(i as int), ids),
                forall|j: int|
                    0 <= j < kept@.len() ==> (#[trigger] kept@[j]).id.0 < self.next_block_id,
                covers(edits@, touched, lines),
                match last_edit {
                    Some(edit) => touched.len() > 0 && edit == edits@.last() && exists|k: int|
                        0 <= k < i && head_line(lines, (#[trigger] before[k]).position.row)
                            == touched.last(),
                    None => touched.len() == 0,
                },
                forall|j: int|
                    0 <= j < i && ids.contains((#[trigger] before[j]).id) ==> touched.contains(
                        head_line(lines, before[j].position.row),
                    ),
            decreases self.blocks.len() - i,
        {
            let block: &Block = &self.blocks[i];
            assert(before[i as int] == block@);
            assert(showable(before[i as int], lines));
            proof {
                assert(before.take(i + 1).drop_last() =~= before.take(i as int));
                assert(before.take(i + 1).last() == block@);
            }
            let ghost touched_before = touched;
            if holds_id(block_ids, block.id) {
                let edit: RowEdit = edit_of_line(&self.wrap_snapshot, block.position.row);
                let seen: bool = match last_edit {
                    Some(last) => last.old_start == edit.old_start,
                    None => false,
                };
                let ghost head = head_line(lines, block.position.row);
                proof {
                    lemma_head_line(lines, block.position.row);
                    rows_of_line(lines, head, 0);
                    match last_edit {
                        Some(_) => {
                            let last = touched.last();
                            let k = choose|k: int|
                                0 <= k < i && head_line(lines, (#[trigger] before[k]).position.row)
                                    == last;
                            assert(before[k].position.at_most(before[i as int].position));
                            lemma_heads_ascend(
                                lines,
                                before[k].position.row,
                                block.position.row,
                            );
                            assert(begins_row(lines, touched[touched.len() - 1]));
                            assert(edits@[edits@.len() - 1] == line_edit(
                                lines,
                                touched[touched.len() - 1],
                            ));
                            rows_of_line(lines, last, 0);
                            if last < head {
                                lemma_lines_ascend(lines, last, head);
                            }
                            assert(seen == (last == head));
                        },
                        None => {},
                    }
                }
                if !seen {
                    proof {
                        touched = touched.push(head);
                    }
                    last_edit = Some(edit);
                    edits.push(edit);
                    proof {
                        assert forall|x: int, y: int| 0 <= x < y < touched.len() implies
                            #[trigger] touched[x] < #[trigger] touched[y] by {
                            if y == touched.len() - 1 {
                                if x < touched_before.len() - 1 {
                                    assert(touched_before[x] < touched_before[touched_before.len()
                                        - 1]);
                                }
                            } else {
                                assert(touched_before[x] < touched_before[y]);
                            }
                        }
                        assert forall|j: int|
                            0 <= j < i && ids.contains((#[trigger] before[j]).id) implies
                            touched.contains(head_line(lines, before[j].position.row)) by {
                            let line = head_line(lines, before[j].position.row);
                            let y = choose|y: int|
                                0 <= y < touched_before.len() && touched_before[y] == line;
                            assert(touched[y] == line);
                        }
                    }
                }
                assert(touched[touched.len() - 1] == head);
                assert(touched.contains(head));
                assert(head_line(lines, before[i as int].position.row) == touched.last());
            } else {
                let copy: Block = block.clone();
                let ghost views = block_views(kept@);
                kept.push(copy);
                assert(block_views(kept@) =~= views.push(block@));
            }
            i += 1;
        }
        proof {
            assert(before.take(i as int) =~= before);
            let after = block_views(kept@);
            lemma_without(before, ids);
            assert(blocks_ok(after, lines)) by {
                assert forall|k: int| 0 <= k < after.len() implies showable(
                    #[trigger] after[k],
                    lines,
                ) by {
                    assert(after.contains(after[k]));
                    let j = choose|j: int| 0 <= j < before.len() && before[j] == after[k];
                    assert(showable(before[j], lines));
                }
            }
            arranged_places_ok(placed(self.transforms()), before, lines);
            lemma_covers_ok(edits@, touched, lines);
            assert forall|k: int| 0 <= k < before.len() implies after.contains(#[trigger] before[k])
                || touched.contains(head_line(lines, before[k].position.row)) by {
                assert(before.contains(before[k]));
            }
            assert forall|k: int| 0 <= k < after.len() implies before.contains(
                #[trigger] after[k],
            ) by {
                assert(after.contains(after[k]));
            }
            lemma_covers_account(
                edits@,
                touched,
                lines,
                placed(self.transforms()),
                before,
                after,
            );
        }
        let transforms: Vec<Transform> = sync(&self.transforms, &kept, &self.wrap_snapshot, &edits);
        self.blocks = kept;
        self.transforms = transforms;
    }

    /// Follows a change of the rows: `positions` are those that the blocks have now, in the order
    /// of the blocks, and the edits tell what became of the rows.
    pub fn write(
        &mut self,
        wrap_snapshot: WrapSnapshot,
        positions: &Vec<Point>,
        edits: &Vec<RowEdit>,
    )
        requires
            old(self).wf(),
            positions@.len() == old(self).blocks().len(),
            blocks_ok(moved(old(self).blocks(), positions@), wrap_snapshot@),
            edits_ok(edits@, old(self).lines().len() as int, wrap_snapshot@),
            edits_account(
                edits@,
                placed(old(self).transforms()),
                old(self).lines().len() as int,
                moved(old(self).blocks(), positions@),
                wrap_snapshot@,
            ),
            wrap_snapshot@.len() + block_rows(old(self).blocks()) <= u32::MAX,
        ensures
            final(self).wf(),
            final(self).lines() == wrap_snapshot@,
            final(self).blocks() == moved(old(self).blocks(), positions@),
            final(self).next_id() == old(self).next_id(),
            edits@.len() == 0 ==> final(self).transforms() == old(self).transforms(),
    {
        let ghost before = self.blocks();
        let ghost target = moved(before, positions@);
        let rows: u32 = wrap_snapshot.row_count();
        let mut blocks: Vec<Block> = Vec::new();
        let mut i: usize = 0;
        while i < self.blocks.len()
            invariant
                *self == *old(self),
                old(self).wf(),
                before == self.blocks(),
                positions@.len() == before.len(),
                target == moved(before, positions@),
                i <= before.len(),
                block_views(blocks@) == target.take(i as int),
                forall|j: int|
                    0 <= j < blocks@.len() ==> (#[trigger] blocks@[j]).id.0 < self.next_block_id,
            decreases self.blocks.len() - i,
        {
            let old_block: &Block = &self.blocks[i];
            assert(before[i as int] == old_block@);
            let block = Block {
                id: old_block.id,
                position: positions[i],
                disposition: old_block.disposition,
                body: old_block.body.clone(),
            };
            let ghost views = block_views(blocks@);
            let ghost added = block@;
            blocks.push(block);
            assert(block_views(blocks@) =~= views.push(added));
            assert(target.take(i + 1) =~= target.take(i as int).push(added));
            i += 1;
        }
        proof {
            assert(target.take(i as int) =~= target);
            arranged_places_ok(placed(self.transforms()), before, self.lines());
            moved_rows(before, positions@);
        }
        let old_rows: u32 = self.wrap_snapshot.row_count();
        let edits: Vec<RowEdit> = whole_lines(
            edits,
            old_rows,
            &wrap_snapshot,
            Ghost(placed(self.transforms())),
            Ghost(target),
        );
        let transforms: Vec<Transform> = sync(&self.transforms, &blocks, &wrap_snapshot, &edits);
        self.transforms = transforms;
        self.blocks = blocks;
        self.wrap_snapshot = wrap_snapshot;
    }
}

/// The blocks at other positions.
pub open spec fn moved(blocks: Seq<BlockView>, positions: Seq<Point>) -> Seq<BlockView> {
    Seq::new(blocks.len(), |i: int| BlockView { position: positions[i], ..blocks[i] })
}

/// Blocks have as many rows at other positions.
pub proof fn moved_rows(blocks: Seq<BlockView>, positions: Seq<Point>)
    ensures
        block_rows(moved(blocks, positions)) == block_rows(blocks),
    decreases blocks.len(),
{
    if blocks.len() > 0 {
        moved_rows(blocks.drop_last(), positions);
        assert(moved(blocks, positions).drop_last() =~= moved(blocks.drop_last(), positions));
    }
}

/// New styles for a block.
#[derive(Debug)]
pub struct Restyle {
    pub id: BlockId,
    pub runs: Vec<(usize, HighlightStyle)>,
    pub style: Option<BlockStyle>,
}

/// The body that a block has after restyling: the first entry for it counts.
pub open spec fn restyled(body: BodyView, id: BlockId, styles: Seq<Restyle>) -> BodyView
    decreases styles.len(),
{
    if styles.len() == 0 {
        body
    } else if styles[0].id == id {
        BodyView { text: body.text, runs: styles[0].runs@, style: styles[0].style }
    } else {
        restyled(body, id, styles.skip(1))
    }
}

proof fn lemma_restyled_text(body: BodyView, id: BlockId, styles: Seq<Restyle>)
    ensures
        restyled(body, id, styles).text == body.text,
    decreases styles.len(),
{
    if styles.len() > 0 && styles[0].id != id {
        lemma_restyled_text(body, id, styles.skip(1));
    }
}

proof fn lemma_restyled_by(body: BodyView, id: BlockId, styles: Seq<Restyle>, k: int)
    requires
        0 <= k < styles.len(),
        styles[k].id == id,
        forall|m: int| 0 <= m < k ==> (#[trigger] styles[m]).id != id,
    ensures
        restyled(body, id, styles).runs == styles[k].runs@,
        restyled(body, id, styles).style == styles[k].style,
    decreases k,
{
    if k > 0 {
        assert(styles[0].id != id);
        let rest = styles.skip(1);
        assert(rest[k - 1] == styles[k]);
        assert forall|m: int| 0 <= m < k - 1 implies (#[trigger] rest[m]).id != id by {
            assert(rest[m] == styles[m + 1]);
        }
        lemma_restyled_by(body, id, rest, k - 1);
    }
}

proof fn lemma_not_restyled(body: BodyView, id: BlockId, styles: Seq<Restyle>)
    requires
        forall|m: int| 0 <= m < styles.len() ==> (#[trigger] styles[m]).id != id,
    ensures
        restyled(body, id, styles) == body,
    decreases styles.len(),
{
    if styles.len() > 0 {
        assert(styles[0].id != id);
        let rest = styles.skip(1);
        assert forall|m: int| 0 <= m < rest.len() implies (#[trigger] rest[m]).id != id by {
            assert(rest[m] == styles[m + 1]);
        }
        lemma_not_restyled(body, id, rest);
    }
}

/// Every entry restyles its block, wherever it stands in the list: the block has the runs and the
/// style of the entry afterwards, and keeps everything else. If several entries name a block, the
/// first of them counts.
pub proof fn every_entry_restyles_its_block(
    blocks: Seq<BlockView>,
    styles: Seq<Restyle>,
    i: int,
    k: int,
)
    requires
        0 <= i < blocks.len(),
        0 <= k < styles.len(),
        styles[k].id == blocks[i].id,
        forall|m: int| 0 <= m < k ==> (#[trigger] styles[m]).id != styles[k].id,
    ensures
        restyled_blocks(blocks, styles).len() == blocks.len(),
        ({
            let after = restyled_blocks(blocks, styles)[i];
            &&& after.body.runs == styles[k].runs@
            &&& after.body.style == styles[k].style
            &&& after.body.text == blocks[i].body.text
            &&& after.id == blocks[i].id
            &&& after.position == blocks[i].position
            &&& after.disposition == blocks[i].disposition
        }),
{
    lemma_restyled_by(blocks[i].body, blocks[i].id, styles, k);
    lemma_restyled_text(blocks[i].body, blocks[i].id, styles);
}

/// A block that no entry names stays as it is.
pub proof fn unnamed_blocks_keep_their_style(
    blocks: Seq<BlockView>,
    styles: Seq<Restyle>,
    i: int,
)
    requires
        0 <= i < blocks.len(),
        forall|m: int| 0 <= m < styles.len() ==> (#[trigger] styles[m]).id != blocks[i].id,
    ensures
        restyled_blocks(blocks, styles).len() == blocks.len(),
        restyled_blocks(blocks, styles)[i] == blocks[i],
{
    lemma_not_restyled(blocks[i].body, blocks[i].id, styles);
}

fn restyled_body(body: &BlockBody, id: BlockId, styles: &Vec<Restyle>) -> (r: BlockBody)
    ensures
        r@ == restyled(body@, id, styles@),
{
    let mut i: usize = 0;
    assert(styles@.skip(0) =~= styles@);
    while i < styles.len()
        invariant
            i <= styles@.len(),
            restyled(body@, id, styles@) == restyled(body@, id, styles@.skip(i as int)),
        decreases styles.len() - i,
    {
        if styles[i].id == id {
            return BlockBody {
                text: body.text.clone(),
                runs: copy_runs(&styles[i].runs),
                style: styles[i].style,
            };
        }
        assert(styles@.skip(i as int).skip(1) =~= styles@.skip(i + 1));
        i += 1;
    }
    body.clone()
}

/// The blocks in their new styles.
pub open spec fn restyled_blocks(blocks: Seq<BlockView>, styles: Seq<Restyle>) -> Seq<BlockView> {
    blocks.map_values(|b: BlockView| BlockView { body: restyled(b.body, b.id, styles), ..b })
}

spec fn restyled_place(p: Placed, styles: Seq<Restyle>) -> Placed {
    Placed {
        row: p.row,
        block: AlignedView { body: restyled(p.block.body, p.block.id, styles), ..p.block },
    }
}

spec fn restyled_transform(t: TransformView, styles: Seq<Restyle>) -> TransformView {
    match t {
        TransformView::Rows(n) => TransformView::Rows(n),
        TransformView::Block(b) => TransformView::Block(
            AlignedView { body: restyled(b.body, b.id, styles), ..b },
        ),
    }
}

proof fn lemma_restyled_transforms(t: Seq<TransformView>, styles: Seq<Restyle>)
    ensures
        ({
            let after = t.map_values(|x: TransformView| restyled_transform(x, styles));
            &&& in_rows(after) == in_rows(t)
            &&& placed(after) == placed(t).map_values(|p: Placed| restyled_place(p, styles))
        }),
    decreases t.len(),
{
    let after = t.map_values(|x: TransformView| restyled_transform(x, styles));
    if t.len() > 0 {
        lemma_restyled_transforms(t.drop_last(), styles);
        assert(after.drop_last() =~= t.drop_last().map_values(
            |x: TransformView| restyled_transform(x, styles),
        ));
        assert(placed(after) =~= placed(t).map_values(|p: Placed| restyled_place(p, styles)));
    } else {
        assert(placed(after) =~= placed(t).map_values(|p: Placed| restyled_place(p, styles)));
    }
}

proof fn lemma_restyled_arranged(
    p: Seq<Placed>,
    blocks: Seq<BlockView>,
    lines: Seq<WrapLineView>,
    styles: Seq<Restyle>,
)
    requires
        blocks_ok(blocks, lines),
        arranged(p, blocks, lines),
    ensures
        blocks_ok(restyled_blocks(blocks, styles), lines),
        arranged(
            p.map_values(|x: Placed| restyled_place(x, styles)),
            restyled_blocks(blocks, styles),
            lines,
        ),
        block_rows(restyled_blocks(blocks, styles)) == block_rows(blocks),
{
    let after = restyled_blocks(blocks, styles);
    let q = p.map_values(|x: Placed| restyled_place(x, styles));
    assert forall|k: int| 0 <= k < after.len() implies showable(#[trigger] after[k], lines) by {
        assert(showable(blocks[k], lines));
        lemma_restyled_text(blocks[k].body, blocks[k].id, styles);
    }
    assert forall|i: int, j: int| 0 <= i < j < after.len() implies (
    #[trigger] after[i]).position.at_most((#[trigger] after[j]).position) && after[i].id
        != after[j].id by {
        assert(blocks[i].position.at_most(blocks[j].position));
        assert(blocks[i].id != blocks[j].id);
    }
    assert forall|i: int, j: int| 0 <= i < j < q.len() implies (#[trigger] q[i]).less(
        #[trigger] q[j],
    ) by {
        assert(p[i].less(p[j]));
    }
    assert forall|i: int| 0 <= i < q.len() implies is_placement(after, lines, #[trigger] q[i]) by {
        assert(is_placement(blocks, lines, p[i]));
        let k = choose|k: int| 0 <= k < blocks.len() && placement(#[trigger] blocks[k], lines) == p[i];
        assert(placement(after[k], lines) == q[i]);
    }
    assert forall|k: int| 0 <= k < after.len() implies q.contains(
        placement(#[trigger] after[k], lines),
    ) by {
        assert(p.contains(placement(blocks[k], lines)));
        let i = choose|i: int| 0 <= i < p.len() && p[i] == placement(blocks[k], lines);
        assert(q[i] == placement(after[k], lines));
    }
    lemma_restyled_rows(blocks, styles);
}

proof fn lemma_restyled_rows(blocks: Seq<BlockView>, styles: Seq<Restyle>)
    ensures
        block_rows(restyled_blocks(blocks, styles)) == block_rows(blocks),
    decreases blocks.len(),
{
    if blocks.len() > 0 {
        lemma_restyled_rows(blocks.drop_last(), styles);
        lemma_restyled_text(blocks.last().body, blocks.last().id, styles);
        assert(restyled_blocks(blocks, styles).drop_last() =~= restyled_blocks(
            blocks.drop_last(),
            styles,
        ));
    }
}

impl BlockMap {
    /// Gives blocks new styles; their places stay the same.
    pub fn restyle(&mut self, styles: &Vec<Restyle>)
        requires
            old(self).wf(),
        ensures
            final(self).wf(),
            final(self).lines() == old(self).lines(),
            final(self).next_id() == old(self).next_id(),
            final(self).blocks() == restyled_blocks(old(self).blocks(), styles@),
    {
        let ghost before = self.blocks();
        let ghost target = restyled_blocks(before, styles@);
        let mut blocks: Vec<Block> = Vec::new();
        let mut i: usize = 0;
        while i < self.blocks.len()
            invariant
                *self == *old(self),
                old(self).wf(),
                before == self.blocks(),
                target == restyled_blocks(before, styles@),
                i <= before.len(),
                block_views(blocks@) == target.take(i as int),
                forall|j: int|
                    0 <= j < blocks@.len() ==> (#[trigger] blocks@[j]).id.0 < self.next_block_id,
            decreases self.blocks.len() - i,
        {
            let old_block: &Block = &self.blocks[i];
            assert(before[i as int] == old_block@);
            let block = Block {
                id: old_block.id,
                position: old_block.position,
                disposition: old_block.disposition,
                body: restyled_body(&old_block.body, old_block.id, styles),
            };
            let ghost views = block_views(blocks@);
            let ghost added = block@;
            blocks.push(block);
            assert(block_views(blocks@) =~= views.push(added));
            assert(target.take(i + 1) =~= target.take(i as int).push(added));
            i += 1;
        }
        assert(target.take(i as int) =~= target);
        let ghost v = self.transforms();
        let ghost wanted = v.map_values(|x: TransformView| restyled_transform(x, styles@));
        let mut transforms: Vec<Transform> = Vec::new();
        let mut j: usize = 0;
        while j < self.transforms.len()
            invariant
                *self == *old(self),
                old(self).wf(),
                v == self.transforms(),
                wanted == v.map_values(|x: TransformView| restyled_transform(x, styles@)),
                j <= v.len(),
                all_wf(transforms@),
                transform_views(transforms@) == wanted.take(j as int),
            decreases self.transforms.len() - j,
        {
            let t: &Transform = &self.transforms[j];
            assert(t.wf());
            assert(v[j as int] == t@);
            let copy: Transform = match &t.block {
                None => t.copied(),
                Some(b) => {
                    proof {
                        lemma_restyled_text(b@.body, b.id, styles@);
                    }
                    Transform::block(
                        AlignedBlock {
                            id: b.id,
                            disposition: b.disposition,
                            column: b.column,
                            body: restyled_body(&b.body, b.id, styles),
                        },
                    )
                },
            };
            push_transform(&mut transforms, copy);
            assert(wanted.take(j + 1) =~= wanted.take(j as int).push(wanted[j as int]));
            j += 1;
        }
        proof {
            assert(wanted.take(j as int) =~= wanted);
            lemma_restyled_transforms(v, styles@);
            lemma_restyled_arranged(placed(v), before, self.lines(), styles@);
        }
        self.blocks = blocks;
        self.transforms = transforms;
    }
}

/// A block above a line stands in front of the row at which the line begins; one below it stands
/// behind the last row of the line. It keeps its number, its side and its body.
pub proof fn blocks_stand_at_their_line(b: BlockView, lines: Seq<WrapLineView>, w: int)
    requires
        is_wrapping(lines),
        0 <= w < lines.len(),
        showable(b, lines),
    ensures
        b.disposition is Above && lines[w].start == (Point { row: b.position.row, column: 0 })
            ==> placement(b, lines).row == w,
        b.disposition is Below && lines[w].start.row == b.position.row && (w + 1 < lines.len()
            ==> lines[w + 1].start.row > b.position.row) ==> placement(b, lines).row == w + 1,
        placement(b, lines).block.id == b.id,
        placement(b, lines).block.disposition == b.disposition,
        placement(b, lines).block.body == b.body,
        placement(b, lines).block.column == column_of(lines, b.position),
{
    column_of_in_row(lines, b.position);
    rows_of_line(lines, b.position.row, w);
    if w + 1 < lines.len() {
        starts_ascend(lines, w, w + 1);
    }
    if lines[w].start.row == b.position.row && (w + 1 < lines.len() ==> lines[w + 1].start.row
        > b.position.row) {
        crate::wrap_rows::row_of_is(lines, Point { row: b.position.row, column: u32::MAX }, w);
    }
}

/// Blocks that are removed are gone, and the others stay as they are.
pub proof fn others_stay(blocks: Seq<BlockView>, ids: Seq<BlockId>, b: BlockView)
    ensures
        without(blocks, ids).contains(b) <==> blocks.contains(b) && !ids.contains(b.id),
        by_position(blocks) ==> by_position(without(blocks, ids)),
        ids.len() == 0 ==> without(blocks, ids) == blocks,
{
    lemma_without(blocks, ids);
    if ids.len() == 0 {
        assert(ids == Seq::<BlockId>::empty());
        lemma_without_nothing(blocks);
    }
}

/// A block that the text moves under keeps all but its place.
pub proof fn moved_blocks_keep_all_but_their_place(
    blocks: Seq<BlockView>,
    positions: Seq<Point>,
    i: int,
)
    requires
        0 <= i < blocks.len(),
        positions.len() == blocks.len(),
    ensures
        moved(blocks, positions).len() == blocks.len(),
        moved(blocks, positions)[i].position == positions[i],
        moved(blocks, positions)[i].id == blocks[i].id,
        moved(blocks, positions)[i].disposition == blocks[i].disposition,
        moved(blocks, positions)[i].body == blocks[i].body,
{
}

/// A block is made as its properties say, under the number it is given.
pub proof fn blocks_are_made_as_asked(props: BlockProperties, id: usize)
    ensures
        made_block(props, id as int).id == BlockId(id),
        made_block(props, id as int).position == props.position,
        made_block(props, id as int).disposition == props.disposition,
        made_block(props, id as int).body == props.body@,
{
}

/// The rows of blocks add up, and a block has a row for each of its lines.
pub proof fn block_rows_add_up(front: Seq<BlockView>, back: Seq<BlockView>, b: BlockView)
    ensures
        block_rows(front + back) == block_rows(front) + block_rows(back),
        block_rows(seq![b]) == crate::block_transforms::lines_of(b.body.text).len(),
    decreases back.len(),
{
    assert(seq![b].drop_last() == Seq::<BlockView>::empty());
    reveal_with_fuel(block_rows, 2);
    if back.len() == 0 {
        assert(front + back == front);
    } else {
        block_rows_add_up(front, back.drop_last(), b);
        assert((front + back).drop_last() == front + back.drop_last());
    }
}

} // verus!
