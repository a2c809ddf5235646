//! Rows of wrapped text interleaved with blocks: the sequence of transforms behind a block map,
//! and what it says about where each block stands.
use vstd::prelude::*;
use crate::wrap_rows::{char_count, count_chars};

verus! {

/// Identifies a block.
#[derive(Clone, Copy, Debug, Default, PartialEq, Eq, PartialOrd, Ord, Hash, Structural)]
pub struct BlockId(pub usize);

/// Whether a block stands above or below the buffer line that it belongs to.
#[derive(Clone, Copy, Debug, PartialEq, Eq, PartialOrd, Ord, Structural)]
pub enum BlockDisposition {
    Above,
    Below,
}

impl BlockDisposition {
    /// Whether the block stands below its line.
    pub fn is_below(&self) -> (r: bool)
        ensures
            r == (*self == BlockDisposition::Below),
    {
        match self {
            BlockDisposition::Above => false,
            BlockDisposition::Below => true,
        }
    }
}

/// A style of text, by number.
#[derive(Clone, Copy, Debug, Default, PartialEq, Eq, Structural)]
pub struct HighlightStyle(pub u32);

/// A style of a block's row, by number.
#[derive(Clone, Copy, Debug, Default, PartialEq, Eq, Structural)]
pub struct BlockStyle(pub u32);

/// What a block shows: text in UTF-8, the styles of successive stretches of it, and a row style.
#[derive(Debug)]
pub struct BlockBody {
    pub text: Vec<u8>,
    pub runs: Vec<(usize, HighlightStyle)>,
    pub style: Option<BlockStyle>,
}

/// The meaning of a block's body.
#[verifier::ext_equal]
pub struct BodyView {
    pub text: Seq<u8>,
    pub runs: Seq<(usize, HighlightStyle)>,
    pub style: Option<BlockStyle>,
}

impl View for BlockBody {
    type V = BodyView;

    open spec fn view(&self) -> BodyView {
        BodyView { text: self.text@, runs: self.runs@, style: self.style }
    }
}

impl Clone for BlockBody {
    fn clone(&self) -> (r: Self)
        ensures
            r@ == self@,
    {
        BlockBody { text: self.text.clone(), runs: copy_runs(&self.runs), style: self.style }
    }
}

/// A copy of the runs of a text.
pub(crate) fn copy_runs(runs: &Vec<(usize, HighlightStyle)>) -> (r: Vec<(usize, HighlightStyle)>)
    ensures
        r@ == runs@,
{
    let mut r: Vec<(usize, HighlightStyle)> = Vec::new();
    let mut i: usize = 0;
    while i < runs.len()
        invariant
            i <= runs@.len(),
            r@ == runs@.take(i as int),
        decreases runs.len() - i,
    {
        let run: (usize, HighlightStyle) = runs[i];
        r.push(run);
        i += 1;
    }
    r
}

/// The lines of a text: its pieces between line feeds.
pub open spec fn lines_of(text: Seq<u8>) -> Seq<Seq<u8>>
    decreases text.len(),
{
    if text.len() == 0 {
        seq![Seq::<u8>::empty()]
    } else {
        let lines = lines_of(text.drop_last());
        if text.last() == 10 {
            lines.push(Seq::<u8>::empty())
        } else {
            lines.drop_last().push(lines.last().push(text.last()))
        }
    }
}

/// A text has at least one line, and no more than one for each byte beyond that.
pub proof fn line_count_bounds(text: Seq<u8>)
    ensures
        1 <= lines_of(text).len() <= text.len() + 1,
    decreases text.len(),
{
    if text.len() > 0 {
        line_count_bounds(text.drop_last());
    }
}

/// Of the lines with the most characters the first, among the first `n`.
pub open spec fn longest_line(lines: Seq<Seq<u8>>, n: int) -> int
    decreases n,
{
    if n <= 1 {
        0
    } else {
        let before = longest_line(lines, n - 1);
        if char_count(lines[n - 1]) > char_count(lines[before]) {
            n - 1
        } else {
            before
        }
    }
}

/// A block in place: `column` is where its text is aligned.
#[derive(Debug)]
pub struct AlignedBlock {
    pub id: BlockId,
    pub disposition: BlockDisposition,
    pub column: u32,
    pub body: BlockBody,
}

/// The meaning of an aligned block.
#[verifier::ext_equal]
pub struct AlignedView {
    pub id: BlockId,
    pub disposition: BlockDisposition,
    pub column: u32,
    pub body: BodyView,
}

impl View for AlignedBlock {
    type V = AlignedView;

    open spec fn view(&self) -> AlignedView {
        AlignedView {
            id: self.id,
            disposition: self.disposition,
            column: self.column,
            body: self.body@,
        }
    }
}

impl Clone for AlignedBlock {
    fn clone(&self) -> (r: Self)
        ensures
            r@ == self@,
    {
        AlignedBlock {
            id: self.id,
            disposition: self.disposition,
            column: self.column,
            body: self.body.clone(),
        }
    }
}

/// What a stretch of transforms adds up to: rows of wrapped text, rows shown, and among the rows
/// of blocks the first longest one with its number of characters.
#[derive(Clone, Copy, Debug, Default, PartialEq, Eq, Structural)]
pub struct TransformSummary {
    pub input_rows: u32,
    pub output_rows: u32,
    pub longest_row_in_block: u32,
    pub longest_row_in_block_chars: u32,
}

impl TransformSummary {
    /// This summary followed by another.
    pub open spec fn plus(self, other: TransformSummary) -> TransformSummary {
        let longer = other.longest_row_in_block_chars > self.longest_row_in_block_chars;
        TransformSummary {
            input_rows: (self.input_rows + other.input_rows) as u32,
            output_rows: (self.output_rows + other.output_rows) as u32,
            longest_row_in_block: if longer {
                (self.output_rows + other.longest_row_in_block) as u32
            } else {
                self.longest_row_in_block
            },
            longest_row_in_block_chars: if longer {
                other.longest_row_in_block_chars
            } else {
                self.longest_row_in_block_chars
            },
        }
    }

    /// Adds what follows.
    pub fn add_summary(&mut self, summary: &TransformSummary)
        requires
            old(self).input_rows + summary.input_rows <= u32::MAX,
            old(self).output_rows + summary.output_rows <= u32::MAX,
            old(self).output_rows + summary.longest_row_in_block <= u32::MAX,
        ensures
            *final(self) == old(self).plus(*summary),
    {
        if summary.longest_row_in_block_chars > self.longest_row_in_block_chars {
            self.longest_row_in_block_chars = summary.longest_row_in_block_chars;
            self.longest_row_in_block = self.output_rows + summary.longest_row_in_block;
        }
        self.input_rows = self.input_rows + summary.input_rows;
        self.output_rows = self.output_rows + summary.output_rows;
    }
}

/// Adding summaries does not depend on how the stretches are grouped.
pub proof fn summaries_group_freely(
    a: TransformSummary,
    b: TransformSummary,
    c: TransformSummary,
)
    requires
        a.input_rows + b.input_rows + c.input_rows <= u32::MAX,
        a.output_rows + b.output_rows + c.output_rows <= u32::MAX,
        b.longest_row_in_block <= b.output_rows,
        c.longest_row_in_block <= c.output_rows,
    ensures
        a.plus(b).plus(c) == a.plus(b.plus(c)),
{
}

/// A stretch of wrapped rows shown as they are, or a block.
#[derive(Debug)]
pub struct Transform {
    pub summary: TransformSummary,
    pub block: Option<AlignedBlock>,
}

/// The meaning of a transform.
pub enum TransformView {
    Rows(int),
    Block(AlignedView),
}

impl TransformView {
    /// The rows of wrapped text that it takes up.
    pub open spec fn input_rows(self) -> int {
        match self {
            TransformView::Rows(n) => n,
            TransformView::Block(_) => 0,
        }
    }

    /// The rows that it shows.
    pub open spec fn output_rows(self) -> int {
        match self {
            TransformView::Rows(n) => n,
            TransformView::Block(b) => lines_of(b.body.text).len() as int,
        }
    }

    /// The summary of the transform.
    pub open spec fn summary(self) -> TransformSummary {
        match self {
            TransformView::Rows(n) => TransformSummary {
                input_rows: n as u32,
                output_rows: n as u32,
                longest_row_in_block: 0,
                longest_row_in_block_chars: 0,
            },
            TransformView::Block(b) => {
                let lines = lines_of(b.body.text);
                let longest = longest_line(lines, lines.len() as int);
                TransformSummary {
                    input_rows: 0,
                    output_rows: lines.len() as u32,
                    longest_row_in_block: longest as u32,
                    longest_row_in_block_chars: (b.column + char_count(lines[longest])) as u32,
                }
            },
        }
    }

    /// Whether the transform can be counted in machine words and, unless it is a block, shows at
    /// least one row.
    pub open spec fn fits(self) -> bool {
        match self {
            TransformView::Rows(n) => 0 < n <= u32::MAX,
            TransformView::Block(b) => b.column + b.body.text.len() < u32::MAX,
        }
    }
}

impl View for Transform {
    type V = TransformView;

    open spec fn view(&self) -> TransformView {
        match self.block {
            None => TransformView::Rows(self.summary.input_rows as int),
            Some(b) => TransformView::Block(b@),
        }
    }
}

impl Transform {
    /// Whether the summary is that of the transform.
    pub open spec fn wf(self) -> bool {
        self@.fits() && self.summary == self@.summary()
    }

    /// A stretch of `rows` rows of wrapped text.
    pub fn isomorphic(rows: u32) -> (r: Transform)
        requires
            rows > 0,
        ensures
            r.wf(),
            r@ == TransformView::Rows(rows as int),
    {
        Transform {
            summary: TransformSummary {
                input_rows: rows,
                output_rows: rows,
                longest_row_in_block: 0,
                longest_row_in_block_chars: 0,
            },
            block: None,
        }
    }

    /// A block.
    pub fn block(block: AlignedBlock) -> (r: Transform)
        requires
            block.column + block.body.text@.len() < u32::MAX,
        ensures
            r.wf(),
            r@ == TransformView::Block(block@),
    {
        let (rows, longest, chars) = measure(&block.body.text);
        Transform {
            summary: TransformSummary {
                input_rows: 0,
                output_rows: rows,
                longest_row_in_block: longest,
                longest_row_in_block_chars: block.column + chars,
            },
            block: Some(block),
        }
    }

    /// Whether the transform shows rows of wrapped text.
    pub fn is_isomorphic(&self) -> (r: bool)
        ensures
            r == (self@ is Rows),
    {
        self.block.is_none()
    }

    /// Whether the transform is a block that stands below its line.
    pub fn is_block_below(&self) -> (r: bool)
        ensures
            r == (self@ matches TransformView::Block(b) && b.disposition == BlockDisposition::Below),
    {
        match &self.block {
            Some(b) => b.disposition.is_below(),
            None => false,
        }
    }

    /// The same transform once more.
    pub fn copied(&self) -> (r: Transform)
        ensures
            r@ == self@,
            self.wf() ==> r.wf(),
    {
        Transform {
            summary: self.summary,
            block: match &self.block {
                Some(b) => Some(b.clone()),
                None => None,
            },
        }
    }
}

/// The first longest line is one of the lines.
pub proof fn longest_line_exists(lines: Seq<Seq<u8>>, n: int)
    requires
        0 < n <= lines.len(),
    ensures
        0 <= longest_line(lines, n) < n,
    decreases n,
{
    if n > 1 {
        longest_line_exists(lines, n - 1);
    }
}

proof fn lemma_longest_line_same(a: Seq<Seq<u8>>, b: Seq<Seq<u8>>, n: int)
    requires
        0 < n <= a.len(),
        n <= b.len(),
        forall|i: int| 0 <= i < n ==> #[trigger] a[i] == b[i],
    ensures
        longest_line(a, n) == longest_line(b, n),
    decreases n,
{
    if n > 1 {
        lemma_longest_line_same(a, b, n - 1);
        longest_line_exists(b, n - 1);
    }
}

/// How the lines of a text grow with the next byte.
pub proof fn lines_of_prefix(text: Seq<u8>, i: int, start: int)
    requires
        0 <= start <= i <= text.len(),
        lines_of(text.take(i)).last() == text.subrange(start, i),
    ensures
        i < text.len() && text[i] == 10 ==> lines_of(text.take(i + 1)) == lines_of(
            text.take(i),
        ).push(Seq::empty()),
        i < text.len() && text[i] != 10 ==> lines_of(text.take(i + 1)) == lines_of(
            text.take(i),
        ).drop_last().push(text.subrange(start, i + 1)),
{
    if i < text.len() {
        assert(text.take(i + 1).drop_last() =~= text.take(i));
        assert(text.subrange(start, i).push(text[i]) =~= text.subrange(start, i + 1));
    }
}

/// The number of lines of a text, its first longest line, and the characters of that line.
fn measure(text: &Vec<u8>) -> (r: (u32, u32, u32))
    requires
        text@.len() < u32::MAX,
    ensures
        r.0 == lines_of(text@).len(),
        r.1 == longest_line(lines_of(text@), lines_of(text@).len() as int),
        r.2 == char_count(lines_of(text@)[r.1 as int]),
        r.2 <= text@.len(),
        r.1 < r.0,
{
    let mut start: usize = 0;
    let mut done: u32 = 0;
    let mut best: u32 = 0;
    let mut best_chars: u32 = 0;
    let mut i: usize = 0;
    proof {
        assert(text@.take(0) =~= Seq::empty());
        assert(text@.subrange(0, 0) =~= Seq::empty());
    }
    while i < text.len()
        invariant
            text@.len() < u32::MAX,
            start <= i <= text.len(),
            done <= i,
            lines_of(text@.take(i as int)).len() == done + 1,
            lines_of(text@.take(i as int)).last() == text@.subrange(start as int, i as int),
            done == 0 ==> best == 0 && best_chars == 0,
            done > 0 ==> {
                &&& best == longest_line(lines_of(text@.take(i as int)), done as int)
                &&& best < done
                &&& best_chars == char_count(lines_of(text@.take(i as int))[best as int])
            },
            best_chars <= text@.len(),
        decreases text.len() - i,
    {
        let ghost lines = lines_of(text@.take(i as int));
        let ghost next = lines_of(text@.take(i + 1));
        proof {
            lines_of_prefix(text@, i as int, start as int);
        }
        if text[i] == 10 {
            let chars: u32 = count_chars(text, start, i) as u32;
            proof {
                lemma_longest_line_same(lines, next, done as int + 1);
                assert(lines[done as int] == text@.subrange(start as int, i as int));
                assert(next[done as int] == lines[done as int]);
                if done > 0 {
                    assert(next[best as int] == lines[best as int]);
                }
            }
            if done == 0 {
                best = 0;
                best_chars = chars;
            } else if chars > best_chars {
                best = done;
                best_chars = chars;
            }
            done += 1;
            start = i + 1;
            assert(text@.subrange(start as int, i + 1) =~= Seq::empty());
        } else {
            proof {
                if done > 0 {
                    lemma_longest_line_same(lines, next, done as int);
                    assert(next[best as int] == lines[best as int]);
                }
            }
        }
        i += 1;
    }
    assert(text@.take(i as int) =~= text@);
    let chars: u32 = count_chars(text, start, i) as u32;
    if done == 0 {
        best = 0;
        best_chars = chars;
    } else if chars > best_chars {
        best = done;
        best_chars = chars;
    }
    (done + 1, best, best_chars)
}

/// The rows of wrapped text that transforms take up.
pub open spec fn in_rows(t: Seq<TransformView>) -> int
    decreases t.len(),
{
    if t.len() == 0 {
        0
    } else {
        in_rows(t.drop_last()) + t.last().input_rows()
    }
}

/// The rows that transforms show.
pub open spec fn out_rows(t: Seq<TransformView>) -> int
    decreases t.len(),
{
    if t.len() == 0 {
        0
    } else {
        out_rows(t.drop_last()) + t.last().output_rows()
    }
}

/// A block and the row of wrapped text that it stands in front of.
pub struct Placed {
    pub row: int,
    pub block: AlignedView,
}

impl Placed {
    /// The row of wrapped text that the block belongs to.
    pub open spec fn line_row(self) -> int {
        if self.block.disposition == BlockDisposition::Below {
            self.row - 1
        } else {
            self.row
        }
    }

    /// Whether this block comes before another: by the row that it belongs to, then those above
    /// it before those below it, then by age.
    pub open spec fn less(self, other: Placed) -> bool {
        ||| self.line_row() < other.line_row()
        ||| self.line_row() == other.line_row() && (if self.block.disposition
            == other.block.disposition {
            self.block.id.0 < other.block.id.0
        } else {
            self.block.disposition == BlockDisposition::Above
        })
    }

    /// The same block `d` rows further down.
    pub open spec fn shifted(self, d: int) -> Placed {
        Placed { row: self.row + d, block: self.block }
    }
}

/// The blocks among transforms, each with the row that it stands in front of.
pub open spec fn placed(t: Seq<TransformView>) -> Seq<Placed>
    decreases t.len(),
{
    if t.len() == 0 {
        Seq::empty()
    } else {
        let before = placed(t.drop_last());
        match t.last() {
            TransformView::Rows(_) => before,
            TransformView::Block(block) => before.push(
                Placed { row: in_rows(t.drop_last()), block },
            ),
        }
    }
}

/// All blocks `d` rows further down.
pub open spec fn shifted(p: Seq<Placed>, d: int) -> Seq<Placed> {
    p.map_values(|x: Placed| x.shifted(d))
}

/// Whether blocks stand in order, no two in the same place.
pub open spec fn sorted(p: Seq<Placed>) -> bool {
    forall|i: int, j: int| 0 <= i < j < p.len() ==> (#[trigger] p[i]).less(#[trigger] p[j])
}

/// What the transforms mean.
pub open spec fn transform_views(t: Seq<Transform>) -> Seq<TransformView> {
    t.map_values(|x: Transform| x@)
}

/// Whether all summaries are right.
pub open spec fn all_wf(t: Seq<Transform>) -> bool {
    forall|i: int| 0 <= i < t.len() ==> (#[trigger] t[i]).wf()
}

/// Whether every transform can be counted.
pub open spec fn all_fit(t: Seq<TransformView>) -> bool {
    forall|i: int| 0 <= i < t.len() ==> (#[trigger] t[i]).fits()
}

/// Transforms one after the other: rows add up, and the blocks of the second stretch move down
/// by the rows of the first.
pub proof fn placed_in_sequence(a: Seq<TransformView>, b: Seq<TransformView>)
    ensures
        in_rows(a + b) == in_rows(a) + in_rows(b),
        out_rows(a + b) == out_rows(a) + out_rows(b),
        placed(a + b) == placed(a) + shifted(placed(b), in_rows(a)),
    decreases b.len(),
{
    if b.len() == 0 {
        assert(a + b =~= a);
        assert(placed(a) + shifted(placed(b), in_rows(a)) =~= placed(a));
    } else {
        placed_in_sequence(a, b.drop_last());
        assert((a + b).drop_last() =~= a + b.drop_last());
        assert((a + b).last() == b.last());
        match b.last() {
            TransformView::Rows(_) => {},
            TransformView::Block(block) => {
                let d = in_rows(a);
                let x = Placed { row: in_rows(b.drop_last()), block };
                assert(shifted(placed(b), d) =~= shifted(placed(b.drop_last()), d).push(
                    x.shifted(d),
                ));
                assert(placed(a + b) =~= placed(a) + shifted(placed(b), d));
            },
        }
    }
}

/// Rows are never counted below zero.
pub proof fn rows_are_counted(t: Seq<TransformView>)
    requires
        all_fit(t),
    ensures
        0 <= in_rows(t) <= out_rows(t),
    decreases t.len(),
{
    if t.len() > 0 {
        assert(t.last().fits());
        rows_are_counted(t.drop_last());
    }
}

/// Each block stands within the rows of the transforms.
pub proof fn placed_within(t: Seq<TransformView>)
    requires
        all_fit(t),
    ensures
        forall|i: int| 0 <= i < placed(t).len() ==> 0 <= (#[trigger] placed(t)[i]).row <= in_rows(t),
    decreases t.len(),
{
    if t.len() > 0 {
        assert(t.last().fits());
        rows_are_counted(t.drop_last());
        placed_within(t.drop_last());
    }
}

/// The blocks of the first `n` transforms come first, and stand no lower than the rows of those
/// transforms; the others stand no higher.
pub proof fn placed_split(t: Seq<TransformView>, n: int)
    requires
        all_fit(t),
        0 <= n <= t.len(),
    ensures
        placed(t.take(n)).len() <= placed(t).len(),
        placed(t.take(n)) == placed(t).take(placed(t.take(n)).len() as int),
        forall|i: int|
            placed(t.take(n)).len() <= i < placed(t).len() ==> (#[trigger] placed(t)[i]).row
                >= in_rows(t.take(n)),
        forall|i: int|
            0 <= i < placed(t.take(n)).len() ==> 0 <= (#[trigger] placed(t)[i]).row <= in_rows(
                t.take(n),
            ),
        0 <= in_rows(t.take(n)) <= in_rows(t),
        shifted(placed(t.skip(n)), in_rows(t.take(n))) == placed(t).skip(
            placed(t.take(n)).len() as int,
        ),
{
    let a = t.take(n);
    let b = t.skip(n);
    assert(t =~= a + b);
    placed_in_sequence(a, b);
    assert(all_fit(a));
    assert(all_fit(b)) by {
        assert forall|i: int| 0 <= i < b.len() implies (#[trigger] b[i]).fits() by {
            assert(t[i + n].fits());
        }
    }
    placed_within(a);
    placed_within(b);
    rows_are_counted(a);
    rows_are_counted(b);
    assert(placed(a) =~= placed(t).take(placed(a).len() as int));
    assert(shifted(placed(b), in_rows(a)) =~= placed(t).skip(placed(a).len() as int));
    assert forall|i: int| placed(a).len() <= i < placed(t).len() implies (#[trigger] placed(
        t,
    )[i]).row >= in_rows(a) by {
        assert(placed(t)[i] == placed(b)[i - placed(a).len()].shifted(in_rows(a)));
    }
    assert forall|i: int| 0 <= i < placed(a).len() implies 0 <= (#[trigger] placed(t)[i]).row
        <= in_rows(a) by {
        assert(placed(t)[i] == placed(a)[i]);
    }
}

/// Adds rows of wrapped text at the end, to the last stretch of them where there is one.
pub fn push_isomorphic(t: &mut Vec<Transform>, rows: u32)
    requires
        all_wf(old(t)@),
        in_rows(transform_views(old(t)@)) + rows <= u32::MAX,
    ensures
        all_wf(final(t)@),
        in_rows(transform_views(final(t)@)) == in_rows(transform_views(old(t)@)) + rows,
        placed(transform_views(final(t)@)) == placed(transform_views(old(t)@)),
{
    if rows == 0 {
        return;
    }
    let ghost before = transform_views(t@);
    let n: usize = t.len();
    if n > 0 && t[n - 1].is_isomorphic() {
        proof {
            assert(all_fit(before)) by {
                assert forall|i: int| 0 <= i < before.len() implies (#[trigger] before[i]).fits() by {
                    assert(t@[i].wf());
                }
            }
            assert(t@[n - 1].wf());
            assert(all_fit(before.drop_last()));
            rows_are_counted(before.drop_last());
        }
        let extent: u32 = t[n - 1].summary.input_rows + rows;
        t.set(n - 1, Transform::isomorphic(extent));
        proof {
            let after = transform_views(t@);
            assert(after.drop_last() =~= before.drop_last());
            assert(after.last() == TransformView::Rows(extent as int));
        }
    } else {
        t.push(Transform::isomorphic(rows));
        proof {
            let after = transform_views(t@);
            assert(after.drop_last() =~= before);
        }
    }
}

/// Adds a transform at the end.
pub fn push_transform(t: &mut Vec<Transform>, transform: Transform)
    requires
        all_wf(old(t)@),
        transform.wf(),
    ensures
        all_wf(final(t)@),
        transform_views(final(t)@) == transform_views(old(t)@).push(transform@),
        in_rows(transform_views(final(t)@)) == in_rows(transform_views(old(t)@))
            + transform@.input_rows(),
        placed(transform_views(final(t)@)) == match transform@ {
            TransformView::Rows(_) => placed(transform_views(old(t)@)),
            TransformView::Block(block) => placed(transform_views(old(t)@)).push(
                Placed { row: in_rows(transform_views(old(t)@)), block },
            ),
        },
{
    let ghost before = transform_views(t@);
    let ghost added = transform@;
    t.push(transform);
    proof {
        let after = transform_views(t@);
        assert(after =~= before.push(added));
        assert(after.drop_last() =~= before);
    }
}

/// Rows stand for lines of the text and for as many rows on the screen; a block stands for none of
/// the text and for a row on the screen for each of its lines.
pub proof fn rows_and_blocks_take_rows(n: int, b: AlignedView)
    ensures
        in_rows(seq![TransformView::Rows(n)]) == n,
        out_rows(seq![TransformView::Rows(n)]) == n,
        placed(seq![TransformView::Rows(n)]) == Seq::<Placed>::empty(),
        in_rows(seq![TransformView::Block(b)]) == 0,
        out_rows(seq![TransformView::Block(b)]) == lines_of(b.body.text).len(),
        placed(seq![TransformView::Block(b)]) == seq![Placed { row: 0, block: b }],
{
    assert(seq![TransformView::Rows(n)].drop_last() == Seq::<TransformView>::empty());
    assert(seq![TransformView::Block(b)].drop_last() == Seq::<TransformView>::empty());
    reveal_with_fuel(in_rows, 2);
    reveal_with_fuel(out_rows, 2);
    reveal_with_fuel(placed, 2);
}

/// The blocks of one line stand above it in the order of their numbers, then below it in the order of
/// their numbers; the blocks of an earlier line come first.
pub proof fn blocks_stand_around_their_line(a: Placed, b: Placed)
    ensures
        a.block.disposition is Above ==> a.line_row() == a.row,
        a.block.disposition is Below ==> a.line_row() == a.row - 1,
        a.line_row() < b.line_row() ==> a.less(b) && !b.less(a),
        a.line_row() == b.line_row() && a.block.disposition is Above && b.block.disposition is Below
            ==> a.less(b) && !b.less(a),
        a.line_row() == b.line_row() && a.block.disposition == b.block.disposition ==> (a.less(b)
            <==> a.block.id.0 < b.block.id.0),
{
}

/// The longest line of a block has at least as many characters as every other, and more than those
/// before it.
pub proof fn longest_line_is_the_first_of_the_longest(lines: Seq<Seq<u8>>, n: int, k: int)
    requires
        0 <= k < n <= lines.len(),
    ensures
        0 <= longest_line(lines, n) < n,
        char_count(lines[k]) <= char_count(lines[longest_line(lines, n)]),
        k < longest_line(lines, n) ==> char_count(lines[k]) < char_count(
            lines[longest_line(lines, n)],
        ),
    decreases n,
{
    if n > 1 {
        if k < n - 1 {
            longest_line_is_the_first_of_the_longest(lines, n - 1, k);
        } else {
            longest_line_is_the_first_of_the_longest(lines, n - 1, 0);
        }
    }
}

/// Rows of two summaries add up. The longer of their longest rows is the longest, the first if they
/// are alike, and the second stands behind the rows of the first.
pub proof fn summaries_keep_the_longest_row(a: TransformSummary, b: TransformSummary)
    requires
        a.input_rows + b.input_rows <= u32::MAX,
        a.output_rows + b.output_rows <= u32::MAX,
        b.longest_row_in_block <= b.output_rows,
    ensures
        a.plus(b).input_rows == a.input_rows + b.input_rows,
        a.plus(b).output_rows == a.output_rows + b.output_rows,
        a.plus(b).longest_row_in_block_chars >= a.longest_row_in_block_chars,
        a.plus(b).longest_row_in_block_chars >= b.longest_row_in_block_chars,
        a.longest_row_in_block_chars >= b.longest_row_in_block_chars ==> a.plus(
            b,
        ).longest_row_in_block == a.longest_row_in_block && a.plus(b).longest_row_in_block_chars
            == a.longest_row_in_block_chars,
        a.longest_row_in_block_chars < b.longest_row_in_block_chars ==> a.plus(
            b,
        ).longest_row_in_block == a.output_rows + b.longest_row_in_block && a.plus(
            b,
        ).longest_row_in_block_chars == b.longest_row_in_block_chars,
{
}

/// A block is summed up by its rows and by its longest line with the padding in front.
pub proof fn blocks_are_summed_up(b: AlignedView)
    requires
        TransformView::Block(b).fits(),
    ensures
        ({
            let s = TransformView::Block(b).summary();
            let lines = lines_of(b.body.text);
            let longest = s.longest_row_in_block as int;
            &&& s.input_rows == 0
            &&& s.output_rows == lines.len()
            &&& 0 <= longest < lines.len()
            &&& s.longest_row_in_block_chars == b.column + char_count(lines[longest])
            &&& forall|k: int|
                0 <= k < lines.len() ==> char_count(#[trigger] lines[k]) <= char_count(
                    lines[longest],
                )
        }),
{
    let lines = lines_of(b.body.text);
    line_count_bounds(b.body.text);
    longest_line_exists(lines, lines.len() as int);
    let longest = longest_line(lines, lines.len() as int);
    assert forall|k: int| 0 <= k < lines.len() implies char_count(#[trigger] lines[k]) <= char_count(
        lines[longest],
    ) by {
        longest_line_is_the_first_of_the_longest(lines, lines.len() as int, k);
    }
    lemma_line_chars(b.body.text, longest);
}

proof fn lemma_line_chars(text: Seq<u8>, k: int)
    requires
        0 <= k < lines_of(text).len(),
    ensures
        char_count(lines_of(text)[k]) <= lines_of(text)[k].len() <= text.len(),
    decreases text.len(),
{
    lemma_chars_in_bytes(lines_of(text)[k]);
    if text.len() > 0 {
        line_count_bounds(text.drop_last());
        let before = lines_of(text.drop_last());
        if text.last() == 10 {
            if k < before.len() {
                lemma_line_chars(text.drop_last(), k);
            }
        } else {
            lemma_line_chars(text.drop_last(), k);
        }
    }
}

proof fn lemma_chars_in_bytes(text: Seq<u8>)
    ensures
        char_count(text) <= text.len(),
    decreases text.len(),
{
    if text.len() > 0 {
        lemma_chars_in_bytes(text.drop_last());
    }
}

/// Rows of text are summed up by their number.
pub proof fn rows_are_summed_up(n: int)
    requires
        TransformView::Rows(n).fits(),
    ensures
        TransformView::Rows(n).summary().input_rows == n,
        TransformView::Rows(n).summary().output_rows == n,
        TransformView::Rows(n).summary().longest_row_in_block_chars == 0,
        TransformView::Rows(n).summary().longest_row_in_block == 0,
{
}

} // verus!
