//! The text that the rows of a snapshot show.
use vstd::prelude::*;
use crate::block_chunks::{
    block_row_text, block_text, feeds, feeds_add, no_feed_counts_none, runs_len,
};
use crate::block_snapshot::{at_row, at_row_is, snapshot_ok};
use crate::block_transforms::{
    in_rows, lines_of, out_rows, rows_are_counted, AlignedView, TransformView,
};
use crate::wrap_rows::{
    byte_style, no_feed, plain_style, TextStyle, WrapLineView, WrapSnapshot,
};

verus! {

/// The text of a row, without a line feed.
pub open spec fn row_text(t: Seq<TransformView>, lines: Seq<WrapLineView>, r: int) -> Seq<u8> {
    let i = at_row(t, r);
    let over = r - out_rows(t.take(i));
    match t[i] {
        TransformView::Block(b) => block_row_text(b, over),
        TransformView::Rows(_) => lines[in_rows(t.take(i)) + over].text,
    }
}

/// Whether a line feed stands behind row `r` when rows up to `m` are shown: always between two
/// rows, and behind the last one if its block or the wrapped text goes on.
pub open spec fn feed_after(
    t: Seq<TransformView>,
    lines: Seq<WrapLineView>,
    r: int,
    m: int,
) -> bool {
    let i = at_row(t, r);
    let over = r - out_rows(t.take(i));
    r + 1 < m || match t[i] {
        TransformView::Block(b) => over + 1 < lines_of(b.body.text).len(),
        TransformView::Rows(_) => in_rows(t.take(i)) + over + 1 < lines.len(),
    }
}

/// A line feed, or nothing.
pub open spec fn feed_if(c: bool) -> Seq<u8> {
    if c {
        seq![10u8]
    } else {
        Seq::empty()
    }
}

/// What the rows from `a` to `m` show.
pub open spec fn rows_text(
    t: Seq<TransformView>,
    lines: Seq<WrapLineView>,
    a: int,
    m: int,
) -> Seq<u8>
    decreases m - a,
{
    if a >= m {
        Seq::empty()
    } else {
        row_text(t, lines, a) + feed_if(feed_after(t, lines, a, m)) + rows_text(t, lines, a + 1, m)
    }
}

/// The wrapped text of the rows from `a` to `e`, with a line feed behind each but the last row of
/// all.
pub open spec fn wrapped_text(lines: Seq<WrapLineView>, a: int, e: int) -> Seq<u8>
    decreases e - a,
{
    if a >= e {
        Seq::empty()
    } else {
        lines[a].text + feed_if(a + 1 < lines.len()) + wrapped_text(lines, a + 1, e)
    }
}

/// The style of each byte of the first `n` of a row, the line feed behind it counted. Text without
/// styles is plain.
pub open spec fn row_styles(line: WrapLineView, n: nat, styled: bool) -> Seq<TextStyle> {
    Seq::new(
        n,
        |i: int|
            if styled {
                byte_style(line.runs, i)
            } else {
                plain_style()
            },
    )
}

/// The style of each byte of the wrapped text of the rows from `a` to `e`.
pub open spec fn wrapped_styles(
    lines: Seq<WrapLineView>,
    a: int,
    e: int,
    styled: bool,
) -> Seq<TextStyle>
    decreases e - a,
{
    if a >= e {
        Seq::empty()
    } else {
        row_styles(
            lines[a],
            lines[a].text.len() + feed_if(a + 1 < lines.len()).len(),
            styled,
        ) + wrapped_styles(lines, a + 1, e, styled)
    }
}

/// Each byte of wrapped text has a style, and so have those of any rows of it.
pub proof fn wrapped_styles_split(lines: Seq<WrapLineView>, a: int, b: int, e: int, styled: bool)
    requires
        a <= b <= e,
    ensures
        wrapped_styles(lines, a, e, styled) == wrapped_styles(lines, a, b, styled)
            + wrapped_styles(lines, b, e, styled),
        wrapped_styles(lines, a, b, styled).len() == wrapped_text(lines, a, b).len(),
    decreases b - a,
{
    if a < b {
        wrapped_styles_split(lines, a + 1, b, e, styled);
        let n = lines[a].text.len() + feed_if(a + 1 < lines.len()).len();
        let head = row_styles(lines[a], n, styled);
        assert(head + (wrapped_styles(lines, a + 1, b, styled) + wrapped_styles(lines, b, e, styled))
            =~= head + wrapped_styles(lines, a + 1, b, styled) + wrapped_styles(
            lines,
            b,
            e,
            styled,
        ));
    } else {
        assert(wrapped_styles(lines, a, b, styled) =~= Seq::empty());
        assert(Seq::<TextStyle>::empty() + wrapped_styles(lines, b, e, styled) =~= wrapped_styles(
            lines,
            b,
            e,
            styled,
        ));
    }
}

/// The first row of wrapped text that is shown at or behind row `r`.
pub open spec fn wrap_row_at(t: Seq<TransformView>, r: int) -> int {
    let i = at_row(t, r);
    in_rows(t.take(i)) + (if i < t.len() && t[i] is Rows {
        r - out_rows(t.take(i))
    } else {
        0
    })
}

/// Whether the runs of every block can be measured.
pub open spec fn runs_fit(t: Seq<TransformView>) -> bool {
    forall|i: int|
        0 <= i < t.len() ==> ((#[trigger] t[i]) matches TransformView::Block(b) ==> runs_len(
            b.body.runs,
        ) <= usize::MAX)
}

/// The text of a snapshot's last wrapped rows comes in one piece with what precedes it.
pub proof fn wrapped_text_splits(lines: Seq<WrapLineView>, a: int, b: int, e: int)
    requires
        a <= b <= e,
    ensures
        wrapped_text(lines, a, e) == wrapped_text(lines, a, b) + wrapped_text(lines, b, e),
    decreases b - a,
{
    if a < b {
        wrapped_text_splits(lines, a + 1, b, e);
        let head = lines[a].text + feed_if(a + 1 < lines.len());
        assert(head + (wrapped_text(lines, a + 1, b) + wrapped_text(lines, b, e)) =~= head
            + wrapped_text(lines, a + 1, b) + wrapped_text(lines, b, e));
    } else {
        assert(wrapped_text(lines, a, b) =~= Seq::empty());
        assert(Seq::<u8>::empty() + wrapped_text(lines, b, e) =~= wrapped_text(lines, b, e));
    }
}

/// A line feed counts as one.
pub proof fn feed_if_counts(c: bool)
    ensures
        feeds(feed_if(c)) == feed_if(c).len(),
{
    reveal_with_fuel(feeds, 2);
    if c {
        assert(feed_if(c).drop_last() =~= Seq::empty());
    }
}

/// Wrapped rows have one line feed each, but for the last row of all; short of it, their text ends
/// with a line feed.
pub proof fn wrapped_text_feeds(lines: Seq<WrapLineView>, a: int, e: int)
    requires
        crate::wrap_rows::is_wrapping(lines),
        0 <= a < e <= lines.len(),
    ensures
        feeds(wrapped_text(lines, a, e)) == (e - a) - (if e == lines.len() {
            1int
        } else {
            0int
        }),
        e < lines.len() ==> wrapped_text(lines, a, e).len() > 0 && wrapped_text(lines, a, e).last()
            == 10,
    decreases e - a,
{
    let text = lines[a].text;
    let feed = feed_if(a + 1 < lines.len());
    let rest = wrapped_text(lines, a + 1, e);
    assert(crate::wrap_rows::row_fits(lines[a]));
    no_feed_counts_none(text);
    feed_if_counts(a + 1 < lines.len());
    feeds_add(text, feed);
    feeds_add(text + feed, rest);
    if a + 1 < e {
        wrapped_text_feeds(lines, a + 1, e);
    } else {
        assert(rest =~= Seq::empty());
        assert(text + feed + rest =~= text + feed);
    }
}

/// The text of a block's rows is that of the shown rows, up to the end of the block.
pub proof fn rows_text_of_block(
    t: Seq<TransformView>,
    lines: Seq<WrapLineView>,
    i: int,
    b: AlignedView,
    a: int,
    m: int,
)
    requires
        snapshot_ok(t, lines),
        0 <= i < t.len(),
        t[i] == TransformView::Block(b),
        out_rows(t.take(i)) <= a < out_rows(t.take(i + 1)),
        a < m,
    ensures
        ({
            let s = out_rows(t.take(i));
            let end = out_rows(t.take(i + 1));
            let e = if end <= m {
                end
            } else {
                m
            };
            &&& end == s + lines_of(b.body.text).len()
            &&& rows_text(t, lines, a, m) == block_text(b, a - s, e - s) + (if end < m {
                seq![10u8] + rows_text(t, lines, end, m)
            } else {
                Seq::empty()
            })
        }),
    decreases m - a,
{
    let s = out_rows(t.take(i));
    let end = out_rows(t.take(i + 1));
    let e = if end <= m {
        end
    } else {
        m
    };
    assert(t.take(i + 1).drop_last() =~= t.take(i));
    let n = lines_of(b.body.text).len() as int;
    at_row_is(t, a, i);
    let row = row_text(t, lines, a);
    assert(row == block_row_text(b, a - s));
    let after = if end < m {
        seq![10u8] + rows_text(t, lines, end, m)
    } else {
        Seq::empty()
    };
    if a + 1 < e {
        rows_text_of_block(t, lines, i, b, a + 1, m);
        assert(row + feed_if(true) + (block_text(b, a + 1 - s, e - s) + after) =~= row + feed_if(
            true,
        ) + block_text(b, a + 1 - s, e - s) + after);
    } else {
        assert(block_text(b, a + 1 - s, e - s) =~= Seq::empty());
        if a + 1 == end {
            let rest = rows_text(t, lines, a + 1, m);
            if end < m {
                assert(row + feed_if(true) + rest =~= row + Seq::<u8>::empty() + Seq::<u8>::empty()
                    + (seq![10u8] + rest));
            } else {
                assert(rest =~= Seq::empty());
                assert(row + Seq::<u8>::empty() + rest =~= row + Seq::<u8>::empty()
                    + Seq::<u8>::empty() + Seq::<u8>::empty());
            }
        } else {
            assert(rows_text(t, lines, a + 1, m) =~= Seq::empty());
            assert(row + feed_if(true) + Seq::<u8>::empty() =~= row + seq![10u8]
                + Seq::<u8>::empty() + Seq::<u8>::empty());
        }
    }
}

/// The text of wrapped rows is that of the shown rows, up to the next block.
pub proof fn rows_text_of_rows(
    t: Seq<TransformView>,
    lines: Seq<WrapLineView>,
    i: int,
    a: int,
    m: int,
)
    requires
        snapshot_ok(t, lines),
        0 <= i < t.len(),
        t[i] is Rows,
        out_rows(t.take(i)) <= a < out_rows(t.take(i + 1)),
        a < m,
    ensures
        ({
            let s = out_rows(t.take(i));
            let w = in_rows(t.take(i));
            let end = out_rows(t.take(i + 1));
            let e = if end <= m {
                end
            } else {
                m
            };
            &&& in_rows(t.take(i + 1)) - w == end - s
            &&& w + (e - s) <= lines.len()
            &&& rows_text(t, lines, a, m) == wrapped_text(lines, w + (a - s), w + (e - s)) + (if w
                + (e - s) < lines.len() {
                rows_text(t, lines, e, m)
            } else if end < m {
                seq![10u8] + rows_text(t, lines, end, m)
            } else {
                Seq::empty()
            })
        }),
    decreases m - a,
{
    let s = out_rows(t.take(i));
    let w = in_rows(t.take(i));
    let end = out_rows(t.take(i + 1));
    let e = if end <= m {
        end
    } else {
        m
    };
    assert(t.take(i + 1).drop_last() =~= t.take(i));
    crate::block_snapshot::rows_within(t, i + 1);
    at_row_is(t, a, i);
    let row = row_text(t, lines, a);
    assert(row == lines[w + (a - s)].text);
    let after = if w + (e - s) < lines.len() {
        rows_text(t, lines, e, m)
    } else if end < m {
        seq![10u8] + rows_text(t, lines, end, m)
    } else {
        Seq::empty()
    };
    if a + 1 < e {
        rows_text_of_rows(t, lines, i, a + 1, m);
        let rest = wrapped_text(lines, w + (a + 1 - s), w + (e - s));
        assert(row + feed_if(true) + (rest + after) =~= row + feed_if(true) + rest + after);
    } else {
        let rest = wrapped_text(lines, w + (a + 1 - s), w + (e - s));
        assert(rest =~= Seq::empty());
        let more = rows_text(t, lines, a + 1, m);
        if w + (e - s) < lines.len() {
            assert(row + feed_if(true) + more =~= row + feed_if(true) + rest + more);
        } else if end < m {
            assert(row + feed_if(true) + more =~= row + feed_if(false) + rest + (seq![10u8] + more));
        } else {
            assert(more =~= Seq::empty());
            assert(row + feed_if(false) + more =~= row + feed_if(false) + rest + Seq::<u8>::empty());
        }
    }
}

/// A text without line feeds is one line.
pub proof fn lines_of_line(text: Seq<u8>)
    requires
        no_feed(text),
    ensures
        lines_of(text) == seq![text],
    decreases text.len(),
{
    if text.len() > 0 {
        let rest = text.drop_last();
        assert(no_feed(rest)) by {
            assert forall|i: int| 0 <= i < rest.len() implies #[trigger] rest[i] != 10 by {
                assert(text[i] != 10);
            }
        }
        lines_of_line(rest);
        assert(text[text.len() - 1] != 10);
        assert(rest.push(text.last()) =~= text);
        assert(lines_of(text) =~= seq![text]);
    } else {
        assert(text =~= Seq::empty());
        assert(lines_of(text) =~= seq![text]);
    }
}

/// The lines of two texts with a line feed between them are those of the first, and behind them
/// those of the second.
pub proof fn lines_of_joined(a: Seq<u8>, b: Seq<u8>)
    ensures
        lines_of(a + seq![10u8] + b) == lines_of(a) + lines_of(b),
    decreases b.len(),
{
    let all = a + seq![10u8] + b;
    crate::block_transforms::line_count_bounds(b);
    if b.len() == 0 {
        assert(all.drop_last() =~= a);
        assert(lines_of(all) =~= lines_of(a) + lines_of(b));
    } else {
        lines_of_joined(a, b.drop_last());
        crate::block_transforms::line_count_bounds(b.drop_last());
        assert(all.drop_last() =~= a + seq![10u8] + b.drop_last());
        assert(lines_of(all) =~= lines_of(a) + lines_of(b));
    }
}

/// No row has a line feed in its text, and the text is as long as the row.
pub proof fn row_text_is_a_line(t: Seq<TransformView>, lines: Seq<WrapLineView>, r: int)
    requires
        snapshot_ok(t, lines),
        0 <= r < out_rows(t),
    ensures
        no_feed(row_text(t, lines, r)),
        row_text(t, lines, r).len() == crate::block_snapshot::shown_len(t, lines, r),
{
    crate::block_snapshot::at_row_contains(t, r);
    let i = at_row(t, r);
    let over = r - out_rows(t.take(i));
    assert(t.take(i + 1).drop_last() =~= t.take(i));
    crate::block_snapshot::rows_within(t, i);
    crate::block_snapshot::rows_within(t, i + 1);
    match t[i] {
        TransformView::Block(b) => {
            crate::block_chunks::text_is_its_lines(b.body.text);
            assert(no_feed(lines_of(b.body.text)[over]));
        },
        TransformView::Rows(_) => {
            assert(crate::wrap_rows::row_fits(lines[in_rows(t.take(i)) + over]));
        },
    }
}

/// The text of all rows has one line for each of them, and that line is the row's text.
pub proof fn text_has_its_rows(t: Seq<TransformView>, lines: Seq<WrapLineView>)
    requires
        snapshot_ok(t, lines),
    ensures
        lines_of(rows_text(t, lines, 0, out_rows(t))) == Seq::new(
            out_rows(t) as nat,
            |r: int| row_text(t, lines, r),
        ),
{
    rows_are_counted(t);
    lemma_rows_from(t, lines, 0);
}

proof fn lemma_rows_from(t: Seq<TransformView>, lines: Seq<WrapLineView>, a: int)
    requires
        snapshot_ok(t, lines),
        0 <= a < out_rows(t),
    ensures
        lines_of(rows_text(t, lines, a, out_rows(t))) == Seq::new(
            (out_rows(t) - a) as nat,
            |r: int| row_text(t, lines, a + r),
        ),
    decreases out_rows(t) - a,
{
    let m = out_rows(t);
    let row = row_text(t, lines, a);
    let rest = rows_text(t, lines, a + 1, m);
    row_text_is_a_line(t, lines, a);
    lines_of_line(row);
    if a + 1 < m {
        lemma_rows_from(t, lines, a + 1);
        lines_of_joined(row, rest);
        assert(lines_of(row) + lines_of(rest) =~= Seq::new(
            (m - a) as nat,
            |r: int| row_text(t, lines, a + r),
        ));
    } else {
        crate::block_snapshot::at_row_contains(t, a);
        let i = at_row(t, a);
        assert(t.take(i + 1).drop_last() =~= t.take(i));
        crate::block_snapshot::rows_within(t, i + 1);
        assert(!feed_after(t, lines, a, m));
        assert(rest =~= Seq::empty());
        assert(row + feed_if(false) + rest =~= row);
        assert(lines_of(row) =~= Seq::new((m - a) as nat, |r: int| row_text(t, lines, a + r)));
    }
}

/// Collects the styles of the first `n` bytes of a row.
fn push_row_styles(out: &mut Vec<TextStyle>, runs: &Vec<(usize, TextStyle)>, n: usize, styled: bool)
    ensures
        final(out)@ == old(out)@ + Seq::new(
            n as nat,
            |i: int|
                if styled {
                    byte_style(runs@, i)
                } else {
                    plain_style()
                },
        ),
{
    let plain = TextStyle { highlight: None, diagnostic: None };
    let ghost all = Seq::new(
        n as nat,
        |i: int|
            if styled {
                byte_style(runs@, i)
            } else {
                plain_style()
            },
    );
    let mut k: usize = 0;
    let mut used: usize = 0;
    let mut i: usize = 0;
    assert(runs@.skip(0) =~= runs@);
    assert(out@ =~= old(out)@ + all.take(0));
    while i < n
        invariant
            i <= n,
            k <= runs@.len(),
            used <= i,
            plain == plain_style(),
            all == Seq::new(
                n as nat,
                |i: int|
                    if styled {
                        byte_style(runs@, i)
                    } else {
                        plain_style()
                    },
            ),
            out@ == old(out)@ + all.take(i as int),
            forall|x: int| i <= x ==> #[trigger] byte_style(runs@, x) == byte_style(
                runs@.skip(k as int),
                x - i + used,
            ),
        decreases n - i, runs@.len() - k,
    {
        if k < runs.len() && used >= runs[k].0 {
            proof {
                let rest = runs@.skip(k as int);
                assert(rest.skip(1) =~= runs@.skip(k + 1));
                assert forall|x: int| i <= x implies #[trigger] byte_style(runs@, x) == byte_style(
                    runs@.skip(k + 1),
                    x - i + (used - runs@[k as int].0),
                ) by {
                    assert(rest[0] == runs@[k as int]);
                }
            }
            used = used - runs[k].0;
            k += 1;
        } else {
            let style: TextStyle = if styled && k < runs.len() {
                runs[k].1
            } else {
                plain
            };
            proof {
                let rest = runs@.skip(k as int);
                assert(byte_style(runs@, i as int) == byte_style(rest, used as int));
                if k < runs@.len() {
                    assert(rest[0] == runs@[k as int]);
                }
                assert(style == all[i as int]);
            }
            out.push(style);
            i += 1;
            used += 1;
            assert(out@ =~= old(out)@ + all.take(i as int));
        }
    }
    assert(all.take(n as int) =~= all);
}

/// Collects the styles of the wrapped text of the rows from `a` to `e`.
pub fn wrapped_style_list(wrap: &WrapSnapshot, a: u32, e: u32, styled: bool) -> (r: Vec<TextStyle>)
    requires
        a <= e <= wrap@.len(),
        crate::wrap_rows::is_wrapping(wrap@),
    ensures
        r@ == wrapped_styles(wrap@, a as int, e as int, styled),
{
    let n: u32 = wrap.row_count();
    let mut r: Vec<TextStyle> = Vec::new();
    let mut i: u32 = a;
    while i < e
        invariant
            a <= i <= e <= n,
            n == wrap@.len(),
            crate::wrap_rows::is_wrapping(wrap@),
            r@ == wrapped_styles(wrap@, a as int, i as int, styled),
        decreases e - i,
    {
        let ghost before = r@;
        assert(crate::wrap_rows::row_fits(wrap@[i as int]));
        let len: usize = wrap.text(i).len() + if i + 1 < n {
            1
        } else {
            0
        };
        push_row_styles(&mut r, wrap.runs(i), len, styled);
        proof {
            wrapped_styles_split(wrap@, a as int, i as int, i + 1, styled);
            assert(wrapped_styles(wrap@, i + 1, i + 1, styled) =~= Seq::empty());
            assert(r@ =~= before + wrapped_styles(wrap@, i as int, i + 1, styled));
        }
        i += 1;
    }
    r
}

/// Collects the wrapped text of the rows from `a` to `e`.
pub fn wrapped_bytes(wrap: &WrapSnapshot, a: u32, e: u32) -> (r: Vec<u8>)
    requires
        a <= e <= wrap@.len(),
    ensures
        r@ == wrapped_text(wrap@, a as int, e as int),
{
    let n: u32 = wrap.row_count();
    let mut r: Vec<u8> = Vec::new();
    let mut i: u32 = a;
    while i < e
        invariant
            a <= i <= e <= n,
            n == wrap@.len(),
            r@ == wrapped_text(wrap@, a as int, i as int),
        decreases e - i,
    {
        let ghost before = r@;
        let text: &Vec<u8> = wrap.text(i);
        let mut k: usize = 0;
        while k < text.len()
            invariant
                k <= text@.len(),
                r@ == before + text@.take(k as int),
            decreases text.len() - k,
        {
            r.push(text[k]);
            k += 1;
            assert(r@ =~= before + text@.take(k as int));
        }
        if i + 1 < n {
            r.push(10);
        }
        proof {
            wrapped_text_splits(wrap@, a as int, i as int, i + 1);
            assert(wrapped_text(wrap@, i + 1, i + 1) =~= Seq::empty());
            assert(r@ =~= before + wrapped_text(wrap@, i as int, i + 1));
        }
        i += 1;
    }
    r
}

/// Wrapped lines follow each other with a line feed behind each but the very last.
pub proof fn lines_end_in_feeds(lines: Seq<WrapLineView>, w: int)
    requires
        0 <= w < lines.len(),
    ensures
        w + 1 < lines.len() ==> wrapped_text(lines, w, w + 1) == lines[w].text.push(10),
        w + 1 == lines.len() ==> wrapped_text(lines, w, w + 1) == lines[w].text,
{
    assert(wrapped_text(lines, w + 1, w + 1) == Seq::<u8>::empty());
}

/// Text that is shown without its styles is plain; else each byte of a line has the style of its run.
pub proof fn styles_are_those_of_the_runs(
    lines: Seq<WrapLineView>,
    w: int,
    styled: bool,
    i: int,
)
    requires
        0 <= w < lines.len(),
        0 <= i < lines[w].text.len(),
    ensures
        ({
            let styles = wrapped_styles(lines, w, w + 1, styled);
            &&& i < styles.len()
            &&& !styled ==> styles[i].highlight is None && styles[i].diagnostic is None
            &&& styled ==> styles[i] == byte_style(lines[w].runs, i)
        }),
{
    assert(wrapped_styles(lines, w + 1, w + 1, styled) == Seq::<TextStyle>::empty());
}

/// A row ends in a line feed if its text, or its block, goes on behind it.
pub proof fn rows_end_in_feeds(
    t: Seq<TransformView>,
    lines: Seq<WrapLineView>,
    i: int,
    over: int,
)
    requires
        snapshot_ok(t, lines),
        0 <= i < t.len(),
        0 <= over < t[i].output_rows(),
    ensures
        ({
            let r = out_rows(t.take(i)) + over;
            let text = rows_text(t, lines, r, r + 1);
            &&& t[i] is Rows && in_rows(t.take(i)) + over + 1 < lines.len() ==> text == lines[in_rows(
                t.take(i),
            ) + over].text.push(10)
            &&& t[i] is Rows && in_rows(t.take(i)) + over + 1 == lines.len() ==> text == lines[in_rows(
                t.take(i),
            ) + over].text
            &&& t[i] matches TransformView::Block(b) ==> (over + 1 < lines_of(b.body.text).len()
                ==> text == block_row_text(b, over).push(10)) && (over + 1 == lines_of(
                b.body.text,
            ).len() ==> text == block_row_text(b, over))
        }),
{
    assert(t.take(i + 1).drop_last() == t.take(i));
    let r = out_rows(t.take(i)) + over;
    at_row_is(t, r, i);
    assert(rows_text(t, lines, r + 1, r + 1) == Seq::<u8>::empty());
}

} // verus!
