//! Offsets into a text as positions that language servers understand.
use vstd::prelude::*;
use crate::copilot::{bytes_len, chars_before, position_offset, utf16_len, utf8_len};
use crate::project_search::prefix_has_bytes;
use crate::request::Position;

verus! {

/// The row behind a text, and how many UTF-16 units of it the text has.
pub open spec fn position_after(text: Seq<char>) -> (int, int)
    decreases text.len(),
{
    if text.len() == 0 {
        (0, 0)
    } else {
        let before = position_after(text.drop_last());
        if text.last() == '\n' {
            (before.0 + 1, 0)
        } else {
            (before.0, before.1 + utf16_len(text.last()))
        }
    }
}

proof fn lemma_position_bounds(text: Seq<char>)
    ensures
        0 <= position_after(text).0 <= text.len(),
        0 <= position_after(text).1 <= 2 * text.len(),
    decreases text.len(),
{
    if text.len() > 0 {
        lemma_position_bounds(text.drop_last());
    }
}

proof fn lemma_position_grows(text: Seq<char>, i: int, k: int)
    requires
        0 <= i <= k <= text.len(),
    ensures
        position_after(text.take(i)).0 <= position_after(text.take(k)).0,
        position_after(text.take(i)).0 == position_after(text.take(k)).0 ==> position_after(
            text.take(i),
        ).1 <= position_after(text.take(k)).1,
    decreases k - i,
{
    if i < k {
        lemma_position_grows(text, i, k - 1);
        assert(text.take(k).drop_last() =~= text.take(k - 1));
        lemma_position_bounds(text.take(k - 1));
    }
}

proof fn lemma_walk(text: Seq<char>, i: int, k: int)
    requires
        0 <= i <= k <= text.len(),
    ensures
        ({
            let here = position_after(text.take(i));
            let there = position_after(text.take(k));
            chars_before(
                text,
                i,
                there.0 - here.0,
                if here.0 == there.0 {
                    there.1 - here.1
                } else {
                    there.1
                },
            ) == k
        }),
    decreases k - i,
{
    if i < k {
        lemma_walk(text, i + 1, k);
        lemma_position_grows(text, i, k);
        lemma_position_grows(text, i + 1, k);
        assert(text.take(i + 1).drop_last() =~= text.take(i));
    }
}

/// The position of an offset is the place at which a server finds the offset again.
pub proof fn position_is_found_again(text: Seq<char>, chars: int, p: Position)
    requires
        0 <= chars <= text.len(),
        (p.line as int, p.character as int) == position_after(text.take(chars)),
    ensures
        position_offset(text, p) == bytes_len(text.take(chars)),
{
    assert(text.take(0) =~= Seq::empty());
    lemma_walk(text, 0, chars);
}

proof fn lemma_more_bytes(text: Seq<char>, i: int, j: int)
    requires
        0 <= i <= j <= text.len(),
    ensures
        bytes_len(text.take(j)) >= bytes_len(text.take(i)) + (j - i),
    decreases j - i,
{
    if i < j {
        lemma_more_bytes(text, i, j - 1);
        assert(text.take(j).drop_last() =~= text.take(j - 1));
    }
}

/// The position of an offset, which must not be within a character.
pub fn to_lsp(text: &Vec<char>, offset: usize) -> (r: Position)
    requires
        exists|chars: int| #[trigger] prefix_has_bytes(text@, chars, offset as int),
        2 * text@.len() <= u32::MAX,
    ensures
        exists|chars: int| #[trigger]
            prefix_has_bytes(text@, chars, offset as int) && (r.line as int, r.character as int)
                == position_after(text@.take(chars)),
{
    let ghost chars = choose|chars: int| #[trigger]
        prefix_has_bytes(text@, chars, offset as int);
    let mut i: usize = 0;
    let mut total: usize = 0;
    let mut line: u32 = 0;
    let mut character: u32 = 0;
    while total < offset
        invariant
            prefix_has_bytes(text@, chars, offset as int),
            2 * text@.len() <= u32::MAX,
            i <= chars,
            total == bytes_len(text@.take(i as int)),
            (line as int, character as int) == position_after(text@.take(i as int)),
        decreases text@.len() - i,
    {
        proof {
            lemma_more_bytes(text@, i as int, chars);
            assert(i < chars);
            lemma_more_bytes(text@, i + 1, chars);
            assert(text@.take(i + 1).drop_last() =~= text@.take(i as int));
            lemma_position_bounds(text@.take(i as int));
            lemma_position_bounds(text@.take(i + 1));
        }
        let n: u32 = text[i] as u32;
        let size: usize = if n < 0x80 {
            1
        } else if n < 0x800 {
            2
        } else if n < 0x10000 {
            3
        } else {
            4
        };
        assert(size == utf8_len(text@[i as int]));
        total += size;
        if text[i] == '\n' {
            line += 1;
            character = 0;
        } else {
            character += if n < 0x10000 {
                1
            } else {
                2
            };
        }
        i += 1;
    }
    proof {
        lemma_more_bytes(text@, i as int, chars);
        assert(i == chars);
    }
    Position { line, character }
}

/// The positions of the two ends of a range of offsets.
pub fn to_lsp_range(text: &Vec<char>, start: usize, end: usize) -> (r: (Position, Position))
    requires
        exists|chars: int| #[trigger] prefix_has_bytes(text@, chars, start as int),
        exists|chars: int| #[trigger] prefix_has_bytes(text@, chars, end as int),
        2 * text@.len() <= u32::MAX,
    ensures
        exists|chars: int| #[trigger]
            prefix_has_bytes(text@, chars, start as int) && (r.0.line as int, r.0.character as int)
                == position_after(text@.take(chars)),
        exists|chars: int| #[trigger]
            prefix_has_bytes(text@, chars, end as int) && (r.1.line as int, r.1.character as int)
                == position_after(text@.take(chars)),
{
    (to_lsp(text, start), to_lsp(text, end))
}

/// A position counts the line feeds before it, and the units behind the last of them.
pub proof fn positions_count_lines_and_units(text: Seq<char>, start: int)
    requires
        0 <= start <= text.len(),
        start == 0 || text[start - 1] == '\n',
        forall|i: int| start <= i < text.len() ==> text[i] != '\n',
    ensures
        position_after(text).0 == crate::copilot::line_feeds(text),
        position_after(text).1 == crate::copilot::units_in(text.skip(start)),
    decreases text.len(),
{
    if text.len() > 0 {
        lemma_lines_counted(text.drop_last());
        if start < text.len() {
            positions_count_lines_and_units(text.drop_last(), start);
            assert(text.skip(start).drop_last() == text.drop_last().skip(start));
        } else {
            assert(text.skip(start) == Seq::<char>::empty());
        }
    } else {
        assert(text.skip(start) == Seq::<char>::empty());
    }
}

proof fn lemma_lines_counted(text: Seq<char>)
    ensures
        position_after(text).0 == crate::copilot::line_feeds(text),
    decreases text.len(),
{
    if text.len() > 0 {
        lemma_lines_counted(text.drop_last());
    }
}

} // verus!
