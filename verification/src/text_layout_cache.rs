//! The layouts of lines of text, kept for as long as they are used.
use vstd::prelude::*;
use crate::text::same_text;

verus! {

/// What the layout of a line depends on: its text, the size of the font in units of the platform,
/// and the fonts of its runs with the lengths of the runs.
pub struct LineKey {
    pub text: String,
    pub font_size: u32,
    pub runs: Vec<(usize, u64)>,
}

/// The meaning of a key.
#[verifier::ext_equal]
pub struct LineKeyView {
    pub text: Seq<char>,
    pub font_size: u32,
    pub runs: Seq<(usize, u64)>,
}

impl View for LineKey {
    type V = LineKeyView;

    open spec fn view(&self) -> LineKeyView {
        LineKeyView { text: self.text@, font_size: self.font_size, runs: self.runs@ }
    }
}

impl LineKey {
    /// Whether two keys are the same.
    pub fn same(&self, other: &LineKey) -> (r: bool)
        ensures
            r == (self@ == other@),
    {
        if self.font_size != other.font_size || self.runs.len() != other.runs.len() || !same_text(
            self.text.as_str(),
            other.text.as_str(),
        ) {
            return false;
        }
        let mut i: usize = 0;
        while i < self.runs.len()
            invariant
                i <= self.runs.len() == other.runs.len(),
                forall|k: int| 0 <= k < i ==> self.runs@[k] == other.runs@[k],
            decreases self.runs.len() - i,
        {
            if self.runs[i].0 != other.runs[i].0 || self.runs[i].1 != other.runs[i].1 {
                assert(self.runs@[i as int] != other.runs@[i as int]);
                return false;
            }
            i += 1;
        }
        assert(self@ =~= other@);
        true
    }
}

struct LineEntry {
    key: LineKey,
    layout: u64,
}

spec fn line_map(entries: Seq<LineEntry>) -> Map<LineKeyView, u64>
    decreases entries.len(),
{
    if entries.len() == 0 {
        Map::empty()
    } else {
        line_map(entries.drop_last()).insert(entries.last().key@, entries.last().layout)
    }
}

spec fn keys_differ(entries: Seq<LineEntry>) -> bool {
    forall|i: int, j: int|
        0 <= i < j < entries.len() ==> (#[trigger] entries[i]).key@ != (#[trigger] entries[j]).key@
}

proof fn lemma_mapped(entries: Seq<LineEntry>, key: LineKeyView)
    ensures
        line_map(entries).dom().contains(key) <==> exists|i: int|
            0 <= i < entries.len() && (#[trigger] entries[i]).key@ == key,
    decreases entries.len(),
{
    if entries.len() > 0 {
        let init = entries.drop_last();
        lemma_mapped(init, key);
        if line_map(init).dom().contains(key) {
            let i = choose|i: int| 0 <= i < init.len() && (#[trigger] init[i]).key@ == key;
            assert(entries[i].key@ == key);
        }
        assert(entries[entries.len() - 1] == entries.last());
        if exists|i: int| 0 <= i < entries.len() && (#[trigger] entries[i]).key@ == key {
            let i = choose|i: int| 0 <= i < entries.len() && (#[trigger] entries[i]).key@ == key;
            if i < init.len() {
                assert(init[i].key@ == key);
            }
        }
    }
}

proof fn lemma_value(entries: Seq<LineEntry>, i: int)
    requires
        keys_differ(entries),
        0 <= i < entries.len(),
    ensures
        line_map(entries)[entries[i].key@] == entries[i].layout,
    decreases entries.len(),
{
    if i < entries.len() - 1 {
        let init = entries.drop_last();
        assert(init[i] == entries[i]);
        assert(keys_differ(init)) by {
            assert forall|a: int, b: int| 0 <= a < b < init.len() implies (#[trigger] init[a]).key@
                != (#[trigger] init[b]).key@ by {
                assert(entries[a].key@ != entries[b].key@);
            }
        }
        lemma_value(init, i);
        assert(entries[i].key@ != entries[entries.len() - 1].key@);
    }
}

proof fn lemma_entry_removed(entries: Seq<LineEntry>, i: int)
    requires
        keys_differ(entries),
        0 <= i < entries.len(),
    ensures
        keys_differ(entries.remove(i)),
        line_map(entries.remove(i)) == line_map(entries).remove(entries[i].key@),
    decreases entries.len(),
{
    let key = entries[i].key@;
    let rest = entries.remove(i);
    assert forall|a: int, b: int| 0 <= a < b < rest.len() implies (#[trigger] rest[a]).key@ != (
    #[trigger] rest[b]).key@ by {
        let x = if a < i {
            a
        } else {
            a + 1
        };
        let y = if b < i {
            b
        } else {
            b + 1
        };
        assert(entries[x].key@ != entries[y].key@);
    }
    let init = entries.drop_last();
    assert forall|a: int, b: int| 0 <= a < b < init.len() implies (#[trigger] init[a]).key@ != (
    #[trigger] init[b]).key@ by {
        assert(entries[a].key@ != entries[b].key@);
    }
    if i == entries.len() - 1 {
        assert(rest =~= init);
        lemma_mapped(init, key);
        assert forall|k: int| 0 <= k < init.len() implies (#[trigger] init[k]).key@ != key by {
            assert(entries[k].key@ != entries[i].key@);
        }
        assert(line_map(entries).remove(key) =~= line_map(init));
    } else {
        assert(init[i] == entries[i]);
        lemma_entry_removed(init, i);
        assert(rest.drop_last() =~= init.remove(i));
        assert(rest.last() == entries.last());
        assert(entries[i].key@ != entries[entries.len() - 1].key@);
        assert(line_map(rest) =~= line_map(entries).remove(key));
    }
}

fn find_entry(entries: &Vec<LineEntry>, key: &LineKey) -> (r: Option<usize>)
    requires
        keys_differ(entries@),
    ensures
        r is Some <==> line_map(entries@).dom().contains(key@),
        r matches Some(i) ==> i < entries@.len() && entries@[i as int].key@ == key@ && line_map(
            entries@,
        )[key@] == entries@[i as int].layout,
{
    proof {
        lemma_mapped(entries@, key@);
    }
    let mut i: usize = 0;
    while i < entries.len()
        invariant
            i <= entries.len(),
            keys_differ(entries@),
            forall|k: int| 0 <= k < i ==> (#[trigger] entries@[k]).key@ != key@,
            line_map(entries@).dom().contains(key@) <==> exists|k: int|
                0 <= k < entries@.len() && (#[trigger] entries@[k]).key@ == key@,
        decreases entries.len() - i,
    {
        if entries[i].key.same(key) {
            proof {
                assert(entries@[i as int].key@ == key@);
                lemma_value(entries@, i as int);
            }
            return Some(i);
        }
        i += 1;
    }
    None
}

/// The layouts that were used in this frame, and those that are left of the one before.
pub struct TextLayoutCache {
    prev_frame: Vec<LineEntry>,
    curr_frame: Vec<LineEntry>,
}

/// The meaning of the cache.
#[verifier::ext_equal]
pub struct LayoutCacheView {
    pub prev_frame: Map<LineKeyView, u64>,
    pub curr_frame: Map<LineKeyView, u64>,
}

impl View for TextLayoutCache {
    type V = LayoutCacheView;

    closed spec fn view(&self) -> LayoutCacheView {
        LayoutCacheView {
            prev_frame: line_map(self.prev_frame@),
            curr_frame: line_map(self.curr_frame@),
        }
    }
}

/// The layout that the cache has for a line.
pub open spec fn cached(c: LayoutCacheView, key: LineKeyView) -> Option<u64> {
    if c.curr_frame.dom().contains(key) {
        Some(c.curr_frame[key])
    } else if c.prev_frame.dom().contains(key) {
        Some(c.prev_frame[key])
    } else {
        None
    }
}

/// The cache after a line was looked for: a layout of the frame before is used in this one.
pub open spec fn after_lookup(c: LayoutCacheView, key: LineKeyView) -> LayoutCacheView {
    if !c.curr_frame.dom().contains(key) && c.prev_frame.dom().contains(key) {
        LayoutCacheView {
            prev_frame: c.prev_frame.remove(key),
            curr_frame: c.curr_frame.insert(key, c.prev_frame[key]),
        }
    } else {
        c
    }
}

/// The cache when a frame is over.
pub open spec fn frame_ended(c: LayoutCacheView) -> LayoutCacheView {
    LayoutCacheView { prev_frame: c.curr_frame, curr_frame: Map::empty() }
}

/// Looking for a line changes no answer.
pub proof fn lookup_changes_no_answer(c: LayoutCacheView, key: LineKeyView, other: LineKeyView)
    ensures
        cached(after_lookup(c, key), other) == cached(c, other),
{
}

/// A layout that is used in every frame is never worked out again; one that is not used in a frame
/// is.
pub proof fn used_layouts_last(c: LayoutCacheView, key: LineKeyView)
    ensures
        cached(frame_ended(after_lookup(c, key)), key) == cached(c, key),
        !c.curr_frame.dom().contains(key) ==> cached(frame_ended(c), key) is None,
{
}

impl TextLayoutCache {
    /// Whether the cache makes sense.
    pub closed spec fn wf(&self) -> bool {
        keys_differ(self.prev_frame@) && keys_differ(self.curr_frame@)
    }

    /// No layouts.
    pub fn new() -> (r: TextLayoutCache)
        ensures
            r.wf(),
            r@ == (LayoutCacheView { prev_frame: Map::empty(), curr_frame: Map::empty() }),
    {
        TextLayoutCache { prev_frame: Vec::new(), curr_frame: Vec::new() }
    }

    /// A frame is over.
    pub fn end_frame(&mut self)
        requires
            old(self).wf(),
        ensures
            final(self).wf(),
            final(self)@ == frame_ended(old(self)@),
    {
        let mut used: Vec<LineEntry> = Vec::new();
        std::mem::swap(&mut used, &mut self.curr_frame);
        self.prev_frame = used;
    }

    /// The layout of a line, if it is known.
    pub fn find(&mut self, key: &LineKey) -> (r: Option<u64>)
        requires
            old(self).wf(),
        ensures
            final(self).wf(),
            r == cached(old(self)@, key@),
            final(self)@ == after_lookup(old(self)@, key@),
    {
        if let Some(i) = find_entry(&self.curr_frame, key) {
            return Some(self.curr_frame[i].layout);
        }
        match find_entry(&self.prev_frame, key) {
            None => None,
            Some(i) => {
                let ghost before = self.prev_frame@;
                let entry: LineEntry = self.prev_frame.remove(i);
                let layout: u64 = entry.layout;
                let ghost current = self.curr_frame@;
                self.curr_frame.push(entry);
                proof {
                    lemma_entry_removed(before, i as int);
                    assert(self.prev_frame@ =~= before.remove(i as int));
                    assert(self.curr_frame@.drop_last() =~= current);
                    lemma_mapped(current, key@);
                    assert(keys_differ(self.curr_frame@));
                }
                Some(layout)
            },
        }
    }

    /// Takes in the layout of a line that was not known.
    pub fn insert(&mut self, key: LineKey, layout: u64)
        requires
            old(self).wf(),
            !old(self)@.curr_frame.dom().contains(key@),
        ensures
            final(self).wf(),
            final(self)@ == (LayoutCacheView {
                curr_frame: old(self)@.curr_frame.insert(key@, layout),
                ..old(self)@
            }),
    {
        let ghost current = self.curr_frame@;
        self.curr_frame.push(LineEntry { key, layout });
        proof {
            assert(self.curr_frame@.drop_last() =~= current);
            lemma_mapped(current, key@);
            assert(keys_differ(self.curr_frame@));
        }
    }
}

impl Default for TextLayoutCache {
    fn default() -> (r: Self)
        ensures
            r.wf(),
            r@ == (LayoutCacheView { prev_frame: Map::empty(), curr_frame: Map::empty() }),
    {
        TextLayoutCache::new()
    }
}

/// A glyph of a line, and the place of its character in the text.
#[derive(Clone, Copy, Debug, PartialEq, Eq, Structural)]
pub struct ShapedGlyph {
    pub id: u32,
    pub index: usize,
}

/// Glyphs that follow each other in one font.
pub struct ShapedRun {
    pub font_id: u64,
    pub glyphs: Vec<ShapedGlyph>,
}

impl ShapedRun {
    /// The glyphs of the run.
    pub fn glyphs(&self) -> (r: &[ShapedGlyph])
        ensures
            r@ == self.glyphs@,
    {
        self.glyphs.as_slice()
    }
}

/// A place in a line: a run, and a glyph of it.
#[derive(Clone, Copy, Debug, PartialEq, Eq, PartialOrd, Ord, Structural)]
pub struct ShapedBoundary {
    pub run_ix: usize,
    pub glyph_ix: usize,
}

/// A layout of this frame counts before one of the frame before, and a lookup brings it over.
pub proof fn newer_layouts_count(c: LayoutCacheView, key: LineKeyView)
    ensures
        c.curr_frame.dom().contains(key) ==> cached(c, key) == Some(c.curr_frame[key]),
        !c.curr_frame.dom().contains(key) && c.prev_frame.dom().contains(key) ==> cached(c, key)
            == Some(c.prev_frame[key]) && after_lookup(c, key).curr_frame[key] == c.prev_frame[key]
            && !after_lookup(c, key).prev_frame.dom().contains(key),
        !c.curr_frame.dom().contains(key) && !c.prev_frame.dom().contains(key) ==> cached(
            c,
            key,
        ) is None && after_lookup(c, key) == c,
        frame_ended(c).prev_frame == c.curr_frame,
        frame_ended(c).curr_frame.dom() =~= Set::empty(),
{
}

} // verus!
