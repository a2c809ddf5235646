//! Comparing the selections of an editor with those that are expected, and showing them as marks in
//! the text.
use vstd::prelude::*;
use crate::keystroke::Keystroke;
use crate::wrap_rows::begins_char;

verus! {

/// A selection: a range of offsets, and which end the cursor is at.
#[derive(Clone, Copy, Debug, PartialEq, Eq, Structural)]
pub struct Selection {
    pub start: usize,
    pub end: usize,
    pub reversed: bool,
}

/// A range of offsets.
#[derive(Clone, Copy, Debug, PartialEq, Eq, Structural)]
pub struct OffsetRange {
    pub start: usize,
    pub end: usize,
}

/// Selections by kind: empty ones, those with the cursor at the start, and those with the cursor at
/// the end.
#[derive(Debug)]
pub struct Selections {
    pub empty: Vec<OffsetRange>,
    pub reverse: Vec<OffsetRange>,
    pub forward: Vec<OffsetRange>,
}

/// The meaning of selections by kind.
#[verifier::ext_equal]
pub struct SelectionsView {
    pub empty: Seq<OffsetRange>,
    pub reverse: Seq<OffsetRange>,
    pub forward: Seq<OffsetRange>,
}

impl View for Selections {
    type V = SelectionsView;

    open spec fn view(&self) -> SelectionsView {
        SelectionsView {
            empty: self.empty@,
            reverse: self.reverse@,
            forward: self.forward@,
        }
    }
}

/// Why two lists do not have the same members: the left one lacks a member of the right one, or
/// the other way round.
#[derive(Clone, Copy, Debug, PartialEq, Eq, Structural)]
pub enum SetEqError {
    LeftMissing(OffsetRange),
    RightMissing(OffsetRange),
}

/// The kinds of selections.
#[derive(Clone, Copy, Debug, PartialEq, Eq, Structural)]
pub enum SelectionKind {
    Empty,
    Reverse,
    Forward,
}

impl Selection {
    /// What kind of selection this is.
    pub open spec fn kind(self) -> SelectionKind {
        if self.start == self.end {
            SelectionKind::Empty
        } else if self.reversed {
            SelectionKind::Reverse
        } else {
            SelectionKind::Forward
        }
    }
}

/// The ranges of the selections of one kind, in their order.
pub open spec fn ranges_of(selections: Seq<Selection>, kind: SelectionKind) -> Seq<OffsetRange>
    decreases selections.len(),
{
    if selections.len() == 0 {
        Seq::empty()
    } else {
        let before = ranges_of(selections.drop_last(), kind);
        let s = selections.last();
        if s.kind() == kind {
            before.push(OffsetRange { start: s.start, end: s.end })
        } else {
            before
        }
    }
}

/// Selections parted by kind.
pub open spec fn sorted(selections: Seq<Selection>) -> SelectionsView {
    SelectionsView {
        empty: ranges_of(selections, SelectionKind::Empty),
        reverse: ranges_of(selections, SelectionKind::Reverse),
        forward: ranges_of(selections, SelectionKind::Forward),
    }
}

/// Parts selections by kind.
pub fn sort_selections(selections: &Vec<Selection>) -> (r: Selections)
    ensures
        r@ == sorted(selections@),
{
    let mut empty: Vec<OffsetRange> = Vec::new();
    let mut reverse: Vec<OffsetRange> = Vec::new();
    let mut forward: Vec<OffsetRange> = Vec::new();
    let mut i: usize = 0;
    assert(selections@.take(0) =~= Seq::empty());
    while i < selections.len()
        invariant
            i <= selections@.len(),
            empty@ == ranges_of(selections@.take(i as int), SelectionKind::Empty),
            reverse@ == ranges_of(selections@.take(i as int), SelectionKind::Reverse),
            forward@ == ranges_of(selections@.take(i as int), SelectionKind::Forward),
        decreases selections.len() - i,
    {
        assert(selections@.take(i + 1).drop_last() =~= selections@.take(i as int));
        let s: Selection = selections[i];
        let range: OffsetRange = OffsetRange { start: s.start, end: s.end };
        if s.start == s.end {
            empty.push(range);
        } else if s.reversed {
            reverse.push(range);
        } else {
            forward.push(range);
        }
        i += 1;
    }
    assert(selections@.take(i as int) =~= selections@);
    Selections { empty, reverse, forward }
}

/// Whether a list lacks a member of another one, and which one is the first.
pub open spec fn first_lacking(from: Seq<OffsetRange>, other: Seq<OffsetRange>) -> Option<
    OffsetRange,
>
    decreases from.len(),
{
    if from.len() == 0 {
        None
    } else {
        let before = first_lacking(from.drop_last(), other);
        if before is Some {
            before
        } else if other.contains(from.last()) {
            None
        } else {
            Some(from.last())
        }
    }
}

/// Nothing is lacking exactly if every member is there.
pub proof fn nothing_lacking(from: Seq<OffsetRange>, other: Seq<OffsetRange>)
    ensures
        first_lacking(from, other) is None <==> forall|x: OffsetRange|
            #[trigger] from.contains(x) ==> other.contains(x),
        first_lacking(from, other) matches Some(x) ==> from.contains(x) && !other.contains(x),
    decreases from.len(),
{
    if from.len() > 0 {
        let rest = from.drop_last();
        nothing_lacking(rest, other);
        assert forall|x: OffsetRange| #[trigger] rest.contains(x) implies from.contains(x) by {
            let i = choose|i: int| 0 <= i < rest.len() && rest[i] == x;
            assert(from[i] == x);
        }
        assert(from[from.len() - 1] == from.last());
        if first_lacking(from, other) is None {
            assert forall|x: OffsetRange| #[trigger] from.contains(x) implies other.contains(x) by {
                let i = choose|i: int| 0 <= i < from.len() && from[i] == x;
                if i < rest.len() {
                    assert(rest[i] == x);
                    assert(rest.contains(x));
                }
            }
        } else {
            let x = first_lacking(from, other)->0;
            if first_lacking(rest, other) is Some {
                assert(rest.contains(x));
            }
            assert(from.contains(x) && !other.contains(x));
        }
    }
}

fn contains(list: &Vec<OffsetRange>, x: OffsetRange) -> (r: bool)
    ensures
        r == list@.contains(x),
{
    let mut i: usize = 0;
    while i < list.len()
        invariant
            i <= list@.len(),
            forall|k: int| 0 <= k < i ==> list@[k] != x,
        decreases list.len() - i,
    {
        if list[i] == x {
            assert(list@[i as int] == x);
            return true;
        }
        i += 1;
    }
    false
}

fn find_lacking(from: &Vec<OffsetRange>, other: &Vec<OffsetRange>) -> (r: Option<OffsetRange>)
    ensures
        r == first_lacking(from@, other@),
{
    let mut i: usize = 0;
    assert(from@.take(0) =~= Seq::empty());
    let mut found: Option<OffsetRange> = None;
    while i < from.len()
        invariant
            i <= from@.len(),
            found == first_lacking(from@.take(i as int), other@),
        decreases from.len() - i,
    {
        assert(from@.take(i + 1).drop_last() =~= from@.take(i as int));
        if found.is_none() && !contains(other, from[i]) {
            found = Some(from[i]);
        }
        i += 1;
    }
    assert(from@.take(i as int) =~= from@);
    found
}

/// Compares two lists as sets: a member of the right list that the left one lacks is told first.
pub fn set_eq(left: &Vec<OffsetRange>, right: &Vec<OffsetRange>) -> (r: Result<(), SetEqError>)
    ensures
        r == match first_lacking(right@, left@) {
            Some(x) => Err::<(), SetEqError>(SetEqError::LeftMissing(x)),
            None => match first_lacking(left@, right@) {
                Some(x) => Err(SetEqError::RightMissing(x)),
                None => Ok(()),
            },
        },
        r is Ok <==> forall|x: OffsetRange| left@.contains(x) <==> #[trigger] right@.contains(x),
{
    proof {
        nothing_lacking(right@, left@);
        nothing_lacking(left@, right@);
    }
    match find_lacking(right, left) {
        Some(x) => {
            return Err(SetEqError::LeftMissing(x));
        },
        None => {},
    }
    match find_lacking(left, right) {
        Some(x) => Err(SetEqError::RightMissing(x)),
        None => Ok(()),
    }
}

/// Whether an offset is between two characters of a text.
pub open spec fn is_boundary(text: Seq<u8>, offset: usize) -> bool {
    offset <= text.len() && (offset < text.len() ==> begins_char(text[offset as int]))
}

/// The mark at each offset: `|` for an empty selection, `{` and `]` around a reverse one, `[` and
/// `}` around a forward one. Where two marks meet, the later one in this order counts.
pub open spec fn marks_of(
    empty: Seq<OffsetRange>,
    reverse: Seq<OffsetRange>,
    forward: Seq<OffsetRange>,
) -> Map<usize, u8> {
    pair_marks(
        pair_marks(point_marks(Map::empty(), empty), reverse, 123, 93),
        forward,
        91,
        125,
    )
}

/// Marks with a mark at the start of each range.
pub open spec fn point_marks(marks: Map<usize, u8>, ranges: Seq<OffsetRange>) -> Map<usize, u8>
    decreases ranges.len(),
{
    if ranges.len() == 0 {
        marks
    } else {
        point_marks(marks, ranges.drop_last()).insert(ranges.last().start, 124)
    }
}

/// Marks with a mark at both ends of each range.
pub open spec fn pair_marks(
    marks: Map<usize, u8>,
    ranges: Seq<OffsetRange>,
    open: u8,
    close: u8,
) -> Map<usize, u8>
    decreases ranges.len(),
{
    if ranges.len() == 0 {
        marks
    } else {
        pair_marks(marks, ranges.drop_last(), open, close).insert(ranges.last().start, open).insert(
            ranges.last().end,
            close,
        )
    }
}

/// The mark at an offset, or nothing.
pub open spec fn mark_at(marks: Map<usize, u8>, offset: int) -> Seq<u8> {
    if 0 <= offset <= usize::MAX && marks.dom().contains(offset as usize) {
        seq![marks[offset as usize]]
    } else {
        Seq::empty()
    }
}

/// A text with a mark in front of each offset that has one, from `from` on.
pub open spec fn marked(text: Seq<u8>, marks: Map<usize, u8>, from: int) -> Seq<u8>
    decreases text.len() - from,
{
    if from >= text.len() {
        mark_at(marks, from)
    } else {
        mark_at(marks, from) + seq![text[from]] + marked(text, marks, from + 1)
    }
}

/// Whether the ends of ranges are in a text and between its characters.
pub open spec fn in_text(ranges: Seq<OffsetRange>, text: Seq<u8>) -> bool {
    forall|i: int|
        0 <= i < ranges.len() ==> is_boundary(text, (#[trigger] ranges[i]).start) && is_boundary(
            text,
            ranges[i].end,
        )
}

/// Marks, the one that was set last first.
struct MarkList {
    marks: Vec<(usize, u8)>,
}

impl MarkList {
    spec fn map_of(marks: Seq<(usize, u8)>) -> Map<usize, u8>
        decreases marks.len(),
    {
        if marks.len() == 0 {
            Map::empty()
        } else {
            MarkList::map_of(marks.drop_last()).insert(marks.last().0, marks.last().1)
        }
    }

    spec fn view(&self) -> Map<usize, u8> {
        MarkList::map_of(self.marks@)
    }

    fn set(&mut self, offset: usize, mark: u8)
        ensures
            final(self)@ == old(self)@.insert(offset, mark),
    {
        let ghost before = self.marks@;
        self.marks.push((offset, mark));
        assert(self.marks@.drop_last() =~= before);
    }

    fn get(&self, offset: usize) -> (r: Option<u8>)
        ensures
            r == (if self@.dom().contains(offset) {
                Some(self@[offset])
            } else {
                None
            }),
    {
        let mut i: usize = self.marks.len();
        assert(self.marks@.take(i as int) =~= self.marks@);
        while i > 0
            invariant
                i <= self.marks@.len(),
                self@.dom().contains(offset) == MarkList::map_of(
                    self.marks@.take(i as int),
                ).dom().contains(offset),
                self@.dom().contains(offset) ==> self@[offset] == MarkList::map_of(
                    self.marks@.take(i as int),
                )[offset],
            decreases i,
        {
            assert(self.marks@.take(i as int).drop_last() =~= self.marks@.take(i - 1));
            let (o, m) = self.marks[i - 1];
            if o == offset {
                return Some(m);
            }
            i -= 1;
        }
        assert(self.marks@.take(0) =~= Seq::empty());
        None
    }

    fn set_pairs(&mut self, ranges: &Vec<OffsetRange>, open: u8, close: u8)
        ensures
            final(self)@ == pair_marks(old(self)@, ranges@, open, close),
    {
        let mut i: usize = 0;
        assert(ranges@.take(0) =~= Seq::empty());
        while i < ranges.len()
            invariant
                i <= ranges@.len(),
                self@ == pair_marks(old(self)@, ranges@.take(i as int), open, close),
            decreases ranges.len() - i,
        {
            assert(ranges@.take(i + 1).drop_last() =~= ranges@.take(i as int));
            self.set(ranges[i].start, open);
            self.set(ranges[i].end, close);
            i += 1;
        }
        assert(ranges@.take(i as int) =~= ranges@);
    }
}

/// A text with marks for selections.
pub fn insert_markers(
    text: &Vec<u8>,
    empty: &Vec<OffsetRange>,
    reverse: &Vec<OffsetRange>,
    forward: &Vec<OffsetRange>,
) -> (r: Vec<u8>)
    requires
        in_text(empty@, text@),
        in_text(reverse@, text@),
        in_text(forward@, text@),
    ensures
        r@ == marked(text@, marks_of(empty@, reverse@, forward@), 0),
{
    let mut list = MarkList { marks: Vec::new() };
    let mut i: usize = 0;
    proof {
        assert(empty@.take(0) =~= Seq::empty());
        assert(list@ =~= Map::empty());
    }
    while i < empty.len()
        invariant
            i <= empty@.len(),
            list@ == point_marks(Map::empty(), empty@.take(i as int)),
        decreases empty.len() - i,
    {
        assert(empty@.take(i + 1).drop_last() =~= empty@.take(i as int));
        list.set(empty[i].start, 124);
        i += 1;
    }
    assert(empty@.take(i as int) =~= empty@);
    list.set_pairs(reverse, 123, 93);
    list.set_pairs(forward, 91, 125);
    let ghost marks = list@;
    let mut r: Vec<u8> = Vec::new();
    let mut at: usize = 0;
    assert(r@ + marked(text@, marks, 0) =~= marked(text@, marks, 0));
    while at < text.len()
        invariant
            at <= text@.len(),
            marks == list@,
            r@ + marked(text@, marks, at as int) == marked(text@, marks, 0),
        decreases text.len() - at,
    {
        let ghost before = r@;
        if let Some(mark) = list.get(at) {
            r.push(mark);
        }
        r.push(text[at]);
        assert(r@ + marked(text@, marks, at + 1) =~= before + marked(text@, marks, at as int));
        at += 1;
    }
    let ghost before = r@;
    if let Some(mark) = list.get(at) {
        r.push(mark);
    }
    assert(r@ =~= before + mark_at(marks, at as int));
    r
}

/// What is wrong with the selections of an editor: one too many or one too few, the text with that
/// one marked, and all selections that were expected and that are there.
#[derive(Debug)]
pub struct SelectionMismatch {
    pub extra: bool,
    pub location_text: Vec<u8>,
    pub asserted_selections: Vec<u8>,
    pub actual_selections: Vec<u8>,
}

/// A text with one selection marked: a bar stands for an empty one, and any other is between two
/// brackets. The mark in front moves the end of the selection by one.
pub open spec fn located(text: Seq<u8>, range: OffsetRange, kind: SelectionKind) -> Seq<u8> {
    match kind {
        SelectionKind::Empty => text.insert(range.start as int, 124),
        SelectionKind::Reverse => text.insert(range.start as int, 123).insert(range.end + 1, 93),
        SelectionKind::Forward => text.insert(range.start as int, 91).insert(range.end + 1, 125),
    }
}

fn locate(text: &Vec<u8>, range: OffsetRange, kind: SelectionKind) -> (r: Vec<u8>)
    requires
        range.start <= text@.len(),
        range.end <= text@.len(),
    ensures
        r@ == located(text@, range, kind),
{
    let mut r: Vec<u8> = text.clone();
    match kind {
        SelectionKind::Empty => {
            r.insert(range.start, 124);
        },
        SelectionKind::Reverse => {
            r.insert(range.start, 123);
            let len: usize = r.len();
            assert(range.end < len);
            r.insert(range.end + 1, 93);
        },
        SelectionKind::Forward => {
            r.insert(range.start, 91);
            let len: usize = r.len();
            assert(range.end < len);
            r.insert(range.end + 1, 125);
        },
    }
    r
}

/// The first kind of selections in which two lists differ, and how.
pub open spec fn difference(expected: SelectionsView, actual: SelectionsView) -> Option<
    (SelectionKind, SetEqError),
> {
    if let Some(e) = set_difference(expected.empty, actual.empty) {
        Some((SelectionKind::Empty, e))
    } else if let Some(e) = set_difference(expected.reverse, actual.reverse) {
        Some((SelectionKind::Reverse, e))
    } else if let Some(e) = set_difference(expected.forward, actual.forward) {
        Some((SelectionKind::Forward, e))
    } else {
        None
    }
}

/// How two lists differ as sets.
pub open spec fn set_difference(left: Seq<OffsetRange>, right: Seq<OffsetRange>) -> Option<
    SetEqError,
> {
    match first_lacking(right, left) {
        Some(x) => Some(SetEqError::LeftMissing(x)),
        None => match first_lacking(left, right) {
            Some(x) => Some(SetEqError::RightMissing(x)),
            None => None,
        },
    }
}

fn find_difference(expected: &Selections, actual: &Selections) -> (r: Option<
    (SelectionKind, SetEqError),
>)
    ensures
        r == difference(expected@, actual@),
{
    match set_eq(&expected.empty, &actual.empty) {
        Err(e) => {
            return Some((SelectionKind::Empty, e));
        },
        Ok(_) => {},
    }
    match set_eq(&expected.reverse, &actual.reverse) {
        Err(e) => {
            return Some((SelectionKind::Reverse, e));
        },
        Ok(_) => {},
    }
    match set_eq(&expected.forward, &actual.forward) {
        Err(e) => Some((SelectionKind::Forward, e)),
        Ok(_) => None,
    }
}

/// Whether all selections are in a text.
pub open spec fn all_in_text(s: SelectionsView, text: Seq<u8>) -> bool {
    in_text(s.empty, text) && in_text(s.reverse, text) && in_text(s.forward, text)
}

/// The text with all selections marked.
pub open spec fn all_marked(s: SelectionsView, text: Seq<u8>) -> Seq<u8> {
    marked(text, marks_of(s.empty, s.reverse, s.forward), 0)
}

/// Whether a mismatch tells of the first difference between two lists of selections.
pub open spec fn explains(
    m: SelectionMismatch,
    text: Seq<u8>,
    expected: SelectionsView,
    actual: SelectionsView,
    asserted_text: Option<Vec<u8>>,
) -> bool {
    &&& difference(expected, actual) matches Some((kind, error))
    &&& m.extra == (error is LeftMissing)
    &&& m.location_text@ == located(
        text,
        match error {
            SetEqError::LeftMissing(x) => x,
            SetEqError::RightMissing(x) => x,
        },
        kind,
    )
    &&& m.asserted_selections@ == match asserted_text {
        Some(t) => t@,
        None => all_marked(expected, text),
    }
    &&& m.actual_selections@ == all_marked(actual, text)
}

/// Compares the selections of an editor with those that are expected. `asserted_text` is the text
/// in which the latter were marked, if they were written that way.
pub fn assert_selections(
    text: &Vec<u8>,
    expected: &Selections,
    actual: &Selections,
    asserted_text: Option<Vec<u8>>,
) -> (r: Result<(), SelectionMismatch>)
    requires
        all_in_text(expected@, text@),
        all_in_text(actual@, text@),
    ensures
        match r {
            Ok(_) => difference(expected@, actual@) is None,
            Err(m) => explains(m, text@, expected@, actual@, asserted_text),
        },
{
    match find_difference(expected, actual) {
        None => Ok(()),
        Some((kind, error)) => {
            let asserted_selections: Vec<u8> = match asserted_text {
                Some(t) => t,
                None => insert_markers(
                    text,
                    &expected.empty,
                    &expected.reverse,
                    &expected.forward,
                ),
            };
            let actual_selections: Vec<u8> = insert_markers(
                text,
                &actual.empty,
                &actual.reverse,
                &actual.forward,
            );
            proof {
                nothing_lacking(expected.empty@, actual.empty@);
                nothing_lacking(actual.empty@, expected.empty@);
                nothing_lacking(expected.reverse@, actual.reverse@);
                nothing_lacking(actual.reverse@, expected.reverse@);
                nothing_lacking(expected.forward@, actual.forward@);
                nothing_lacking(actual.forward@, expected.forward@);
            }
            match error {
                SetEqError::LeftMissing(x) => Err(
                    SelectionMismatch {
                        extra: true,
                        location_text: locate(text, x, kind),
                        asserted_selections,
                        actual_selections,
                    },
                ),
                SetEqError::RightMissing(x) => Err(
                    SelectionMismatch {
                        extra: false,
                        location_text: locate(text, x, kind),
                        asserted_selections,
                        actual_selections,
                    },
                ),
            }
        },
    }
}

/// Compares the selections of an editor with a list of selections.
pub fn assert_editor_selections(
    text: &Vec<u8>,
    expected: &Vec<Selection>,
    actual: &Vec<Selection>,
) -> (r: Result<(), SelectionMismatch>)
    requires
        forall|i: int|
            0 <= i < expected@.len() ==> is_boundary(text@, (#[trigger] expected@[i]).start)
                && is_boundary(text@, expected@[i].end),
        forall|i: int|
            0 <= i < actual@.len() ==> is_boundary(text@, (#[trigger] actual@[i]).start)
                && is_boundary(text@, actual@[i].end),
    ensures
        r is Ok <==> same_selections(expected@, actual@),
        r matches Err(m) ==> explains(m, text@, sorted(expected@), sorted(actual@), None),
{
    let e: Selections = sort_selections(expected);
    let a: Selections = sort_selections(actual);
    proof {
        ranges_in_text(expected@, text@, SelectionKind::Empty);
        ranges_in_text(expected@, text@, SelectionKind::Reverse);
        ranges_in_text(expected@, text@, SelectionKind::Forward);
        ranges_in_text(actual@, text@, SelectionKind::Empty);
        ranges_in_text(actual@, text@, SelectionKind::Reverse);
        ranges_in_text(actual@, text@, SelectionKind::Forward);
        lemma_set_difference(e.empty@, a.empty@);
        lemma_set_difference(e.reverse@, a.reverse@);
        lemma_set_difference(e.forward@, a.forward@);
    }
    assert_selections(text, &e, &a, None)
}

impl SelectionMismatch {
    /// What is told above the text with the selection marked.
    pub fn heading(&self) -> (r: &'static str)
        ensures
            r@ == (if self.extra {
                "Editor has extra selection\nExtra Selection Location:"@
            } else {
                "Editor is missing empty selection\nMissing Selection Location:"@
            }),
    {
        if self.extra {
            "Editor has extra selection\nExtra Selection Location:"
        } else {
            "Editor is missing empty selection\nMissing Selection Location:"
        }
    }
}

/// What is wrong with an editor: its text, or its selections.
#[derive(Debug)]
pub enum StateMismatch {
    Text,
    Selections(SelectionMismatch),
}

/// Compares the text and the selections of an editor with those that were written as `marked_text`.
/// Without its marks that is `unmarked_text`.
pub fn assert_editor_state(
    marked_text: Vec<u8>,
    unmarked_text: &Vec<u8>,
    expected: &Selections,
    buffer_text: &Vec<u8>,
    actual: &Selections,
) -> (r: Result<(), StateMismatch>)
    requires
        all_in_text(expected@, unmarked_text@),
        all_in_text(actual@, buffer_text@),
    ensures
        match r {
            Ok(_) => buffer_text@ == unmarked_text@ && difference(expected@, actual@) is None,
            Err(StateMismatch::Text) => buffer_text@ != unmarked_text@,
            Err(StateMismatch::Selections(m)) => {
                &&& buffer_text@ == unmarked_text@
                &&& explains(m, buffer_text@, expected@, actual@, Some(marked_text))
            },
        },
{
    if !same_bytes(buffer_text, unmarked_text) {
        return Err(StateMismatch::Text);
    }
    match assert_selections(buffer_text, expected, actual, Some(marked_text)) {
        Ok(_) => Ok(()),
        Err(m) => Err(StateMismatch::Selections(m)),
    }
}

/// What is wrong with the highlights of an editor: its text, or the ranges that are highlighted.
#[derive(Clone, Copy, Debug, PartialEq, Eq, Structural)]
pub enum HighlightMismatch {
    Text,
    Ranges(SetEqError),
}

/// Compares the highlighted ranges of an editor with those that were marked in a text, which is
/// `unmarked_text` without its marks.
pub fn assert_highlights(
    unmarked_text: &Vec<u8>,
    asserted: &Vec<OffsetRange>,
    buffer_text: &Vec<u8>,
    actual: &Vec<OffsetRange>,
) -> (r: Result<(), HighlightMismatch>)
    ensures
        r == (if unmarked_text@ != buffer_text@ {
            Err::<(), HighlightMismatch>(HighlightMismatch::Text)
        } else {
            match set_difference(asserted@, actual@) {
                Some(e) => Err(HighlightMismatch::Ranges(e)),
                None => Ok(()),
            }
        }),
{
    if !same_bytes(unmarked_text, buffer_text) {
        return Err(HighlightMismatch::Text);
    }
    match set_eq(asserted, actual) {
        Ok(_) => Ok(()),
        Err(e) => Err(HighlightMismatch::Ranges(e)),
    }
}

fn same_bytes(a: &Vec<u8>, b: &Vec<u8>) -> (r: bool)
    ensures
        r == (a@ == b@),
{
    if a.len() != b.len() {
        return false;
    }
    let mut i: usize = 0;
    while i < a.len()
        invariant
            i <= a@.len(),
            a@.len() == b@.len(),
            a@.take(i as int) == b@.take(i as int),
        decreases a.len() - i,
    {
        if a[i] != b[i] {
            assert(a@[i as int] != b@[i as int]);
            return false;
        }
        i += 1;
    }
    assert(a@.take(i as int) =~= a@);
    assert(b@.take(i as int) =~= b@);
    true
}

/// Whether two lists of selections have the same ranges of each kind.
pub open spec fn same_selections(a: Seq<Selection>, b: Seq<Selection>) -> bool {
    &&& same_ranges(ranges_of(a, SelectionKind::Empty), ranges_of(b, SelectionKind::Empty))
    &&& same_ranges(ranges_of(a, SelectionKind::Reverse), ranges_of(b, SelectionKind::Reverse))
    &&& same_ranges(ranges_of(a, SelectionKind::Forward), ranges_of(b, SelectionKind::Forward))
}

/// Whether two lists have the same members.
pub open spec fn same_ranges(a: Seq<OffsetRange>, b: Seq<OffsetRange>) -> bool {
    forall|x: OffsetRange| a.contains(x) <==> #[trigger] b.contains(x)
}

proof fn lemma_set_difference(a: Seq<OffsetRange>, b: Seq<OffsetRange>)
    ensures
        set_difference(a, b) is None <==> same_ranges(a, b),
{
    nothing_lacking(a, b);
    nothing_lacking(b, a);
}

/// Selections in a text have their ranges in it.
pub proof fn ranges_in_text(selections: Seq<Selection>, text: Seq<u8>, kind: SelectionKind)
    requires
        forall|i: int|
            0 <= i < selections.len() ==> is_boundary(text, (#[trigger] selections[i]).start)
                && is_boundary(text, selections[i].end),
    ensures
        in_text(ranges_of(selections, kind), text),
    decreases selections.len(),
{
    if selections.len() > 0 {
        assert forall|i: int| 0 <= i < selections.drop_last().len() implies is_boundary(
            text,
            (#[trigger] selections.drop_last()[i]).start,
        ) && is_boundary(text, selections.drop_last()[i].end) by {
            assert(selections.drop_last()[i] == selections[i]);
        }
        ranges_in_text(selections.drop_last(), text, kind);
        assert(is_boundary(text, selections[selections.len() - 1].start));
    }
}

/// The text that a key enters: none if it is pressed with a modifier.
pub fn keystroke_input(keystroke: &Keystroke) -> (r: Option<String>)
    ensures
        r is Some <==> !(keystroke.ctrl || keystroke.alt || keystroke.cmd || keystroke.shift),
        r matches Some(text) ==> text@ == keystroke.key@,
{
    if keystroke.modified() {
        None
    } else {
        Some(keystroke.key.clone())
    }
}

/// The name of a file in a language: that of its first suffix, or a text file.
pub fn test_file_name(path_suffixes: &Vec<String>) -> (r: String)
    ensures
        r@ == "file."@ + (if path_suffixes@.len() > 0 {
            path_suffixes@[0]@
        } else {
            "txt"@
        }),
{
    let mut r: String = String::new();
    r.append("file.");
    if path_suffixes.len() > 0 {
        r.append(path_suffixes[0].as_str());
    } else {
        r.append("txt");
    }
    r
}

/// A selection is empty, or it was made backward, or forward.
pub proof fn selections_have_one_kind(s: Selection)
    ensures
        s.kind() is Empty <==> s.start == s.end,
        s.kind() is Reverse <==> s.start != s.end && s.reversed,
        s.kind() is Forward <==> s.start != s.end && !s.reversed,
{
}

/// The ranges of a kind are kept in order, piece by piece.
pub proof fn ranges_are_sorted_piece_by_piece(
    front: Seq<Selection>,
    back: Seq<Selection>,
    kind: SelectionKind,
)
    ensures
        ranges_of(front + back, kind) == ranges_of(front, kind) + ranges_of(back, kind),
    decreases back.len(),
{
    if back.len() == 0 {
        assert(front + back == front);
    } else {
        ranges_are_sorted_piece_by_piece(front, back.drop_last(), kind);
        assert((front + back).drop_last() == front + back.drop_last());
    }
}

/// A selection is listed once, under its kind, with its ends.
pub proof fn selections_are_listed_under_their_kind(s: Selection)
    ensures
        ({
            let all = sorted(seq![s]);
            let range = OffsetRange { start: s.start, end: s.end };
            &&& all.empty == (if s.start == s.end {
                seq![range]
            } else {
                Seq::empty()
            })
            &&& all.reverse == (if s.start != s.end && s.reversed {
                seq![range]
            } else {
                Seq::empty()
            })
            &&& all.forward == (if s.start != s.end && !s.reversed {
                seq![range]
            } else {
                Seq::empty()
            })
        }),
{
    assert(seq![s].drop_last() == Seq::<Selection>::empty());
    reveal_with_fuel(ranges_of, 2);
}

/// What is lacking is named by the first range that is not there.
pub proof fn first_lacking_is_named(from: Seq<OffsetRange>, other: Seq<OffsetRange>, i: int)
    requires
        0 <= i < from.len(),
        !other.contains(from[i]),
        forall|j: int| 0 <= j < i ==> other.contains(#[trigger] from[j]),
    ensures
        first_lacking(from, other) == Some(from[i]),
    decreases from.len(),
{
    nothing_lacking(from.drop_last(), other);
    if i < from.len() - 1 {
        first_lacking_is_named(from.drop_last(), other, i);
    } else if first_lacking(from.drop_last(), other) is Some {
        let x = first_lacking(from.drop_last(), other)->0;
        let j = choose|j: int| 0 <= j < from.drop_last().len() && from.drop_last()[j] == x;
        assert(other.contains(from[j]));
    }
}

/// Selections differ if some range is among those of a kind on one side alone. A range that was not
/// expected is told before one that is missing, and a kind is told only if the kinds before it agree.
pub proof fn differences_are_told(expected: SelectionsView, actual: SelectionsView)
    ensures
        difference(expected, actual) is None <==> same_ranges(expected.empty, actual.empty)
            && same_ranges(expected.reverse, actual.reverse) && same_ranges(
            expected.forward,
            actual.forward,
        ),
        difference(expected, actual) matches Some((kind, error)) ==> {
            let (wanted, found) = match kind {
                SelectionKind::Empty => (expected.empty, actual.empty),
                SelectionKind::Reverse => (expected.reverse, actual.reverse),
                SelectionKind::Forward => (expected.forward, actual.forward),
            };
            &&& error matches SetEqError::LeftMissing(x) ==> found.contains(x) && !wanted.contains(x)
            &&& error matches SetEqError::RightMissing(x) ==> wanted.contains(x) && !found.contains(x)
                && forall|y: OffsetRange| #[trigger] found.contains(y) ==> wanted.contains(y)
            &&& !(kind is Empty) ==> same_ranges(expected.empty, actual.empty)
            &&& kind is Forward ==> same_ranges(expected.reverse, actual.reverse)
        },
{
    lemma_set_difference(expected.empty, actual.empty);
    lemma_set_difference(expected.reverse, actual.reverse);
    lemma_set_difference(expected.forward, actual.forward);
    nothing_lacking(expected.empty, actual.empty);
    nothing_lacking(actual.empty, expected.empty);
    nothing_lacking(expected.reverse, actual.reverse);
    nothing_lacking(actual.reverse, expected.reverse);
    nothing_lacking(expected.forward, actual.forward);
    nothing_lacking(actual.forward, expected.forward);
}

/// Whether a range begins or ends at an offset.
pub open spec fn touches(range: OffsetRange, offset: usize) -> bool {
    range.start == offset || range.end == offset
}

proof fn lemma_pairs_elsewhere(
    marks: Map<usize, u8>,
    ranges: Seq<OffsetRange>,
    open: u8,
    close: u8,
    offset: usize,
)
    requires
        forall|j: int| 0 <= j < ranges.len() ==> !touches(#[trigger] ranges[j], offset),
    ensures
        pair_marks(marks, ranges, open, close).dom().contains(offset) <==> marks.dom().contains(offset),
        marks.dom().contains(offset) ==> pair_marks(marks, ranges, open, close)[offset]
            == marks[offset],
    decreases ranges.len(),
{
    if ranges.len() > 0 {
        assert(!touches(ranges[ranges.len() - 1], offset));
        assert forall|j: int| 0 <= j < ranges.drop_last().len() implies !touches(
            #[trigger] ranges.drop_last()[j],
            offset,
        ) by {
            assert(!touches(ranges[j], offset));
        }
        lemma_pairs_elsewhere(marks, ranges.drop_last(), open, close, offset);
    }
}

proof fn lemma_pair_marked(
    marks: Map<usize, u8>,
    ranges: Seq<OffsetRange>,
    open: u8,
    close: u8,
    i: int,
)
    requires
        0 <= i < ranges.len(),
        ranges[i].start != ranges[i].end,
        forall|j: int|
            i < j < ranges.len() ==> !touches(#[trigger] ranges[j], ranges[i].start) && !touches(
                ranges[j],
                ranges[i].end,
            ),
    ensures
        ({
            let after = pair_marks(marks, ranges, open, close);
            &&& after.dom().contains(ranges[i].start) && after[ranges[i].start] == open
            &&& after.dom().contains(ranges[i].end) && after[ranges[i].end] == close
        }),
    decreases ranges.len(),
{
    if i < ranges.len() - 1 {
        let last = ranges[ranges.len() - 1];
        assert(!touches(last, ranges[i].start) && !touches(last, ranges[i].end));
        assert(ranges.drop_last()[i] == ranges[i]);
        assert forall|j: int| i < j < ranges.drop_last().len() implies !touches(
            #[trigger] ranges.drop_last()[j],
            ranges.drop_last()[i].start,
        ) && !touches(ranges.drop_last()[j], ranges.drop_last()[i].end) by {
            assert(!touches(ranges[j], ranges[i].start));
        }
        lemma_pair_marked(marks, ranges.drop_last(), open, close, i);
    }
}

/// A selection made forward begins with `[` and ends with `}`, where no later one begins or ends.
pub proof fn forward_selections_are_marked(
    empty: Seq<OffsetRange>,
    reverse: Seq<OffsetRange>,
    forward: Seq<OffsetRange>,
    i: int,
)
    requires
        0 <= i < forward.len(),
        forward[i].start != forward[i].end,
        forall|j: int|
            i < j < forward.len() ==> !touches(#[trigger] forward[j], forward[i].start) && !touches(
                forward[j],
                forward[i].end,
            ),
    ensures
        ({
            let marks = marks_of(empty, reverse, forward);
            &&& marks.dom().contains(forward[i].start) && marks[forward[i].start] as char == '['
            &&& marks.dom().contains(forward[i].end) && marks[forward[i].end] as char == '}'
        }),
{
    lemma_pair_marked(
        pair_marks(point_marks(Map::empty(), empty), reverse, 123, 93),
        forward,
        91,
        125,
        i,
    );
}

/// A selection made backward begins with `{` and ends with `]`, where no later one begins or ends.
pub proof fn reverse_selections_are_marked(
    empty: Seq<OffsetRange>,
    reverse: Seq<OffsetRange>,
    forward: Seq<OffsetRange>,
    i: int,
)
    requires
        0 <= i < reverse.len(),
        reverse[i].start != reverse[i].end,
        forall|j: int|
            i < j < reverse.len() ==> !touches(#[trigger] reverse[j], reverse[i].start) && !touches(
                reverse[j],
                reverse[i].end,
            ),
        forall|j: int|
            0 <= j < forward.len() ==> !touches(#[trigger] forward[j], reverse[i].start) && !touches(
                forward[j],
                reverse[i].end,
            ),
    ensures
        ({
            let marks = marks_of(empty, reverse, forward);
            &&& marks.dom().contains(reverse[i].start) && marks[reverse[i].start] as char == '{'
            &&& marks.dom().contains(reverse[i].end) && marks[reverse[i].end] as char == ']'
        }),
{
    let points = point_marks(Map::empty(), empty);
    lemma_pair_marked(points, reverse, 123, 93, i);
    let before = pair_marks(points, reverse, 123, 93);
    lemma_pairs_elsewhere(before, forward, 91, 125, reverse[i].start);
    lemma_pairs_elsewhere(before, forward, 91, 125, reverse[i].end);
}

proof fn lemma_point_marked(ranges: Seq<OffsetRange>, offset: usize)
    ensures
        point_marks(Map::empty(), ranges).dom().contains(offset) <==> exists|i: int|
            0 <= i < ranges.len() && (#[trigger] ranges[i]).start == offset,
        point_marks(Map::empty(), ranges).dom().contains(offset) ==> point_marks(
            Map::empty(),
            ranges,
        )[offset] == 124,
    decreases ranges.len(),
{
    if ranges.len() > 0 {
        lemma_point_marked(ranges.drop_last(), offset);
        if exists|i: int| 0 <= i < ranges.len() && (#[trigger] ranges[i]).start == offset {
            let i = choose|i: int| 0 <= i < ranges.len() && (#[trigger] ranges[i]).start == offset;
            if i < ranges.len() - 1 {
                assert(ranges.drop_last()[i].start == offset);
            }
        }
        if ranges.last().start == offset {
            assert(ranges[ranges.len() - 1].start == offset);
        }
        if exists|i: int|
            0 <= i < ranges.drop_last().len() && (#[trigger] ranges.drop_last()[i]).start == offset {
            let i = choose|i: int|
                0 <= i < ranges.drop_last().len() && (#[trigger] ranges.drop_last()[i]).start
                    == offset;
            assert(ranges[i].start == offset);
        }
    }
}

/// A cursor is a `|`, where nothing is selected; a place without a cursor or the end of a selection
/// has no mark.
pub proof fn cursors_are_marked(
    empty: Seq<OffsetRange>,
    reverse: Seq<OffsetRange>,
    forward: Seq<OffsetRange>,
    offset: usize,
)
    requires
        forall|j: int| 0 <= j < reverse.len() ==> !touches(#[trigger] reverse[j], offset),
        forall|j: int| 0 <= j < forward.len() ==> !touches(#[trigger] forward[j], offset),
    ensures
        marks_of(empty, reverse, forward).dom().contains(offset) <==> exists|i: int|
            0 <= i < empty.len() && (#[trigger] empty[i]).start == offset,
        marks_of(empty, reverse, forward).dom().contains(offset) ==> marks_of(
            empty,
            reverse,
            forward,
        )[offset] as char == '|',
{
    let points = point_marks(Map::empty(), empty);
    lemma_point_marked(empty, offset);
    lemma_pairs_elsewhere(points, reverse, 123, 93, offset);
    lemma_pairs_elsewhere(pair_marks(points, reverse, 123, 93), forward, 91, 125, offset);
}

/// Marks stand in front of the byte at their offset, or behind the text, and the text stays.
pub proof fn marks_stand_in_the_text(text: Seq<u8>, marks: Map<usize, u8>, from: usize)
    requires
        from <= text.len(),
    ensures
        ({
            let m = marked(text, marks, from as int);
            let behind = marked(text, marks, from + 1);
            &&& from < text.len() && marks.dom().contains(from) ==> m == seq![
                marks[from],
                text[from as int],
            ] + behind
            &&& from < text.len() && !marks.dom().contains(from) ==> m == seq![text[from as int]]
                + behind
            &&& from == text.len() && marks.dom().contains(from) ==> m == seq![marks[from]]
            &&& from == text.len() && !marks.dom().contains(from) ==> m.len() == 0
        }),
{
}

/// A range is located in a text by the marks of its kind; without them it is the text again.
pub proof fn located_text_has_its_marks(text: Seq<u8>, range: OffsetRange, kind: SelectionKind)
    requires
        range.start <= range.end <= text.len(),
    ensures
        ({
            let l = located(text, range, kind);
            &&& kind is Empty ==> l[range.start as int] as char == '|' && l.remove(range.start as int)
                == text
            &&& kind is Reverse ==> l[range.start as int] as char == '{' && l[range.end + 1] as char
                == ']'
            &&& kind is Forward ==> l[range.start as int] as char == '[' && l[range.end + 1] as char
                == '}'
            &&& !(kind is Empty) ==> l.remove(range.end + 1).remove(range.start as int) == text
        }),
{
}

proof fn lemma_unmarked(text: Seq<u8>, marks: Map<usize, u8>, from: int, to: int)
    requires
        0 <= from <= to <= text.len(),
        forall|o: usize| from <= o < to ==> !#[trigger] marks.dom().contains(o),
    ensures
        marked(text, marks, from) == text.subrange(from, to) + marked(text, marks, to),
    decreases to - from,
{
    if from < to {
        lemma_unmarked(text, marks, from + 1, to);
        if from <= usize::MAX {
            assert(!marks.dom().contains(from as usize));
        }
        assert(mark_at(marks, from) == Seq::<u8>::empty());
        assert(text.subrange(from, to) == seq![text[from]] + text.subrange(from + 1, to));
        assert(marked(text, marks, from) =~= text.subrange(from, to) + marked(text, marks, to));
    } else {
        assert(text.subrange(from, to) == Seq::<u8>::empty());
        assert(Seq::<u8>::empty() + marked(text, marks, to) =~= marked(text, marks, to));
    }
}

proof fn lemma_one_mark(text: Seq<u8>, at: usize, mark: u8)
    requires
        at <= text.len(),
    ensures
        marked(text, map![at => mark], 0) == text.insert(at as int, mark),
{
    let marks = map![at => mark];
    let (a, n) = (at as int, text.len() as int);
    lemma_unmarked(text, marks, 0, a);
    assert(mark_at(marks, a) == seq![mark]);
    if a < n {
        lemma_unmarked(text, marks, a + 1, n);
        assert(mark_at(marks, n) == Seq::<u8>::empty());
        assert(marked(text, marks, a + 1) =~= text.subrange(a + 1, n));
    }
    assert(marked(text, marks, 0) =~= text.insert(a, mark));
}

proof fn lemma_two_marks(text: Seq<u8>, start: usize, end: usize, open: u8, close: u8)
    requires
        start < end <= text.len(),
    ensures
        marked(text, map![start => open, end => close], 0) == text.insert(
            start as int,
            open,
        ).insert(end + 1, close),
{
    let marks = map![start => open, end => close];
    let (a, b, n) = (start as int, end as int, text.len() as int);
    lemma_unmarked(text, marks, 0, a);
    lemma_unmarked(text, marks, a + 1, b);
    assert(mark_at(marks, a) == seq![open]);
    assert(mark_at(marks, b) == seq![close]);
    if b < n {
        lemma_unmarked(text, marks, b + 1, n);
        assert(mark_at(marks, n) == Seq::<u8>::empty());
        assert(marked(text, marks, b + 1) =~= text.subrange(b + 1, n));
        assert(marked(text, marks, b) =~= seq![close] + text.subrange(b, n));
    } else {
        assert(marked(text, marks, b) =~= seq![close] + text.subrange(b, n));
    }
    assert(marked(text, marks, a) =~= seq![open] + text.subrange(a, b) + marked(text, marks, b));
    assert(marked(text, marks, 0) =~= text.insert(a, open).insert(b + 1, close));
}

/// A text with one selection shows it where it is located.
pub proof fn single_selections_are_shown(text: Seq<u8>, s: Selection)
    requires
        s.start <= s.end <= text.len(),
    ensures
        all_marked(sorted(seq![s]), text) == located(
            text,
            OffsetRange { start: s.start, end: s.end },
            s.kind(),
        ),
{
    selections_are_listed_under_their_kind(s);
    let all = sorted(seq![s]);
    let range = OffsetRange { start: s.start, end: s.end };
    let marks = marks_of(all.empty, all.reverse, all.forward);
    assert(seq![range].drop_last() == Seq::<OffsetRange>::empty());
    reveal_with_fuel(point_marks, 2);
    reveal_with_fuel(pair_marks, 2);
    if s.start == s.end {
        assert(marks =~= map![s.start => 124u8]);
        lemma_one_mark(text, s.start, 124);
    } else if s.reversed {
        assert(marks =~= map![s.start => 123u8, s.end => 93u8]);
        lemma_two_marks(text, s.start, s.end, 123, 93);
    } else {
        assert(marks =~= map![s.start => 91u8, s.end => 125u8]);
        lemma_two_marks(text, s.start, s.end, 91, 125);
    }
}

/// What is explained is a difference: a range that was found and not expected, or the other way round.
pub proof fn explanations_name_a_difference(
    m: SelectionMismatch,
    text: Seq<u8>,
    expected: SelectionsView,
    actual: SelectionsView,
    asserted_text: Option<Vec<u8>>,
)
    requires
        explains(m, text, expected, actual, asserted_text),
    ensures
        !(same_ranges(expected.empty, actual.empty) && same_ranges(expected.reverse, actual.reverse)
            && same_ranges(expected.forward, actual.forward)),
        m.extra ==> exists|x: OffsetRange, kind: SelectionKind|
            m.location_text@ == #[trigger] located(text, x, kind) && (kind is Empty
                && actual.empty.contains(x) && !expected.empty.contains(x) || kind is Reverse
                && actual.reverse.contains(x) && !expected.reverse.contains(x) || kind is Forward
                && actual.forward.contains(x) && !expected.forward.contains(x)),
        !m.extra ==> exists|x: OffsetRange, kind: SelectionKind|
            m.location_text@ == #[trigger] located(text, x, kind) && (kind is Empty
                && expected.empty.contains(x) && !actual.empty.contains(x) || kind is Reverse
                && expected.reverse.contains(x) && !actual.reverse.contains(x) || kind is Forward
                && expected.forward.contains(x) && !actual.forward.contains(x)),
        asserted_text matches Some(t) ==> m.asserted_selections@ == t@,
{
    differences_are_told(expected, actual);
}

/// Ranges are the same if neither list has one that the other lacks, in whatever order and however
/// often.
pub proof fn same_ranges_have_the_same_members(a: Seq<OffsetRange>, b: Seq<OffsetRange>)
    ensures
        same_ranges(a, b) <==> a.to_set() =~= b.to_set(),
{
    assert forall|x: OffsetRange| a.to_set().contains(x) == #[trigger] b.to_set().contains(x) implies
        a.contains(x) == b.contains(x) by {}
    if a.to_set() =~= b.to_set() {
        assert forall|x: OffsetRange| a.contains(x) <==> #[trigger] b.contains(x) by {
            assert(a.to_set().contains(x) == b.to_set().contains(x));
        }
    }
    if same_ranges(a, b) {
        assert forall|x: OffsetRange| a.to_set().contains(x) <==> b.to_set().contains(x) by {
            assert(a.contains(x) <==> b.contains(x));
        }
    }
}

} // verus!
