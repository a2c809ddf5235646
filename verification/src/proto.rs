//! Operations on a buffer as messages between peers, and back.
use vstd::prelude::*;
use crate::point::Bias;

verus! {

/// A moment in the count of one replica.
#[derive(Clone, Copy, Debug, PartialEq, Eq, Structural)]
pub struct Local {
    pub replica_id: u16,
    pub value: u32,
}

/// A moment in the common count of all replicas.
#[derive(Clone, Copy, Debug, PartialEq, Eq, Structural)]
pub struct Lamport {
    pub replica_id: u16,
    pub value: u32,
}

/// When text was inserted: by which replica, and at which moment of either count.
#[derive(Clone, Copy, Debug, PartialEq, Eq, Structural)]
pub struct InsertionTimestamp {
    pub replica_id: u16,
    pub local: u32,
    pub lamport: u32,
}

/// A range of offsets in all the text that ever was.
#[derive(Clone, Copy, Debug, PartialEq, Eq, Structural)]
pub struct FullRange {
    pub start: usize,
    pub end: usize,
}

/// A place in a buffer: an offset in the text that was inserted at a moment.
#[derive(Clone, Copy, Debug, PartialEq, Eq, Structural)]
pub struct BufferAnchor {
    pub timestamp: Local,
    pub offset: usize,
    pub bias: Bias,
}

/// A replacement of text.
#[derive(Debug)]
pub struct EditOperation {
    pub timestamp: InsertionTimestamp,
    pub version: Vec<Local>,
    pub ranges: Vec<FullRange>,
    pub new_text: Option<String>,
}

/// A change of how often edits have been undone.
#[derive(Debug)]
pub struct UndoOperation {
    pub id: Local,
    pub counts: Vec<(Local, u32)>,
    pub ranges: Vec<FullRange>,
    pub version: Vec<Local>,
}

/// A selection of a replica.
#[derive(Clone, Copy, Debug, PartialEq, Eq, Structural)]
pub struct BufferSelection {
    pub id: usize,
    pub start: BufferAnchor,
    pub end: BufferAnchor,
    pub reversed: bool,
}

/// How grave a diagnostic is.
#[derive(Clone, Copy, Debug, PartialEq, Eq, Structural)]
pub enum DiagnosticSeverity {
    Error,
    Warning,
    Information,
    Hint,
    Other,
}

/// Something that a tool has to say about a range of a buffer.
#[derive(Debug)]
pub struct DiagnosticEntry {
    pub start: BufferAnchor,
    pub end: BufferAnchor,
    pub severity: DiagnosticSeverity,
    pub message: String,
    pub group_id: usize,
    pub code: Option<String>,
    pub is_valid: bool,
    pub is_primary: bool,
    pub is_disk_based: bool,
}

/// An operation on a buffer.
#[derive(Debug)]
pub enum Operation {
    Edit(EditOperation),
    Undo { undo: UndoOperation, lamport_timestamp: Lamport },
    UpdateSelections {
        replica_id: u16,
        selections: Vec<BufferSelection>,
        lamport_timestamp: Lamport,
    },
    RemoveSelections { replica_id: u16, lamport_timestamp: Lamport },
    UpdateDiagnostics {
        provider_name: String,
        diagnostics: Vec<DiagnosticEntry>,
        lamport_timestamp: Lamport,
    },
}

/// A range in a message.
#[derive(Clone, Copy, Debug, PartialEq, Eq, Structural)]
pub struct RangeMessage {
    pub start: u64,
    pub end: u64,
}

/// A moment of a replica in a message.
#[derive(Clone, Copy, Debug, PartialEq, Eq, Structural)]
pub struct VectorClockEntry {
    pub replica_id: u32,
    pub timestamp: u32,
}

/// A place in a message; the side is a number.
#[derive(Clone, Copy, Debug, PartialEq, Eq, Structural)]
pub struct AnchorMessage {
    pub replica_id: u32,
    pub local_timestamp: u32,
    pub offset: u64,
    pub bias: i32,
}

/// An edit in a message.
#[derive(Debug)]
pub struct EditMessage {
    pub replica_id: u32,
    pub local_timestamp: u32,
    pub lamport_timestamp: u32,
    pub version: Vec<VectorClockEntry>,
    pub ranges: Vec<RangeMessage>,
    pub new_text: Option<String>,
}

/// How often an edit has been undone, in a message.
#[derive(Clone, Copy, Debug, PartialEq, Eq, Structural)]
pub struct UndoCountMessage {
    pub replica_id: u32,
    pub local_timestamp: u32,
    pub count: u32,
}

/// A change of how often edits have been undone, in a message.
#[derive(Debug)]
pub struct UndoMessage {
    pub replica_id: u32,
    pub local_timestamp: u32,
    pub lamport_timestamp: u32,
    pub version: Vec<VectorClockEntry>,
    pub ranges: Vec<RangeMessage>,
    pub counts: Vec<UndoCountMessage>,
}

/// A selection in a message.
#[derive(Clone, Copy, Debug, PartialEq, Eq, Structural)]
pub struct SelectionMessage {
    pub id: u64,
    pub start: Option<AnchorMessage>,
    pub end: Option<AnchorMessage>,
    pub reversed: bool,
}

/// A diagnostic in a message; how grave it is is a number.
#[derive(Debug)]
pub struct DiagnosticMessage {
    pub start: Option<AnchorMessage>,
    pub end: Option<AnchorMessage>,
    pub severity: i32,
    pub message: String,
    pub code: Option<String>,
    pub group_id: u64,
    pub is_primary: bool,
    pub is_valid: bool,
    pub is_disk_based: bool,
}

/// The diagnostics of one tool in a message.
#[derive(Debug)]
pub struct DiagnosticSetMessage {
    pub provider_name: String,
    pub diagnostics: Vec<DiagnosticMessage>,
}

/// An operation in a message.
#[derive(Debug)]
pub enum OperationMessage {
    Edit(EditMessage),
    Undo(UndoMessage),
    UpdateSelections {
        replica_id: u32,
        lamport_timestamp: u32,
        selections: Vec<SelectionMessage>,
    },
    RemoveSelections { replica_id: u32, lamport_timestamp: u32 },
    UpdateDiagnosticSet {
        replica_id: u32,
        lamport_timestamp: u32,
        diagnostic_set: Option<DiagnosticSetMessage>,
    },
}

/// Why a message is no operation.
#[derive(Clone, Copy, Debug, PartialEq, Eq, Structural)]
pub enum InvalidOperation {
    MissingVariant,
    MissingDiagnosticSet,
}

impl InvalidOperation {
    /// The sentence that tells about it.
    pub fn message(&self) -> (r: &'static str)
        ensures
            r@ == match *self {
                InvalidOperation::MissingVariant => "missing operation variant"@,
                InvalidOperation::MissingDiagnosticSet => "missing diagnostic set"@,
            },
    {
        match self {
            InvalidOperation::MissingVariant => "missing operation variant",
            InvalidOperation::MissingDiagnosticSet => "missing diagnostic set",
        }
    }
}

/// A text that may be missing.
pub open spec fn text_view(text: Option<String>) -> Option<Seq<char>> {
    match text {
        Some(t) => Some(t@),
        None => None,
    }
}

fn copy_text(text: &Option<String>) -> (r: Option<String>)
    ensures
        text_view(r) == text_view(*text),
{
    match text {
        Some(t) => Some(t.clone()),
        None => None,
    }
}

/// The low sixteen bits of a number, which is how the number of a replica is read.
pub open spec fn replica(n: u32) -> u16 {
    n as u16
}

/// A place as a message.
pub open spec fn anchor_message(a: BufferAnchor) -> AnchorMessage {
    AnchorMessage {
        replica_id: a.timestamp.replica_id as u32,
        local_timestamp: a.timestamp.value,
        offset: a.offset as u64,
        bias: if a.bias == Bias::Left {
            0
        } else {
            1
        },
    }
}

/// The place that a message stands for; a side that does not exist makes none.
pub open spec fn anchor_of(m: AnchorMessage) -> Option<BufferAnchor> {
    if m.bias == 0 || m.bias == 1 {
        Some(
            BufferAnchor {
                timestamp: Local { replica_id: replica(m.replica_id), value: m.local_timestamp },
                offset: m.offset as usize,
                bias: if m.bias == 0 {
                    Bias::Left
                } else {
                    Bias::Right
                },
            },
        )
    } else {
        None
    }
}

/// A place survives being sent.
pub proof fn anchor_round_trip(a: BufferAnchor)
    ensures
        anchor_of(anchor_message(a)) == Some(a),
{
    let r = a.timestamp.replica_id;
    assert((r as u32) as u16 == r) by (bit_vector);
    let o = a.offset;
    assert((o as u64) as usize == o) by (bit_vector);
}

fn serialize_anchor(anchor: &BufferAnchor) -> (r: AnchorMessage)
    ensures
        r == anchor_message(*anchor),
{
    AnchorMessage {
        replica_id: anchor.timestamp.replica_id as u32,
        local_timestamp: anchor.timestamp.value,
        offset: anchor.offset as u64,
        bias: match anchor.bias {
            Bias::Left => 0,
            Bias::Right => 1,
        },
    }
}

fn deserialize_anchor(m: &AnchorMessage) -> (r: Option<BufferAnchor>)
    ensures
        r == anchor_of(*m),
{
    let bias: Bias = if m.bias == 0 {
        Bias::Left
    } else if m.bias == 1 {
        Bias::Right
    } else {
        return None;
    };
    Some(
        BufferAnchor {
            timestamp: Local { replica_id: m.replica_id as u16, value: m.local_timestamp },
            offset: m.offset as usize,
            bias,
        },
    )
}

/// A selection as a message.
pub open spec fn selection_message(s: BufferSelection) -> SelectionMessage {
    SelectionMessage {
        id: s.id as u64,
        start: Some(anchor_message(s.start)),
        end: Some(anchor_message(s.end)),
        reversed: s.reversed,
    }
}

/// The place that a message which may be missing stands for.
pub open spec fn maybe_anchor_of(m: Option<AnchorMessage>) -> Option<BufferAnchor> {
    match m {
        Some(a) => anchor_of(a),
        None => None,
    }
}

/// The selection that a message stands for, if both of its places can be read.
pub open spec fn selection_of(m: SelectionMessage) -> Option<BufferSelection> {
    match (maybe_anchor_of(m.start), maybe_anchor_of(m.end)) {
        (Some(start), Some(end)) => Some(
            BufferSelection { id: m.id as usize, start, end, reversed: m.reversed },
        ),
        _ => None,
    }
}

/// The selections that messages stand for; those that cannot be read are left out.
pub open spec fn selections_of(m: Seq<SelectionMessage>) -> Seq<BufferSelection>
    decreases m.len(),
{
    if m.len() == 0 {
        Seq::empty()
    } else {
        let before = selections_of(m.drop_last());
        match selection_of(m.last()) {
            Some(s) => before.push(s),
            None => before,
        }
    }
}

/// Selections as messages.
pub open spec fn selection_messages(s: Seq<BufferSelection>) -> Seq<SelectionMessage> {
    s.map_values(|x: BufferSelection| selection_message(x))
}

/// Selections survive being sent.
pub proof fn selections_round_trip(s: Seq<BufferSelection>)
    ensures
        selections_of(selection_messages(s)) == s,
    decreases s.len(),
{
    let m = selection_messages(s);
    if s.len() == 0 {
        assert(selections_of(m) =~= s);
    } else {
        assert(m.drop_last() =~= selection_messages(s.drop_last()));
        selections_round_trip(s.drop_last());
        anchor_round_trip(s.last().start);
        anchor_round_trip(s.last().end);
        let id = s.last().id;
        assert((id as u64) as usize == id) by (bit_vector);
        assert(selections_of(m) =~= s);
    }
}

/// Writes selections as messages.
pub fn serialize_selections(selections: &Vec<BufferSelection>) -> (r: Vec<SelectionMessage>)
    ensures
        r@ == selection_messages(selections@),
{
    let mut r: Vec<SelectionMessage> = Vec::new();
    let mut i: usize = 0;
    while i < selections.len()
        invariant
            i <= selections@.len(),
            r@ == selection_messages(selections@.take(i as int)),
        decreases selections.len() - i,
    {
        let s: &BufferSelection = &selections[i];
        r.push(
            SelectionMessage {
                id: s.id as u64,
                start: Some(serialize_anchor(&s.start)),
                end: Some(serialize_anchor(&s.end)),
                reversed: s.reversed,
            },
        );
        i += 1;
        assert(r@ =~= selection_messages(selections@.take(i as int)));
    }
    assert(selections@.take(i as int) =~= selections@);
    r
}

fn deserialize_selection(m: &SelectionMessage) -> (r: Option<BufferSelection>)
    ensures
        r == selection_of(*m),
{
    let start: Option<BufferAnchor> = match &m.start {
        Some(a) => deserialize_anchor(a),
        None => None,
    };
    let end: Option<BufferAnchor> = match &m.end {
        Some(a) => deserialize_anchor(a),
        None => None,
    };
    match (start, end) {
        (Some(start), Some(end)) => Some(
            BufferSelection { id: m.id as usize, start, end, reversed: m.reversed },
        ),
        _ => None,
    }
}

/// Reads selections from messages; those that cannot be read are left out.
pub fn deserialize_selections(selections: &Vec<SelectionMessage>) -> (r: Vec<BufferSelection>)
    ensures
        r@ == selections_of(selections@),
{
    let mut r: Vec<BufferSelection> = Vec::new();
    let mut i: usize = 0;
    assert(selections@.take(0) =~= Seq::empty());
    while i < selections.len()
        invariant
            i <= selections@.len(),
            r@ == selections_of(selections@.take(i as int)),
        decreases selections.len() - i,
    {
        assert(selections@.take(i + 1).drop_last() =~= selections@.take(i as int));
        if let Some(s) = deserialize_selection(&selections[i]) {
            r.push(s);
        }
        i += 1;
    }
    assert(selections@.take(i as int) =~= selections@);
    r
}

/// Ranges as messages.
pub open spec fn range_messages(ranges: Seq<FullRange>) -> Seq<RangeMessage> {
    ranges.map_values(|r: FullRange| RangeMessage { start: r.start as u64, end: r.end as u64 })
}

/// The ranges that messages stand for.
pub open spec fn ranges_of(m: Seq<RangeMessage>) -> Seq<FullRange> {
    m.map_values(|r: RangeMessage| FullRange { start: r.start as usize, end: r.end as usize })
}

/// A version as messages.
pub open spec fn version_messages(version: Seq<Local>) -> Seq<VectorClockEntry> {
    version.map_values(
        |l: Local| VectorClockEntry { replica_id: l.replica_id as u32, timestamp: l.value },
    )
}

/// The version that messages stand for.
pub open spec fn version_of(m: Seq<VectorClockEntry>) -> Seq<Local> {
    m.map_values(
        |e: VectorClockEntry| Local { replica_id: replica(e.replica_id), value: e.timestamp },
    )
}

/// Counts as messages.
pub open spec fn count_messages(counts: Seq<(Local, u32)>) -> Seq<UndoCountMessage> {
    counts.map_values(
        |c: (Local, u32)|
            UndoCountMessage {
                replica_id: c.0.replica_id as u32,
                local_timestamp: c.0.value,
                count: c.1,
            },
    )
}

/// The counts that messages stand for.
pub open spec fn counts_of(m: Seq<UndoCountMessage>) -> Seq<(Local, u32)> {
    m.map_values(
        |c: UndoCountMessage|
            (Local { replica_id: replica(c.replica_id), value: c.local_timestamp }, c.count),
    )
}

/// Ranges, versions and counts survive being sent.
pub proof fn parts_round_trip(
    ranges: Seq<FullRange>,
    version: Seq<Local>,
    counts: Seq<(Local, u32)>,
)
    ensures
        ranges_of(range_messages(ranges)) == ranges,
        version_of(version_messages(version)) == version,
        counts_of(count_messages(counts)) == counts,
{
    assert forall|i: int| 0 <= i < ranges.len() implies #[trigger] ranges_of(
        range_messages(ranges),
    )[i] == ranges[i] by {
        let a = ranges[i].start;
        let b = ranges[i].end;
        assert((a as u64) as usize == a) by (bit_vector);
        assert((b as u64) as usize == b) by (bit_vector);
    }
    assert(ranges_of(range_messages(ranges)) =~= ranges);
    assert forall|i: int| 0 <= i < version.len() implies #[trigger] version_of(
        version_messages(version),
    )[i] == version[i] by {
        let r = version[i].replica_id;
        assert((r as u32) as u16 == r) by (bit_vector);
    }
    assert(version_of(version_messages(version)) =~= version);
    assert forall|i: int| 0 <= i < counts.len() implies #[trigger] counts_of(
        count_messages(counts),
    )[i] == counts[i] by {
        let r = counts[i].0.replica_id;
        assert((r as u32) as u16 == r) by (bit_vector);
    }
    assert(counts_of(count_messages(counts)) =~= counts);
}

fn serialize_ranges(ranges: &Vec<FullRange>) -> (r: Vec<RangeMessage>)
    ensures
        r@ == range_messages(ranges@),
{
    let mut r: Vec<RangeMessage> = Vec::new();
    let mut i: usize = 0;
    while i < ranges.len()
        invariant
            i <= ranges@.len(),
            r@ == range_messages(ranges@.take(i as int)),
        decreases ranges.len() - i,
    {
        r.push(RangeMessage { start: ranges[i].start as u64, end: ranges[i].end as u64 });
        i += 1;
        assert(r@ =~= range_messages(ranges@.take(i as int)));
    }
    assert(ranges@.take(i as int) =~= ranges@);
    r
}

fn deserialize_ranges(ranges: &Vec<RangeMessage>) -> (r: Vec<FullRange>)
    ensures
        r@ == ranges_of(ranges@),
{
    let mut r: Vec<FullRange> = Vec::new();
    let mut i: usize = 0;
    while i < ranges.len()
        invariant
            i <= ranges@.len(),
            r@ == ranges_of(ranges@.take(i as int)),
        decreases ranges.len() - i,
    {
        r.push(FullRange { start: ranges[i].start as usize, end: ranges[i].end as usize });
        i += 1;
        assert(r@ =~= ranges_of(ranges@.take(i as int)));
    }
    assert(ranges@.take(i as int) =~= ranges@);
    r
}

fn serialize_version(version: &Vec<Local>) -> (r: Vec<VectorClockEntry>)
    ensures
        r@ == version_messages(version@),
{
    let mut r: Vec<VectorClockEntry> = Vec::new();
    let mut i: usize = 0;
    while i < version.len()
        invariant
            i <= version@.len(),
            r@ == version_messages(version@.take(i as int)),
        decreases version.len() - i,
    {
        r.push(
            VectorClockEntry {
                replica_id: version[i].replica_id as u32,
                timestamp: version[i].value,
            },
        );
        i += 1;
        assert(r@ =~= version_messages(version@.take(i as int)));
    }
    assert(version@.take(i as int) =~= version@);
    r
}

fn deserialize_version(version: &Vec<VectorClockEntry>) -> (r: Vec<Local>)
    ensures
        r@ == version_of(version@),
{
    let mut r: Vec<Local> = Vec::new();
    let mut i: usize = 0;
    while i < version.len()
        invariant
            i <= version@.len(),
            r@ == version_of(version@.take(i as int)),
        decreases version.len() - i,
    {
        r.push(
            Local { replica_id: version[i].replica_id as u16, value: version[i].timestamp },
        );
        i += 1;
        assert(r@ =~= version_of(version@.take(i as int)));
    }
    assert(version@.take(i as int) =~= version@);
    r
}

fn serialize_counts(counts: &Vec<(Local, u32)>) -> (r: Vec<UndoCountMessage>)
    ensures
        r@ == count_messages(counts@),
{
    let mut r: Vec<UndoCountMessage> = Vec::new();
    let mut i: usize = 0;
    while i < counts.len()
        invariant
            i <= counts@.len(),
            r@ == count_messages(counts@.take(i as int)),
        decreases counts.len() - i,
    {
        let (id, count) = counts[i];
        r.push(
            UndoCountMessage {
                replica_id: id.replica_id as u32,
                local_timestamp: id.value,
                count,
            },
        );
        i += 1;
        assert(r@ =~= count_messages(counts@.take(i as int)));
    }
    assert(counts@.take(i as int) =~= counts@);
    r
}

fn deserialize_counts(counts: &Vec<UndoCountMessage>) -> (r: Vec<(Local, u32)>)
    ensures
        r@ == counts_of(counts@),
{
    let mut r: Vec<(Local, u32)> = Vec::new();
    let mut i: usize = 0;
    while i < counts.len()
        invariant
            i <= counts@.len(),
            r@ == counts_of(counts@.take(i as int)),
        decreases counts.len() - i,
    {
        let c: UndoCountMessage = counts[i];
        r.push(
            (Local { replica_id: c.replica_id as u16, value: c.local_timestamp }, c.count),
        );
        i += 1;
        assert(r@ =~= counts_of(counts@.take(i as int)));
    }
    assert(counts@.take(i as int) =~= counts@);
    r
}

/// The meaning of an edit.
#[verifier::ext_equal]
pub struct EditView {
    pub timestamp: InsertionTimestamp,
    pub version: Seq<Local>,
    pub ranges: Seq<FullRange>,
    pub new_text: Option<Seq<char>>,
}

/// The meaning of an edit in a message.
#[verifier::ext_equal]
pub struct EditMessageView {
    pub replica_id: u32,
    pub local_timestamp: u32,
    pub lamport_timestamp: u32,
    pub version: Seq<VectorClockEntry>,
    pub ranges: Seq<RangeMessage>,
    pub new_text: Option<Seq<char>>,
}

impl View for EditOperation {
    type V = EditView;

    open spec fn view(&self) -> EditView {
        EditView {
            timestamp: self.timestamp,
            version: self.version@,
            ranges: self.ranges@,
            new_text: text_view(self.new_text),
        }
    }
}

impl View for EditMessage {
    type V = EditMessageView;

    open spec fn view(&self) -> EditMessageView {
        EditMessageView {
            replica_id: self.replica_id,
            local_timestamp: self.local_timestamp,
            lamport_timestamp: self.lamport_timestamp,
            version: self.version@,
            ranges: self.ranges@,
            new_text: text_view(self.new_text),
        }
    }
}

/// An edit as a message.
pub open spec fn edit_message(e: EditView) -> EditMessageView {
    EditMessageView {
        replica_id: e.timestamp.replica_id as u32,
        local_timestamp: e.timestamp.local,
        lamport_timestamp: e.timestamp.lamport,
        version: version_messages(e.version),
        ranges: range_messages(e.ranges),
        new_text: e.new_text,
    }
}

/// The edit that a message stands for.
pub open spec fn edit_of(m: EditMessageView) -> EditView {
    EditView {
        timestamp: InsertionTimestamp {
            replica_id: replica(m.replica_id),
            local: m.local_timestamp,
            lamport: m.lamport_timestamp,
        },
        version: version_of(m.version),
        ranges: ranges_of(m.ranges),
        new_text: m.new_text,
    }
}

/// An edit survives being sent.
pub proof fn edit_round_trip(e: EditView)
    ensures
        edit_of(edit_message(e)) == e,
{
    parts_round_trip(e.ranges, e.version, Seq::empty());
    let r = e.timestamp.replica_id;
    assert((r as u32) as u16 == r) by (bit_vector);
    assert(edit_of(edit_message(e)) =~= e);
}

/// Writes an edit as a message.
pub fn serialize_edit_operation(operation: &EditOperation) -> (r: EditMessage)
    ensures
        r@ == edit_message(operation@),
{
    EditMessage {
        replica_id: operation.timestamp.replica_id as u32,
        local_timestamp: operation.timestamp.local,
        lamport_timestamp: operation.timestamp.lamport,
        version: serialize_version(&operation.version),
        ranges: serialize_ranges(&operation.ranges),
        new_text: copy_text(&operation.new_text),
    }
}

/// Reads an edit from a message.
pub fn deserialize_edit_operation(edit: EditMessage) -> (r: EditOperation)
    ensures
        r@ == edit_of(edit@),
{
    EditOperation {
        timestamp: InsertionTimestamp {
            replica_id: edit.replica_id as u16,
            local: edit.local_timestamp,
            lamport: edit.lamport_timestamp,
        },
        version: deserialize_version(&edit.version),
        ranges: deserialize_ranges(&edit.ranges),
        new_text: edit.new_text,
    }
}

/// The number of a severity in a message; any other severity has the number of none.
pub open spec fn severity_number(s: DiagnosticSeverity) -> i32 {
    match s {
        DiagnosticSeverity::Error => 1,
        DiagnosticSeverity::Warning => 2,
        DiagnosticSeverity::Information => 3,
        DiagnosticSeverity::Hint => 4,
        DiagnosticSeverity::Other => 0,
    }
}

/// The severity that a number stands for.
pub open spec fn severity_of(n: i32) -> Option<DiagnosticSeverity> {
    if n == 1 {
        Some(DiagnosticSeverity::Error)
    } else if n == 2 {
        Some(DiagnosticSeverity::Warning)
    } else if n == 3 {
        Some(DiagnosticSeverity::Information)
    } else if n == 4 {
        Some(DiagnosticSeverity::Hint)
    } else {
        None
    }
}

/// The meaning of a diagnostic.
#[verifier::ext_equal]
pub struct DiagnosticView {
    pub start: BufferAnchor,
    pub end: BufferAnchor,
    pub severity: DiagnosticSeverity,
    pub message: Seq<char>,
    pub group_id: usize,
    pub code: Option<Seq<char>>,
    pub is_valid: bool,
    pub is_primary: bool,
    pub is_disk_based: bool,
}

/// The meaning of a diagnostic in a message.
#[verifier::ext_equal]
pub struct DiagnosticMessageView {
    pub start: Option<AnchorMessage>,
    pub end: Option<AnchorMessage>,
    pub severity: i32,
    pub message: Seq<char>,
    pub code: Option<Seq<char>>,
    pub group_id: u64,
    pub is_primary: bool,
    pub is_valid: bool,
    pub is_disk_based: bool,
}

impl View for DiagnosticEntry {
    type V = DiagnosticView;

    open spec fn view(&self) -> DiagnosticView {
        DiagnosticView {
            start: self.start,
            end: self.end,
            severity: self.severity,
            message: self.message@,
            group_id: self.group_id,
            code: text_view(self.code),
            is_valid: self.is_valid,
            is_primary: self.is_primary,
            is_disk_based: self.is_disk_based,
        }
    }
}

impl View for DiagnosticMessage {
    type V = DiagnosticMessageView;

    open spec fn view(&self) -> DiagnosticMessageView {
        DiagnosticMessageView {
            start: self.start,
            end: self.end,
            severity: self.severity,
            message: self.message@,
            code: text_view(self.code),
            group_id: self.group_id,
            is_primary: self.is_primary,
            is_valid: self.is_valid,
            is_disk_based: self.is_disk_based,
        }
    }
}

/// The meanings of diagnostics.
pub open spec fn diagnostic_views(d: Seq<DiagnosticEntry>) -> Seq<DiagnosticView> {
    d.map_values(|x: DiagnosticEntry| x@)
}

/// The meanings of diagnostics in messages.
pub open spec fn diagnostic_message_views(m: Seq<DiagnosticMessage>) -> Seq<DiagnosticMessageView> {
    m.map_values(|x: DiagnosticMessage| x@)
}

/// A diagnostic as a message.
pub open spec fn diagnostic_message(d: DiagnosticView) -> DiagnosticMessageView {
    DiagnosticMessageView {
        start: Some(anchor_message(d.start)),
        end: Some(anchor_message(d.end)),
        severity: severity_number(d.severity),
        message: d.message,
        code: d.code,
        group_id: d.group_id as u64,
        is_primary: d.is_primary,
        is_valid: d.is_valid,
        is_disk_based: d.is_disk_based,
    }
}

/// Diagnostics as messages.
pub open spec fn diagnostic_messages(d: Seq<DiagnosticView>) -> Seq<DiagnosticMessageView> {
    d.map_values(|x: DiagnosticView| diagnostic_message(x))
}

/// The diagnostic that a message stands for, if its places and its severity can be read.
pub open spec fn diagnostic_of(m: DiagnosticMessageView) -> Option<DiagnosticView> {
    match (maybe_anchor_of(m.start), maybe_anchor_of(m.end), severity_of(m.severity)) {
        (Some(start), Some(end), Some(severity)) => Some(
            DiagnosticView {
                start,
                end,
                severity,
                message: m.message,
                group_id: m.group_id as usize,
                code: m.code,
                is_valid: m.is_valid,
                is_primary: m.is_primary,
                is_disk_based: m.is_disk_based,
            },
        ),
        _ => None,
    }
}

/// The diagnostics that messages stand for; those that cannot be read are left out.
pub open spec fn diagnostics_of(m: Seq<DiagnosticMessageView>) -> Seq<DiagnosticView>
    decreases m.len(),
{
    if m.len() == 0 {
        Seq::empty()
    } else {
        let before = diagnostics_of(m.drop_last());
        match diagnostic_of(m.last()) {
            Some(d) => before.push(d),
            None => before,
        }
    }
}

/// Diagnostics survive being sent, if each has one of the severities that messages know.
pub proof fn diagnostics_round_trip(d: Seq<DiagnosticView>)
    requires
        forall|i: int| 0 <= i < d.len() ==> !((#[trigger] d[i]).severity is Other),
    ensures
        diagnostics_of(diagnostic_messages(d)) == d,
    decreases d.len(),
{
    let m = diagnostic_messages(d);
    if d.len() == 0 {
        assert(diagnostics_of(m) =~= d);
    } else {
        let rest = d.drop_last();
        assert forall|i: int| 0 <= i < rest.len() implies !((#[trigger] rest[i]).severity is Other) by {
            assert(!(d[i].severity is Other));
        }
        assert(m.drop_last() =~= diagnostic_messages(rest));
        diagnostics_round_trip(rest);
        anchor_round_trip(d.last().start);
        anchor_round_trip(d.last().end);
        assert(!(d[d.len() - 1].severity is Other));
        let id = d.last().group_id;
        assert((id as u64) as usize == id) by (bit_vector);
        assert(diagnostic_of(m.last()) == Some(d.last()));
        assert(diagnostics_of(m) =~= d);
    }
}

/// Writes the diagnostics of a tool as a message.
pub fn serialize_diagnostic_set(provider_name: String, diagnostics: &Vec<DiagnosticEntry>) -> (r:
    DiagnosticSetMessage)
    ensures
        r.provider_name@ == provider_name@,
        diagnostic_message_views(r.diagnostics@) == diagnostic_messages(
            diagnostic_views(diagnostics@),
        ),
{
    let ghost target = diagnostic_messages(diagnostic_views(diagnostics@));
    let mut messages: Vec<DiagnosticMessage> = Vec::new();
    let mut i: usize = 0;
    assert(diagnostic_message_views(messages@) =~= target.take(0));
    while i < diagnostics.len()
        invariant
            i <= diagnostics@.len(),
            target == diagnostic_messages(diagnostic_views(diagnostics@)),
            diagnostic_message_views(messages@) == target.take(i as int),
        decreases diagnostics.len() - i,
    {
        let entry: &DiagnosticEntry = &diagnostics[i];
        let severity: i32 = match entry.severity {
            DiagnosticSeverity::Error => 1,
            DiagnosticSeverity::Warning => 2,
            DiagnosticSeverity::Information => 3,
            DiagnosticSeverity::Hint => 4,
            DiagnosticSeverity::Other => 0,
        };
        let message = DiagnosticMessage {
            start: Some(serialize_anchor(&entry.start)),
            end: Some(serialize_anchor(&entry.end)),
            severity,
            message: entry.message.clone(),
            code: copy_text(&entry.code),
            group_id: entry.group_id as u64,
            is_primary: entry.is_primary,
            is_valid: entry.is_valid,
            is_disk_based: entry.is_disk_based,
        };
        let ghost before = diagnostic_message_views(messages@);
        let ghost view = message@;
        proof {
            assert(view =~= diagnostic_message(entry@));
            assert(target[i as int] == diagnostic_message(entry@));
        }
        messages.push(message);
        i += 1;
        assert(diagnostic_message_views(messages@) =~= before.push(view));
        assert(target.take(i as int) =~= before.push(view));
    }
    assert(target.take(i as int) =~= target);
    DiagnosticSetMessage { provider_name, diagnostics: messages }
}

fn deserialize_diagnostic(m: &DiagnosticMessage) -> (r: Option<DiagnosticEntry>)
    ensures
        match diagnostic_of(m@) {
            Some(d) => r matches Some(e) && e@ == d,
            None => r is None,
        },
{
    let start: Option<BufferAnchor> = match &m.start {
        Some(a) => deserialize_anchor(a),
        None => None,
    };
    let end: Option<BufferAnchor> = match &m.end {
        Some(a) => deserialize_anchor(a),
        None => None,
    };
    let severity: DiagnosticSeverity = if m.severity == 1 {
        DiagnosticSeverity::Error
    } else if m.severity == 2 {
        DiagnosticSeverity::Warning
    } else if m.severity == 3 {
        DiagnosticSeverity::Information
    } else if m.severity == 4 {
        DiagnosticSeverity::Hint
    } else {
        return None;
    };
    match (start, end) {
        (Some(start), Some(end)) => {
            let e = DiagnosticEntry {
                start,
                end,
                severity,
                message: m.message.clone(),
                group_id: m.group_id as usize,
                code: copy_text(&m.code),
                is_valid: m.is_valid,
                is_primary: m.is_primary,
                is_disk_based: m.is_disk_based,
            };
            assert(e@ =~= diagnostic_of(m@)->0);
            Some(e)
        },
        _ => None,
    }
}

/// Reads the diagnostics of a tool from a message; those that cannot be read are left out.
pub fn deserialize_diagnostic_set(message: DiagnosticSetMessage) -> (r: (
    String,
    Vec<DiagnosticEntry>,
))
    ensures
        r.0@ == message.provider_name@,
        diagnostic_views(r.1@) == diagnostics_of(diagnostic_message_views(message.diagnostics@)),
{
    let diagnostics: Vec<DiagnosticMessage> = message.diagnostics;
    let ghost views = diagnostic_message_views(diagnostics@);
    let mut r: Vec<DiagnosticEntry> = Vec::new();
    let mut i: usize = 0;
    assert(views.take(0) =~= Seq::empty());
    assert(diagnostic_views(r@) =~= Seq::empty());
    while i < diagnostics.len()
        invariant
            i <= diagnostics@.len(),
            views == diagnostic_message_views(diagnostics@),
            diagnostic_views(r@) == diagnostics_of(views.take(i as int)),
        decreases diagnostics.len() - i,
    {
        assert(views.take(i + 1).drop_last() =~= views.take(i as int));
        assert(views[i as int] == diagnostics@[i as int]@);
        if let Some(e) = deserialize_diagnostic(&diagnostics[i]) {
            let ghost before = diagnostic_views(r@);
            let ghost added = e@;
            r.push(e);
            assert(diagnostic_views(r@) =~= before.push(added));
        }
        i += 1;
    }
    assert(views.take(i as int) =~= views);
    (message.provider_name, r)
}

/// The meaning of an operation.
#[verifier::ext_equal]
pub enum OperationView {
    Edit(EditView),
    Undo {
        id: Local,
        counts: Seq<(Local, u32)>,
        ranges: Seq<FullRange>,
        version: Seq<Local>,
        lamport_timestamp: Lamport,
    },
    UpdateSelections {
        replica_id: u16,
        selections: Seq<BufferSelection>,
        lamport_timestamp: Lamport,
    },
    RemoveSelections { replica_id: u16, lamport_timestamp: Lamport },
    UpdateDiagnostics {
        provider_name: Seq<char>,
        diagnostics: Seq<DiagnosticView>,
        lamport_timestamp: Lamport,
    },
}

impl View for Operation {
    type V = OperationView;

    open spec fn view(&self) -> OperationView {
        match *self {
            Operation::Edit(e) => OperationView::Edit(e@),
            Operation::Undo { undo, lamport_timestamp } => OperationView::Undo {
                id: undo.id,
                counts: undo.counts@,
                ranges: undo.ranges@,
                version: undo.version@,
                lamport_timestamp,
            },
            Operation::UpdateSelections { replica_id, selections, lamport_timestamp } =>
            OperationView::UpdateSelections {
                replica_id,
                selections: selections@,
                lamport_timestamp,
            },
            Operation::RemoveSelections { replica_id, lamport_timestamp } =>
            OperationView::RemoveSelections { replica_id, lamport_timestamp },
            Operation::UpdateDiagnostics { provider_name, diagnostics, lamport_timestamp } =>
            OperationView::UpdateDiagnostics {
                provider_name: provider_name@,
                diagnostics: diagnostic_views(diagnostics@),
                lamport_timestamp,
            },
        }
    }
}

/// The meaning of an operation in a message.
#[verifier::ext_equal]
pub enum MessageView {
    Edit(EditMessageView),
    Undo {
        replica_id: u32,
        local_timestamp: u32,
        lamport_timestamp: u32,
        version: Seq<VectorClockEntry>,
        ranges: Seq<RangeMessage>,
        counts: Seq<UndoCountMessage>,
    },
    UpdateSelections {
        replica_id: u32,
        lamport_timestamp: u32,
        selections: Seq<SelectionMessage>,
    },
    RemoveSelections { replica_id: u32, lamport_timestamp: u32 },
    UpdateDiagnosticSet {
        replica_id: u32,
        lamport_timestamp: u32,
        diagnostic_set: Option<(Seq<char>, Seq<DiagnosticMessageView>)>,
    },
}

impl View for OperationMessage {
    type V = MessageView;

    open spec fn view(&self) -> MessageView {
        match *self {
            OperationMessage::Edit(e) => MessageView::Edit(e@),
            OperationMessage::Undo(u) => MessageView::Undo {
                replica_id: u.replica_id,
                local_timestamp: u.local_timestamp,
                lamport_timestamp: u.lamport_timestamp,
                version: u.version@,
                ranges: u.ranges@,
                counts: u.counts@,
            },
            OperationMessage::UpdateSelections { replica_id, lamport_timestamp, selections } =>
            MessageView::UpdateSelections {
                replica_id,
                lamport_timestamp,
                selections: selections@,
            },
            OperationMessage::RemoveSelections { replica_id, lamport_timestamp } =>
            MessageView::RemoveSelections { replica_id, lamport_timestamp },
            OperationMessage::UpdateDiagnosticSet {
                replica_id,
                lamport_timestamp,
                diagnostic_set,
            } => MessageView::UpdateDiagnosticSet {
                replica_id,
                lamport_timestamp,
                diagnostic_set: match diagnostic_set {
                    Some(set) => Some(
                        (set.provider_name@, diagnostic_message_views(set.diagnostics@)),
                    ),
                    None => None,
                },
            },
        }
    }
}

/// An operation as a message. An undo is sent with the number of the replica that its id names, and
/// an update of selections with the replica that it names.
pub open spec fn operation_message(op: OperationView) -> MessageView {
    match op {
        OperationView::Edit(e) => MessageView::Edit(edit_message(e)),
        OperationView::Undo { id, counts, ranges, version, lamport_timestamp } => MessageView::Undo {
            replica_id: id.replica_id as u32,
            local_timestamp: id.value,
            lamport_timestamp: lamport_timestamp.value,
            version: version_messages(version),
            ranges: range_messages(ranges),
            counts: count_messages(counts),
        },
        OperationView::UpdateSelections { replica_id, selections, lamport_timestamp } =>
        MessageView::UpdateSelections {
            replica_id: replica_id as u32,
            lamport_timestamp: lamport_timestamp.value,
            selections: selection_messages(selections),
        },
        OperationView::RemoveSelections { replica_id, lamport_timestamp } =>
        MessageView::RemoveSelections {
            replica_id: replica_id as u32,
            lamport_timestamp: lamport_timestamp.value,
        },
        OperationView::UpdateDiagnostics { provider_name, diagnostics, lamport_timestamp } =>
        MessageView::UpdateDiagnosticSet {
            replica_id: lamport_timestamp.replica_id as u32,
            lamport_timestamp: lamport_timestamp.value,
            diagnostic_set: Some((provider_name, diagnostic_messages(diagnostics))),
        },
    }
}

/// The moment that a message names.
pub open spec fn lamport_of(replica_id: u32, value: u32) -> Lamport {
    Lamport { replica_id: replica(replica_id), value }
}

/// The operation that a message stands for, or why it stands for none.
pub open spec fn operation_of(m: Option<MessageView>) -> Result<OperationView, InvalidOperation> {
    match m {
        None => Err(InvalidOperation::MissingVariant),
        Some(MessageView::Edit(e)) => Ok(OperationView::Edit(edit_of(e))),
        Some(
            MessageView::Undo {
                replica_id,
                local_timestamp,
                lamport_timestamp,
                version,
                ranges,
                counts,
            },
        ) => Ok(
            OperationView::Undo {
                id: Local { replica_id: replica(replica_id), value: local_timestamp },
                counts: counts_of(counts),
                ranges: ranges_of(ranges),
                version: version_of(version),
                lamport_timestamp: lamport_of(replica_id, lamport_timestamp),
            },
        ),
        Some(MessageView::UpdateSelections { replica_id, lamport_timestamp, selections }) => Ok(
            OperationView::UpdateSelections {
                replica_id: replica(replica_id),
                selections: selections_of(selections),
                lamport_timestamp: lamport_of(replica_id, lamport_timestamp),
            },
        ),
        Some(MessageView::RemoveSelections { replica_id, lamport_timestamp }) => Ok(
            OperationView::RemoveSelections {
                replica_id: replica(replica_id),
                lamport_timestamp: lamport_of(replica_id, lamport_timestamp),
            },
        ),
        Some(
            MessageView::UpdateDiagnosticSet { replica_id, lamport_timestamp, diagnostic_set },
        ) => match diagnostic_set {
            None => Err(InvalidOperation::MissingDiagnosticSet),
            Some((provider_name, diagnostics)) => Ok(
                OperationView::UpdateDiagnostics {
                    provider_name,
                    diagnostics: diagnostics_of(diagnostics),
                    lamport_timestamp: lamport_of(replica_id, lamport_timestamp),
                },
            ),
        },
    }
}

/// Whether an operation names the same replica throughout, and its diagnostics have severities that
/// messages know.
pub open spec fn can_be_sent(op: OperationView) -> bool {
    match op {
        OperationView::Edit(_) => true,
        OperationView::Undo { id, lamport_timestamp, .. } => id.replica_id
            == lamport_timestamp.replica_id,
        OperationView::UpdateSelections { replica_id, lamport_timestamp, .. } => replica_id
            == lamport_timestamp.replica_id,
        OperationView::RemoveSelections { replica_id, lamport_timestamp } => replica_id
            == lamport_timestamp.replica_id,
        OperationView::UpdateDiagnostics { diagnostics, .. } => forall|i: int|
            0 <= i < diagnostics.len() ==> !((#[trigger] diagnostics[i]).severity is Other),
    }
}

/// An operation survives being sent.
pub proof fn operation_round_trip(op: OperationView)
    requires
        can_be_sent(op),
    ensures
        operation_of(Some(operation_message(op))) == Ok::<OperationView, InvalidOperation>(op),
{
    match op {
        OperationView::Edit(e) => edit_round_trip(e),
        OperationView::Undo { id, counts, ranges, version, lamport_timestamp } => {
            parts_round_trip(ranges, version, counts);
            let r = id.replica_id;
            assert((r as u32) as u16 == r) by (bit_vector);
        },
        OperationView::UpdateSelections { replica_id, selections, lamport_timestamp } => {
            selections_round_trip(selections);
            assert((replica_id as u32) as u16 == replica_id) by (bit_vector);
        },
        OperationView::RemoveSelections { replica_id, lamport_timestamp } => {
            assert((replica_id as u32) as u16 == replica_id) by (bit_vector);
        },
        OperationView::UpdateDiagnostics { provider_name, diagnostics, lamport_timestamp } => {
            diagnostics_round_trip(diagnostics);
            let r = lamport_timestamp.replica_id;
            assert((r as u32) as u16 == r) by (bit_vector);
        },
    }
}

/// Writes an operation as a message.
pub fn serialize_operation(operation: &Operation) -> (r: OperationMessage)
    ensures
        r@ == operation_message(operation@),
{
    match operation {
        Operation::Edit(edit) => OperationMessage::Edit(serialize_edit_operation(edit)),
        Operation::Undo { undo, lamport_timestamp } => OperationMessage::Undo(
            UndoMessage {
                replica_id: undo.id.replica_id as u32,
                local_timestamp: undo.id.value,
                lamport_timestamp: lamport_timestamp.value,
                version: serialize_version(&undo.version),
                ranges: serialize_ranges(&undo.ranges),
                counts: serialize_counts(&undo.counts),
            },
        ),
        Operation::UpdateSelections { replica_id, selections, lamport_timestamp } =>
        OperationMessage::UpdateSelections {
            replica_id: *replica_id as u32,
            lamport_timestamp: lamport_timestamp.value,
            selections: serialize_selections(selections),
        },
        Operation::RemoveSelections { replica_id, lamport_timestamp } =>
        OperationMessage::RemoveSelections {
            replica_id: *replica_id as u32,
            lamport_timestamp: lamport_timestamp.value,
        },
        Operation::UpdateDiagnostics { provider_name, diagnostics, lamport_timestamp } =>
        OperationMessage::UpdateDiagnosticSet {
            replica_id: lamport_timestamp.replica_id as u32,
            lamport_timestamp: lamport_timestamp.value,
            diagnostic_set: Some(serialize_diagnostic_set(provider_name.clone(), diagnostics)),
        },
    }
}

/// Reads an operation from a message.
pub fn deserialize_operation(message: Option<OperationMessage>) -> (r: Result<
    Operation,
    InvalidOperation,
>)
    ensures
        match operation_of(
            match message {
                Some(m) => Some(m@),
                None => None,
            },
        ) {
            Ok(op) => r matches Ok(o) && o@ == op,
            Err(e) => r == Err::<Operation, InvalidOperation>(e),
        },
{
    match message {
        None => Err(InvalidOperation::MissingVariant),
        Some(OperationMessage::Edit(edit)) => Ok(
            Operation::Edit(deserialize_edit_operation(edit)),
        ),
        Some(OperationMessage::Undo(undo)) => Ok(
            Operation::Undo {
                lamport_timestamp: Lamport {
                    replica_id: undo.replica_id as u16,
                    value: undo.lamport_timestamp,
                },
                undo: UndoOperation {
                    id: Local { replica_id: undo.replica_id as u16, value: undo.local_timestamp },
                    counts: deserialize_counts(&undo.counts),
                    ranges: deserialize_ranges(&undo.ranges),
                    version: deserialize_version(&undo.version),
                },
            },
        ),
        Some(
            OperationMessage::UpdateSelections { replica_id, lamport_timestamp, selections },
        ) => Ok(
            Operation::UpdateSelections {
                replica_id: replica_id as u16,
                lamport_timestamp: Lamport {
                    replica_id: replica_id as u16,
                    value: lamport_timestamp,
                },
                selections: deserialize_selections(&selections),
            },
        ),
        Some(OperationMessage::RemoveSelections { replica_id, lamport_timestamp }) => Ok(
            Operation::RemoveSelections {
                replica_id: replica_id as u16,
                lamport_timestamp: Lamport {
                    replica_id: replica_id as u16,
                    value: lamport_timestamp,
                },
            },
        ),
        Some(
            OperationMessage::UpdateDiagnosticSet { replica_id, lamport_timestamp, diagnostic_set },
        ) => match diagnostic_set {
            None => Err(InvalidOperation::MissingDiagnosticSet),
            Some(set) => {
                let (provider_name, diagnostics) = deserialize_diagnostic_set(set);
                Ok(
                    Operation::UpdateDiagnostics {
                        provider_name,
                        diagnostics,
                        lamport_timestamp: Lamport {
                            replica_id: replica_id as u16,
                            value: lamport_timestamp,
                        },
                    },
                )
            },
        },
    }
}

/// An anchor is sent with the replica that made it, its time there, its offset and its side: 0 for
/// left and 1 for right.
pub proof fn anchors_are_sent_as_they_are(a: BufferAnchor)
    ensures
        anchor_message(a).replica_id == a.timestamp.replica_id,
        anchor_message(a).local_timestamp == a.timestamp.value,
        anchor_message(a).offset == a.offset,
        a.bias is Left ==> anchor_message(a).bias == 0,
        a.bias is Right ==> anchor_message(a).bias == 1,
{
}

/// An anchor is read as it was sent; one with a side that is neither is none.
pub proof fn anchors_are_read_as_they_are(m: AnchorMessage)
    requires
        m.replica_id <= u16::MAX,
        m.offset <= usize::MAX,
    ensures
        anchor_of(m) is None <==> m.bias != 0 && m.bias != 1,
        anchor_of(m) matches Some(a) ==> a.timestamp.replica_id == m.replica_id && a.timestamp.value
            == m.local_timestamp && a.offset == m.offset && (m.bias == 0 ==> a.bias is Left) && (
        m.bias == 1 ==> a.bias is Right),
{
}

/// A selection is sent with its number, its ends and its direction, and is read if both ends can be.
pub proof fn selections_are_sent_as_they_are(s: BufferSelection, m: SelectionMessage)
    ensures
        selection_message(s).id == s.id,
        selection_message(s).start == Some(anchor_message(s.start)),
        selection_message(s).end == Some(anchor_message(s.end)),
        selection_message(s).reversed == s.reversed,
        selection_of(m) is Some <==> (m.start matches Some(a) && anchor_of(a) is Some) && (
        m.end matches Some(a) && anchor_of(a) is Some),
        selection_of(m) matches Some(read) ==> Some(read.start) == anchor_of(m.start->0) && Some(
            read.end,
        ) == anchor_of(m.end->0) && read.reversed == m.reversed,
        selection_of(m) matches Some(read) ==> (m.id <= usize::MAX ==> read.id == m.id),
{
}

/// Selections are read one by one, and one that cannot be read is left out.
pub proof fn selections_are_read_one_by_one(
    front: Seq<SelectionMessage>,
    back: Seq<SelectionMessage>,
    m: SelectionMessage,
)
    ensures
        selections_of(front + back) == selections_of(front) + selections_of(back),
        selection_of(m) matches Some(s) ==> selections_of(seq![m]) == seq![s],
        selection_of(m) is None ==> selections_of(seq![m]).len() == 0,
    decreases back.len(),
{
    assert(seq![m].drop_last() == Seq::<SelectionMessage>::empty());
    reveal_with_fuel(selections_of, 2);
    if back.len() == 0 {
        assert(front + back == front);
    } else {
        selections_are_read_one_by_one(front, back.drop_last(), m);
        assert((front + back).drop_last() == front + back.drop_last());
    }
}

/// Ranges, times and counts are sent as they are, in their order.
pub proof fn lists_are_sent_in_order(
    ranges: Seq<FullRange>,
    version: Seq<Local>,
    counts: Seq<(Local, u32)>,
    i: int,
)
    ensures
        range_messages(ranges).len() == ranges.len(),
        0 <= i < ranges.len() ==> range_messages(ranges)[i].start == ranges[i].start
            && range_messages(ranges)[i].end == ranges[i].end,
        version_messages(version).len() == version.len(),
        0 <= i < version.len() ==> version_messages(version)[i].replica_id == version[i].replica_id
            && version_messages(version)[i].timestamp == version[i].value,
        count_messages(counts).len() == counts.len(),
        0 <= i < counts.len() ==> count_messages(counts)[i].replica_id == counts[i].0.replica_id
            && count_messages(counts)[i].local_timestamp == counts[i].0.value && count_messages(
            counts,
        )[i].count == counts[i].1,
{
}

/// An edit is sent with its replica, its two times, its version, its ranges and its text.
pub proof fn edits_are_sent_as_they_are(e: EditView)
    ensures
        edit_message(e).replica_id == e.timestamp.replica_id,
        edit_message(e).local_timestamp == e.timestamp.local,
        edit_message(e).lamport_timestamp == e.timestamp.lamport,
        edit_message(e).version == version_messages(e.version),
        edit_message(e).ranges == range_messages(e.ranges),
        edit_message(e).new_text == e.new_text,
{
}

/// Severities have the numbers that the protocol gives them, and other numbers are none.
pub proof fn severities_have_their_numbers(n: i32)
    ensures
        severity_number(DiagnosticSeverity::Error) == 1,
        severity_number(DiagnosticSeverity::Warning) == 2,
        severity_number(DiagnosticSeverity::Information) == 3,
        severity_number(DiagnosticSeverity::Hint) == 4,
        severity_of(n) matches Some(s) ==> severity_number(s) == n,
        severity_of(n) is Some <==> 1 <= n <= 4,
        !(1 <= severity_number(DiagnosticSeverity::Other) <= 4),
{
}

/// A diagnostic is sent with all that it says.
pub proof fn diagnostics_are_sent_as_they_are(d: DiagnosticView)
    ensures
        diagnostic_message(d).start == Some(anchor_message(d.start)),
        diagnostic_message(d).end == Some(anchor_message(d.end)),
        diagnostic_message(d).severity == severity_number(d.severity),
        diagnostic_message(d).message == d.message,
        diagnostic_message(d).code == d.code,
        diagnostic_message(d).group_id == d.group_id,
        diagnostic_message(d).is_primary == d.is_primary,
        diagnostic_message(d).is_valid == d.is_valid,
        diagnostic_message(d).is_disk_based == d.is_disk_based,
{
}

/// A diagnostic is read if its ends and its severity can be, with all that it says.
pub proof fn diagnostics_are_read_as_they_are(m: DiagnosticMessageView)
    ensures
        diagnostic_of(m) is Some <==> (m.start matches Some(a) && anchor_of(a) is Some) && (
        m.end matches Some(a) && anchor_of(a) is Some) && 1 <= m.severity <= 4,
        diagnostic_of(m) matches Some(d) ==> Some(d.start) == anchor_of(m.start->0) && Some(d.end)
            == anchor_of(m.end->0) && severity_number(d.severity) == m.severity && d.message
            == m.message && d.code == m.code && d.is_primary == m.is_primary && d.is_valid
            == m.is_valid && d.is_disk_based == m.is_disk_based,
{
}

/// Diagnostics are read one by one, and one that cannot be read is left out.
pub proof fn diagnostics_are_read_one_by_one(
    front: Seq<DiagnosticMessageView>,
    back: Seq<DiagnosticMessageView>,
    m: DiagnosticMessageView,
)
    ensures
        diagnostics_of(front + back) == diagnostics_of(front) + diagnostics_of(back),
        diagnostic_of(m) matches Some(d) ==> diagnostics_of(seq![m]) == seq![d],
        diagnostic_of(m) is None ==> diagnostics_of(seq![m]).len() == 0,
    decreases back.len(),
{
    assert(seq![m].drop_last() == Seq::<DiagnosticMessageView>::empty());
    reveal_with_fuel(diagnostics_of, 2);
    if back.len() == 0 {
        assert(front + back == front);
    } else {
        diagnostics_are_read_one_by_one(front, back.drop_last(), m);
        assert((front + back).drop_last() == front + back.drop_last());
    }
}

/// Each operation is sent as a message of its own kind, with the replica and the times it has.
pub proof fn operations_are_sent_as_their_kind(op: OperationView)
    ensures
        op matches OperationView::Edit(e) ==> operation_message(op) == MessageView::Edit(
            edit_message(e),
        ),
        op matches OperationView::Undo { id, counts, ranges, version, lamport_timestamp } ==> (
        operation_message(op) matches MessageView::Undo {
            replica_id,
            local_timestamp,
            lamport_timestamp: at,
            version: v,
            ranges: r,
            counts: c,
        } && replica_id == id.replica_id && local_timestamp == id.value && at
            == lamport_timestamp.value && v == version_messages(version) && r == range_messages(
            ranges,
        ) && c == count_messages(counts)),
        op matches OperationView::UpdateSelections { replica_id, selections, lamport_timestamp } ==> (
        operation_message(op) matches MessageView::UpdateSelections {
            replica_id: from,
            lamport_timestamp: at,
            selections: s,
        } && from == replica_id && at == lamport_timestamp.value && s == selection_messages(
            selections,
        )),
        op matches OperationView::RemoveSelections { replica_id, lamport_timestamp } ==> (
        operation_message(op) matches MessageView::RemoveSelections {
            replica_id: from,
            lamport_timestamp: at,
        } && from == replica_id && at == lamport_timestamp.value),
        op matches OperationView::UpdateDiagnostics { provider_name, diagnostics, lamport_timestamp }
            ==> (operation_message(op) matches MessageView::UpdateDiagnosticSet {
            replica_id: from,
            lamport_timestamp: at,
            diagnostic_set: Some((name, d)),
        } && from == lamport_timestamp.replica_id && at == lamport_timestamp.value && name
            == provider_name && d == diagnostic_messages(diagnostics)),
{
}

/// A message without a kind, or a set of diagnostics that is missing, is no operation; every other
/// message is one of its own kind.
pub proof fn messages_are_read_as_their_kind(m: MessageView)
    ensures
        operation_of(None) == Err::<OperationView, InvalidOperation>(
            InvalidOperation::MissingVariant,
        ),
        operation_of(Some(m)) is Err <==> (m matches MessageView::UpdateDiagnosticSet {
            replica_id,
            lamport_timestamp,
            diagnostic_set,
        } && diagnostic_set is None),
        operation_of(Some(m)) matches Err(e) ==> e is MissingDiagnosticSet,
        operation_of(Some(m)) matches Ok(op) ==> (op is Edit <==> m is Edit) && (op is Undo
            <==> m is Undo) && (op is UpdateSelections <==> m is UpdateSelections) && (
        op is RemoveSelections <==> m is RemoveSelections),
{
}

} // verus!
