//! Extensions in WebAssembly: the version of the interface that they were made for, and the files
//! that they may use.
use vstd::prelude::*;
use std::path::{Component, Path};
use wasmparser::{Parser, Payload};
use crate::file_url::may_have_prefix;
use crate::text::{decimal, decimal_text, same_text, split};

verus! {

/// A version of the interface.
#[derive(Clone, Copy, Debug, PartialEq, Eq, Structural)]
pub struct SemanticVersion {
    pub major: usize,
    pub minor: usize,
    pub patch: usize,
}

/// A part of a binary: a custom section with its name and contents, something else, or bytes that
/// cannot be read.
#[derive(Debug)]
pub enum WasmPart {
    Custom { name: String, data: Vec<u8> },
    Other,
    Invalid,
}

/// The meaning of a part: nothing for bytes that cannot be read, otherwise the custom section if it
/// is one.
pub open spec fn part_view(part: WasmPart) -> Option<Option<(Seq<char>, Seq<u8>)>> {
    match part {
        WasmPart::Custom { name, data } => Some(Some((name@, data@))),
        WasmPart::Other => Some(None),
        WasmPart::Invalid => None,
    }
}

/// The meanings of parts.
pub open spec fn part_views(parts: Seq<WasmPart>) -> Seq<Option<Option<(Seq<char>, Seq<u8>)>>> {
    parts.map_values(|p: WasmPart| part_view(p))
}

/// The parts that `Parser::parse_all` finds in bytes, in their order.
pub uninterp spec fn wasm_parts(bytes: Seq<u8>) -> Seq<Option<Option<(Seq<char>, Seq<u8>)>>>;

/// `Parser::parse_all` of `wasmparser`: which parts it finds is a function of the bytes.
#[verifier::external_body]
fn parse_parts(bytes: &Vec<u8>) -> (r: Vec<WasmPart>)
    ensures
        part_views(r@) == wasm_parts(bytes@),
{
    Parser::new(0).parse_all(bytes)
        .map(|part| match part {
            Ok(Payload::CustomSection(s)) => WasmPart::Custom {
                name: s.name().to_string(),
                data: s.data().to_vec(),
            },
            Ok(_) => WasmPart::Other,
            Err(_) => WasmPart::Invalid,
        })
        .collect()
}

/// Why no version is known of an extension.
#[derive(Debug)]
pub enum VersionError {
    Unreadable,
    InvalidSection { extension_id: String, data: Vec<u8> },
    NoSection { extension_id: String },
}

/// The bytes of a list, in decimal notation and with commas between them.
pub open spec fn byte_list(data: Seq<u8>) -> Seq<char>
    decreases data.len(),
{
    if data.len() == 0 {
        Seq::empty()
    } else if data.len() == 1 {
        decimal(data[0] as nat)
    } else {
        byte_list(data.drop_last()) + ", "@ + decimal(data.last() as nat)
    }
}

impl VersionError {
    /// The sentence that tells about it.
    pub fn message(&self) -> (r: String)
        ensures
            r@ == match *self {
                VersionError::Unreadable => "error parsing wasm extension"@,
                VersionError::InvalidSection { extension_id, data } => "extension "@
                    + extension_id@ + " has invalid zed:api-version section: ["@ + byte_list(data@)
                    + "]"@,
                VersionError::NoSection { extension_id } => "extension "@ + extension_id@
                    + " has no zed:api-version section"@,
            },
    {
        match self {
            VersionError::Unreadable => String::from_str("error parsing wasm extension"),
            VersionError::InvalidSection { extension_id, data } => {
                let mut list: String = String::new();
                let mut i: usize = 0;
                assert(data@.take(0) =~= Seq::empty());
                while i < data.len()
                    invariant
                        i <= data@.len(),
                        list@ == byte_list(data@.take(i as int)),
                    decreases data.len() - i,
                {
                    assert(data@.take(i + 1).drop_last() =~= data@.take(i as int));
                    if i > 0 {
                        list.append(", ");
                    }
                    let number: String = decimal_text(data[i] as usize);
                    list.append(number.as_str());
                    assert(list@ =~= byte_list(data@.take(i + 1)));
                    i += 1;
                }
                assert(data@.take(i as int) =~= data@);
                String::from_str("extension ").concat(extension_id.as_str()).concat(
                    " has invalid zed:api-version section: [",
                ).concat(list.as_str()).concat("]")
            },
            VersionError::NoSection { extension_id } => String::from_str("extension ").concat(
                extension_id.as_str(),
            ).concat(" has no zed:api-version section"),
        }
    }
}

/// The version that the contents of a section tell: three numbers of two bytes each, the higher byte
/// first.
pub open spec fn section_version(data: Seq<u8>) -> Option<SemanticVersion> {
    if data.len() == 6 {
        Some(
            SemanticVersion {
                major: (data[0] * 256 + data[1]) as usize,
                minor: (data[2] * 256 + data[3]) as usize,
                patch: (data[4] * 256 + data[5]) as usize,
            },
        )
    } else {
        None
    }
}

/// Reads the version from the contents of a section.
pub fn parse_wasm_extension_version_custom_section(data: &Vec<u8>) -> (r: Option<SemanticVersion>)
    ensures
        r == section_version(data@),
{
    if data.len() == 6 {
        Some(
            SemanticVersion {
                major: data[0] as usize * 256 + data[1] as usize,
                minor: data[2] as usize * 256 + data[3] as usize,
                patch: data[4] as usize * 256 + data[5] as usize,
            },
        )
    } else {
        None
    }
}

/// What the parts of a binary tell of its version: the section that comes last counts, but a section
/// that tells no version, or bytes that cannot be read, decide at once.
pub enum VersionFound {
    Version(SemanticVersion),
    Unreadable,
    InvalidSection(Seq<u8>),
    NoSection,
}

/// What parts tell of the version.
pub open spec fn version_found(parts: Seq<Option<Option<(Seq<char>, Seq<u8>)>>>) -> VersionFound
    decreases parts.len(),
{
    if parts.len() == 0 {
        VersionFound::NoSection
    } else {
        match version_found(parts.drop_last()) {
            VersionFound::Unreadable => VersionFound::Unreadable,
            VersionFound::InvalidSection(data) => VersionFound::InvalidSection(data),
            before => match parts.last() {
                None => VersionFound::Unreadable,
                Some(None) => before,
                Some(Some((name, data))) => if name == "zed:api-version"@ {
                    match section_version(data) {
                        Some(version) => VersionFound::Version(version),
                        None => VersionFound::InvalidSection(data),
                    }
                } else {
                    before
                },
            },
        }
    }
}

/// Whether an outcome is the one that was found.
pub open spec fn tells_found(
    r: Result<SemanticVersion, VersionError>,
    found: VersionFound,
    id: Seq<char>,
) -> bool {
    match found {
        VersionFound::Version(version) => r == Ok::<SemanticVersion, VersionError>(version),
        VersionFound::Unreadable => r == Err::<SemanticVersion, VersionError>(
            VersionError::Unreadable,
        ),
        VersionFound::InvalidSection(bytes) => r matches Err(
            VersionError::InvalidSection { extension_id, data },
        ) && extension_id@ == id && data@ == bytes,
        VersionFound::NoSection => r matches Err(VersionError::NoSection { extension_id })
            && extension_id@ == id,
    }
}

proof fn lemma_decided(parts: Seq<Option<Option<(Seq<char>, Seq<u8>)>>>, k: int)
    requires
        0 <= k <= parts.len(),
        version_found(parts.take(k)) is Unreadable || version_found(
            parts.take(k),
        ) is InvalidSection,
    ensures
        version_found(parts) == version_found(parts.take(k)),
    decreases parts.len() - k,
{
    if k < parts.len() {
        assert(parts.take(k + 1).drop_last() =~= parts.take(k));
        lemma_decided(parts, k + 1);
    } else {
        assert(parts.take(k) =~= parts);
    }
}

/// Finds the version of an extension among the parts of its binary.
pub fn version_of_parts(extension_id: &str, parts: &Vec<WasmPart>) -> (r: Result<
    SemanticVersion,
    VersionError,
>)
    ensures
        tells_found(r, version_found(part_views(parts@)), extension_id@),
{
    let ghost views = part_views(parts@);
    let mut version: Option<SemanticVersion> = None;
    let mut i: usize = 0;
    assert(views.take(0) =~= Seq::empty());
    while i < parts.len()
        invariant
            i <= parts@.len(),
            views == part_views(parts@),
            version_found(views.take(i as int)) == (match version {
                Some(v) => VersionFound::Version(v),
                None => VersionFound::NoSection,
            }),
        decreases parts.len() - i,
    {
        proof {
            assert(views.take(i + 1).drop_last() =~= views.take(i as int));
            assert(views[i as int] == part_view(parts@[i as int]));
        }
        match &parts[i] {
            WasmPart::Invalid => {
                proof {
                    lemma_decided(views, i + 1);
                }
                return Err(VersionError::Unreadable);
            },
            WasmPart::Other => {},
            WasmPart::Custom { name, data } => {
                if same_text(name.as_str(), "zed:api-version") {
                    version = parse_wasm_extension_version_custom_section(data);
                    if version.is_none() {
                        proof {
                            lemma_decided(views, i + 1);
                        }
                        return Err(
                            VersionError::InvalidSection {
                                extension_id: extension_id.to_owned(),
                                data: data.clone(),
                            },
                        );
                    }
                }
            },
        }
        i += 1;
    }
    assert(views.take(i as int) =~= views);
    match version {
        Some(v) => Ok(v),
        None => Err(VersionError::NoSection { extension_id: extension_id.to_owned() }),
    }
}

/// Finds the version of an extension in its binary. The whole binary is read, also behind the
/// section, so that one which cannot be read is refused here.
pub fn parse_wasm_extension_version(extension_id: &str, wasm_bytes: &Vec<u8>) -> (r: Result<
    SemanticVersion,
    VersionError,
>)
    ensures
        tells_found(r, version_found(wasm_parts(wasm_bytes@)), extension_id@),
{
    let parts: Vec<WasmPart> = parse_parts(wasm_bytes);
    version_of_parts(extension_id, &parts)
}

/// A part of a path; a prefix is a drive or a server of Windows.
#[derive(Debug)]
pub enum PathPart {
    Prefix(String),
    Root,
    Current,
    Parent,
    Normal(String),
}

/// The meaning of a part of a path.
#[verifier::ext_equal]
pub enum PartView {
    Prefix(Seq<char>),
    Root,
    Current,
    Parent,
    Normal(Seq<char>),
}

impl View for PathPart {
    type V = PartView;

    open spec fn view(&self) -> PartView {
        match *self {
            PathPart::Prefix(name) => PartView::Prefix(name@),
            PathPart::Root => PartView::Root,
            PathPart::Current => PartView::Current,
            PathPart::Parent => PartView::Parent,
            PathPart::Normal(name) => PartView::Normal(name@),
        }
    }
}

impl Clone for PathPart {
    fn clone(&self) -> (r: Self)
        ensures
            r@ == self@,
    {
        match self {
            PathPart::Prefix(name) => PathPart::Prefix(name.clone()),
            PathPart::Root => PathPart::Root,
            PathPart::Current => PathPart::Current,
            PathPart::Parent => PathPart::Parent,
            PathPart::Normal(name) => PathPart::Normal(name.clone()),
        }
    }
}

impl PathPart {
    fn same(&self, other: &PathPart) -> (r: bool)
        ensures
            r == (self@ == other@),
    {
        match (self, other) {
            (PathPart::Prefix(a), PathPart::Prefix(b)) => same_text(a.as_str(), b.as_str()),
            (PathPart::Root, PathPart::Root) => true,
            (PathPart::Current, PathPart::Current) => true,
            (PathPart::Parent, PathPart::Parent) => true,
            (PathPart::Normal(a), PathPart::Normal(b)) => same_text(a.as_str(), b.as_str()),
            _ => false,
        }
    }
}

/// The meaning of a path.
pub open spec fn path_view(parts: Seq<PathPart>) -> Seq<PartView> {
    parts.map_values(|p: PathPart| p@)
}

/// A path within another one. A path with a prefix stays as it is, and so does one from the root,
/// within the prefix of the other. The current directory is told only in front of a path.
pub open spec fn joined(base: Seq<PartView>, path: Seq<PartView>) -> Seq<PartView> {
    if path.len() > 0 && path[0] is Prefix {
        path
    } else if path.len() > 0 && path[0] is Root {
        if base.len() > 0 && base[0] is Prefix {
            base.take(1) + path
        } else {
            path
        }
    } else if path.len() > 0 && path[0] is Current && base.len() > 0 {
        base + path.skip(1)
    } else {
        base + path
    }
}

/// The parts that pieces between slashes stand for. Empty pieces stand for nothing; the current
/// directory is told only in front.
pub open spec fn named_parts(pieces: Seq<Seq<char>>) -> Seq<PartView>
    decreases pieces.len(),
{
    if pieces.len() == 0 {
        Seq::empty()
    } else {
        let before = named_parts(pieces.drop_last());
        let piece = pieces.last();
        if piece.len() == 0 {
            before
        } else if piece == "."@ {
            if pieces.len() == 1 {
                seq![PartView::Current]
            } else {
                before
            }
        } else if piece == ".."@ {
            before.push(PartView::Parent)
        } else {
            before.push(PartView::Normal(piece))
        }
    }
}

/// The parts of a path that is written with slashes.
pub open spec fn parts_of(text: Seq<char>) -> Seq<PartView> {
    (if text.len() > 0 && text[0] == '/' {
        seq![PartView::Root]
    } else {
        Seq::empty()
    }) + named_parts(split(text, '/'))
}

/// Whether a text means the same path on every platform: it has no backslash in it, its second
/// character is no colon, and it does not begin with two slashes.
pub open spec fn is_common_path(text: Seq<char>) -> bool {
    &&& !text.contains('\\')
    &&& !may_have_prefix(text)
}

/// Whether a text can have these parts. Where the platforms differ, any parts can be those of a text.
pub open spec fn can_be_parts(text: Seq<char>, parts: Seq<PartView>) -> bool {
    is_common_path(text) ==> parts == parts_of(text)
}

/// `Path::components` of the standard library: the root, `..` and the names of a path, in order.
/// Repeated slashes and one at the end count for nothing, and neither does `.` except in front. Where
/// the platforms differ, as for backslashes and the prefixes of Windows, it is left unsaid.
#[verifier::external_body]
fn path_components(text: &str) -> (r: Vec<PathPart>)
    ensures
        can_be_parts(text@, path_view(r@)),
{
    Path::new(text)
        .components()
        .map(|component| match component {
            Component::Prefix(p) => PathPart::Prefix(p.as_os_str().to_string_lossy().into_owned()),
            Component::RootDir => PathPart::Root,
            Component::CurDir => PathPart::Current,
            Component::ParentDir => PathPart::Parent,
            Component::Normal(name) => PathPart::Normal(name.to_string_lossy().into_owned()),
        })
        .collect()
}

/// A path after one more part: a prefix begins anew, and so does the root, behind the prefix; the
/// current directory changes nothing, and the parent directory takes the last name away, if there is
/// one.
pub open spec fn stepped(path: Seq<PartView>, part: PartView) -> Seq<PartView> {
    match part {
        PartView::Prefix(_) => seq![part],
        PartView::Root => if path.len() > 0 && path[0] is Prefix {
            seq![path[0], PartView::Root]
        } else {
            seq![PartView::Root]
        },
        PartView::Current => path,
        PartView::Parent => if path.len() > 0 && path.last() is Normal {
            path.drop_last()
        } else {
            path
        },
        PartView::Normal(name) => path.push(part),
    }
}

/// A path without current and parent directories.
pub open spec fn normalized(path: Seq<PartView>) -> Seq<PartView>
    decreases path.len(),
{
    if path.len() == 0 {
        Seq::empty()
    } else {
        stepped(normalized(path.drop_last()), path.last())
    }
}

/// Whether a part of a path is where it belongs in one that is a prefix, the root and names behind
/// it, or only some of these.
pub open spec fn part_fits(path: Seq<PartView>, i: int) -> bool {
    ||| path[i] is Normal
    ||| i == 0 && (path[i] is Root || path[i] is Prefix)
    ||| i == 1 && path[i] is Root && path[0] is Prefix
}

/// Whether a path is a prefix, the root and names behind it, or only some of these.
pub open spec fn is_normal(path: Seq<PartView>) -> bool {
    forall|i: int| 0 <= i < path.len() ==> #[trigger] part_fits(path, i)
}

/// The path that an extension means by a path; `id` is its identity, taken as a path.
pub open spec fn meant(
    work_dir: Seq<PartView>,
    id: Seq<PartView>,
    path: Seq<PartView>,
) -> Seq<PartView> {
    normalized(joined(joined(work_dir, id), path))
}

/// Whether an extension may write to the path that it means: it has to be in its own directory.
pub open spec fn may_write(
    work_dir: Seq<PartView>,
    id: Seq<PartView>,
    path: Seq<PartView>,
) -> bool {
    joined(work_dir, id).is_prefix_of(meant(work_dir, id, path))
}

/// An extension whose identity is no name, but leads upwards, may write nowhere.
pub proof fn no_directory_above(work_dir: Seq<PartView>, id: Seq<PartView>, path: Seq<PartView>)
    requires
        id.contains(PartView::Parent),
    ensures
        !may_write(work_dir, id, path),
{
    let dir = joined(work_dir, id);
    let k = choose|k: int| 0 <= k < id.len() && id[k] == PartView::Parent;
    let i = if id[0] is Prefix {
        k
    } else if id[0] is Root {
        if work_dir.len() > 0 && work_dir[0] is Prefix {
            k + 1
        } else {
            k
        }
    } else if id[0] is Current && work_dir.len() > 0 {
        work_dir.len() + k - 1
    } else {
        work_dir.len() + k
    };
    assert(dir[i] == PartView::Parent);
    normalizing_twice_is_normalizing_once(joined(dir, path));
    let m = meant(work_dir, id, path);
    if dir.is_prefix_of(m) {
        assert(m.subrange(0, dir.len() as int)[i] == dir[i]);
        assert(part_fits(m, i));
    }
}

/// What normalizing leaves is normal, and stays the same when it is normalized again.
pub proof fn normalizing_twice_is_normalizing_once(path: Seq<PartView>)
    ensures
        is_normal(normalized(path)),
        normalized(normalized(path)) == normalized(path),
    decreases path.len(),
{
    if path.len() > 0 {
        normalizing_twice_is_normalizing_once(path.drop_last());
        let before = normalized(path.drop_last());
        let after = normalized(path);
        assert forall|i: int| 0 <= i < after.len() implies #[trigger] part_fits(after, i) by {
            if i < before.len() {
                assert(part_fits(before, i));
            }
            if before.len() > 0 {
                assert(part_fits(before, 0));
            }
        }
    }
    lemma_normal_stays(normalized(path));
}

proof fn lemma_normal_stays(path: Seq<PartView>)
    requires
        is_normal(path),
    ensures
        normalized(path) == path,
    decreases path.len(),
{
    if path.len() > 0 {
        let rest = path.drop_last();
        assert forall|i: int| 0 <= i < rest.len() implies #[trigger] part_fits(rest, i) by {
            assert(part_fits(path, i));
        }
        lemma_normal_stays(rest);
        assert(part_fits(path, path.len() - 1));
        assert(normalized(path) =~= path);
    } else {
        assert(normalized(path) =~= path);
    }
}

/// A path that goes down only, from the directory of an extension, stays in it.
pub proof fn names_stay_in_the_directory(dir: Seq<PartView>, path: Seq<PartView>)
    requires
        is_normal(dir),
        forall|i: int| 0 <= i < path.len() ==> (#[trigger] path[i]) is Normal,
    ensures
        normalized(joined(dir, path)) == dir + path,
        dir.is_prefix_of(normalized(joined(dir, path))),
{
    let whole = dir + path;
    assert(joined(dir, path) =~= whole) by {
        if path.len() > 0 {
            assert(path[0] is Normal);
        }
    }
    assert forall|i: int| 0 <= i < whole.len() implies #[trigger] part_fits(whole, i) by {
        if i < dir.len() {
            assert(part_fits(dir, i));
            assert(whole[i] == dir[i]);
        } else {
            assert(whole[i] == path[i - dir.len()]);
        }
    }
    lemma_normal_stays(whole);
    assert(dir =~= whole.subrange(0, dir.len() as int));
}

/// A path that begins elsewhere does not lead into the directory of an extension, unless it names
/// that directory.
pub proof fn absolute_paths_ignore_the_directory(dir: Seq<PartView>, path: Seq<PartView>)
    requires
        path.len() > 0,
        path[0] is Prefix || path[0] is Root && !(dir.len() > 0 && dir[0] is Prefix),
    ensures
        joined(dir, path) == path,
{
}

/// Removes current and parent directories from a path.
pub fn normalize_path(path: &Vec<PathPart>) -> (r: Vec<PathPart>)
    ensures
        path_view(r@) == normalized(path_view(path@)),
{
    let ghost views = path_view(path@);
    let mut r: Vec<PathPart> = Vec::new();
    let mut i: usize = 0;
    assert(views.take(0) =~= Seq::empty());
    assert(path_view(r@) =~= Seq::empty());
    while i < path.len()
        invariant
            i <= path@.len(),
            views == path_view(path@),
            path_view(r@) == normalized(views.take(i as int)),
        decreases path.len() - i,
    {
        let ghost before = path_view(r@);
        proof {
            assert(views.take(i + 1).drop_last() =~= views.take(i as int));
            assert(views[i as int] == path@[i as int]@);
        }
        match &path[i] {
            PathPart::Prefix(name) => {
                r = Vec::new();
                r.push(PathPart::Prefix(name.clone()));
                assert(path_view(r@) =~= seq![PartView::Prefix(name@)]);
            },
            PathPart::Root => {
                let prefix: Option<PathPart> = if r.len() > 0 {
                    assert(before[0] == r@[0]@);
                    match &r[0] {
                        PathPart::Prefix(name) => Some(PathPart::Prefix(name.clone())),
                        _ => None,
                    }
                } else {
                    None
                };
                r = Vec::new();
                match prefix {
                    Some(part) => {
                        r.push(part);
                        r.push(PathPart::Root);
                        assert(path_view(r@) =~= seq![before[0], PartView::Root]);
                    },
                    None => {
                        r.push(PathPart::Root);
                        assert(path_view(r@) =~= seq![PartView::Root]);
                    },
                }
            },
            PathPart::Current => {},
            PathPart::Parent => {
                let n: usize = r.len();
                if n > 0 {
                    let named: bool = match &r[n - 1] {
                        PathPart::Normal(_) => true,
                        _ => false,
                    };
                    assert(before.last() == r@[n - 1]@);
                    if named {
                        r.pop();
                        assert(path_view(r@) =~= before.drop_last());
                    }
                }
            },
            PathPart::Normal(name) => {
                r.push(PathPart::Normal(name.clone()));
                assert(path_view(r@) =~= before.push(PartView::Normal(name@)));
            },
        }
        i += 1;
    }
    assert(views.take(i as int) =~= views);
    r
}

fn join_paths(base: &Vec<PathPart>, path: &Vec<PathPart>) -> (r: Vec<PathPart>)
    ensures
        path_view(r@) == joined(path_view(base@), path_view(path@)),
{
    let ghost target = joined(path_view(base@), path_view(path@));
    let mut r: Vec<PathPart> = Vec::new();
    proof {
        if path@.len() > 0 {
            assert(path_view(path@)[0] == path@[0]@);
        }
        if base@.len() > 0 {
            assert(path_view(base@)[0] == base@[0]@);
        }
    }
    let prefixed: bool = if base.len() > 0 {
        match &base[0] {
            PathPart::Prefix(_) => true,
            _ => false,
        }
    } else {
        false
    };
    let skipped: usize = if path.len() > 0 && base.len() > 0 {
        match &path[0] {
            PathPart::Current => 1,
            _ => 0,
        }
    } else {
        0
    };
    let mut i: usize = 0;
    let count: usize = if path.len() > 0 {
        match &path[0] {
            PathPart::Prefix(_) => 0,
            PathPart::Root => if prefixed {
                1
            } else {
                0
            },
            _ => base.len(),
        }
    } else {
        base.len()
    };
    assert(path_view(r@) =~= path_view(base@).take(0));
    while i < count
        invariant
            i <= count <= base@.len(),
            path_view(r@) == path_view(base@).take(i as int),
        decreases count - i,
    {
        let ghost before = path_view(r@);
        let part: PathPart = base[i].clone();
        let ghost added = part@;
        r.push(part);
        assert(path_view(r@) =~= before.push(added));
        assert(path_view(base@).take(i + 1) =~= before.push(added));
        i += 1;
    }
    let ghost start = path_view(r@);
    let mut k: usize = skipped;
    assert(path_view(r@) =~= start + path_view(path@).subrange(skipped as int, k as int));
    while k < path.len()
        invariant
            skipped <= k <= path@.len(),
            path_view(r@) == start + path_view(path@).subrange(skipped as int, k as int),
        decreases path.len() - k,
    {
        let ghost before = path_view(r@);
        let part: PathPart = path[k].clone();
        let ghost added = part@;
        r.push(part);
        assert(path_view(r@) =~= before.push(added));
        assert(start + path_view(path@).subrange(skipped as int, k + 1) =~= before.push(added));
        k += 1;
    }
    assert(path_view(path@).subrange(skipped as int, k as int) =~= path_view(path@).skip(
        skipped as int,
    ));
    assert(path_view(path@).skip(0) =~= path_view(path@));
    assert(path_view(base@).take(base@.len() as int) =~= path_view(base@));
    assert(path_view(r@) =~= target);
    r
}

fn starts_with(path: &Vec<PathPart>, prefix: &Vec<PathPart>) -> (r: bool)
    ensures
        r == path_view(prefix@).is_prefix_of(path_view(path@)),
{
    if prefix.len() > path.len() {
        return false;
    }
    let mut i: usize = 0;
    while i < prefix.len()
        invariant
            i <= prefix@.len() <= path@.len(),
            forall|k: int|
                0 <= k < i ==> #[trigger] path_view(prefix@)[k] == path_view(path@)[k],
        decreases prefix.len() - i,
    {
        if !path[i].same(&prefix[i]) {
            proof {
                assert(path_view(prefix@)[i as int] != path_view(path@)[i as int]);
                if path_view(prefix@).is_prefix_of(path_view(path@)) {
                    assert(path_view(path@).subrange(0, prefix@.len() as int)[i as int]
                        == path_view(prefix@)[i as int]);
                }
            }
            return false;
        }
        i += 1;
    }
    assert(path_view(prefix@) =~= path_view(path@).subrange(0, prefix@.len() as int));
    true
}

/// The path that an extension may not write to.
#[derive(Debug)]
pub struct WriteRefusal {
    pub path: Vec<PathPart>,
}

impl WriteRefusal {
    /// What the extension is told; `shown` is the path as the platform writes it.
    pub fn message(&self, shown: &str) -> (r: String)
        ensures
            r@ == "cannot write to path "@ + shown@,
    {
        String::from_str("cannot write to path ").concat(shown)
    }
}

/// Where extensions keep their files.
#[derive(Debug)]
pub struct WasmHost {
    pub work_dir: Vec<PathPart>,
}

impl WasmHost {
    /// The path that an extension means by a path; `id` has the parts of its identity.
    pub fn path_within(&self, id: &Vec<PathPart>, path: &Vec<PathPart>) -> (r: Vec<PathPart>)
        ensures
            path_view(r@) == meant(path_view(self.work_dir@), path_view(id@), path_view(path@)),
    {
        let dir: Vec<PathPart> = join_paths(&self.work_dir, id);
        normalize_path(&join_paths(&dir, path))
    }

    /// The path that an extension means by a path, if it may write there, and otherwise the path
    /// that it may not write to; `id` has the parts of its identity.
    pub fn writeable_path_within(&self, id: &Vec<PathPart>, path: &Vec<PathPart>) -> (r: Result<
        Vec<PathPart>,
        WriteRefusal,
    >)
        ensures
            ({
                let work_dir = path_view(self.work_dir@);
                let p = match r {
                    Ok(p) => p,
                    Err(refusal) => refusal.path,
                };
                &&& path_view(p@) == meant(work_dir, path_view(id@), path_view(path@))
                &&& r is Ok <==> may_write(work_dir, path_view(id@), path_view(path@))
            }),
    {
        let dir: Vec<PathPart> = join_paths(&self.work_dir, id);
        let meant: Vec<PathPart> = normalize_path(&join_paths(&dir, path));
        if starts_with(&meant, &dir) {
            Ok(meant)
        } else {
            Err(WriteRefusal { path: meant })
        }
    }

    /// The path that an extension means by a path.
    pub fn path_from_extension(&self, id: &str, path: &Vec<PathPart>) -> (r: Vec<PathPart>)
        ensures
            exists|parts: Seq<PartView>| #[trigger]
                can_be_parts(id@, parts) && path_view(r@) == meant(
                    path_view(self.work_dir@),
                    parts,
                    path_view(path@),
                ),
    {
        let parts: Vec<PathPart> = path_components(id);
        assert(can_be_parts(id@, path_view(parts@)));
        self.path_within(&parts, path)
    }

    /// The path that an extension means by a path, if it may write there: it has to be in the
    /// directory of the extension. Otherwise the path that it may not write to.
    pub fn writeable_path_from_extension(&self, id: &str, path: &Vec<PathPart>) -> (r: Result<
        Vec<PathPart>,
        WriteRefusal,
    >)
        ensures
            exists|parts: Seq<PartView>| #[trigger]
                can_be_parts(id@, parts) && ({
                    let work_dir = path_view(self.work_dir@);
                    let p = match r {
                        Ok(p) => p,
                        Err(refusal) => refusal.path,
                    };
                    &&& path_view(p@) == meant(work_dir, parts, path_view(path@))
                    &&& r is Ok <==> may_write(work_dir, parts, path_view(path@))
                }),
    {
        let parts: Vec<PathPart> = path_components(id);
        assert(can_be_parts(id@, path_view(parts@)));
        self.writeable_path_within(&parts, path)
    }
}

/// A section of six bytes holds the three numbers of a version, each with its high byte first; one of
/// another length holds none.
pub proof fn versions_are_three_numbers(data: Seq<u8>)
    ensures
        section_version(data) is Some <==> data.len() == 6,
        section_version(data) matches Some(v) ==> v.major / 256 == data[0] && v.major % 256 == data[1]
            && v.minor / 256 == data[2] && v.minor % 256 == data[3] && v.patch / 256 == data[4]
            && v.patch % 256 == data[5],
{
}

/// Whether a part can be read, and holds a version if it is named as the section of versions.
pub open spec fn part_is_fine(part: Option<Option<(Seq<char>, Seq<u8>)>>) -> bool {
    part matches Some(section) && (section matches Some(named) ==> (named.0 == "zed:api-version"@
        ==> named.1.len() == 6))
}

/// Whether a part is the section of versions.
pub open spec fn is_version_section(part: Option<Option<(Seq<char>, Seq<u8>)>>) -> bool {
    part matches Some(Some(named)) && named.0 == "zed:api-version"@
}

/// Of a module whose parts are all fine, the last section of versions says which it is for, and none
/// says so if there is none.
pub proof fn last_version_section_counts(parts: Seq<Option<Option<(Seq<char>, Seq<u8>)>>>, i: int)
    requires
        forall|j: int| 0 <= j < parts.len() ==> part_is_fine(#[trigger] parts[j]),
        forall|j: int| i < j < parts.len() && 0 <= j ==> !is_version_section(#[trigger] parts[j]),
        0 <= i < parts.len() ==> is_version_section(parts[i]),
        -1 <= i < parts.len(),
    ensures
        i >= 0 ==> (parts[i] matches Some(Some(named)) && (section_version(
            named.1,
        ) matches Some(v) && version_found(parts) == VersionFound::Version(v))),
        i == -1 ==> version_found(parts) is NoSection,
    decreases parts.len(),
{
    if parts.len() > 0 {
        let before = parts.drop_last();
        let last = parts[parts.len() - 1];
        assert(part_is_fine(last));
        assert forall|j: int| 0 <= j < before.len() implies part_is_fine(#[trigger] before[j]) by {
            assert(part_is_fine(parts[j]));
        }
        if i < parts.len() - 1 {
            assert(!is_version_section(last));
            assert forall|j: int| i < j < before.len() && 0 <= j implies !is_version_section(
                #[trigger] before[j],
            ) by {
                assert(!is_version_section(parts[j]));
            }
            last_version_section_counts(before, i);
        } else {
            lemma_fine_parts(before);
        }
    }
}

proof fn lemma_fine_parts(parts: Seq<Option<Option<(Seq<char>, Seq<u8>)>>>)
    requires
        forall|j: int| 0 <= j < parts.len() ==> part_is_fine(#[trigger] parts[j]),
    ensures
        version_found(parts) is NoSection || version_found(parts) is Version,
    decreases parts.len(),
{
    if parts.len() > 0 {
        let before = parts.drop_last();
        assert(part_is_fine(parts[parts.len() - 1]));
        assert forall|j: int| 0 <= j < before.len() implies part_is_fine(#[trigger] before[j]) by {
            assert(part_is_fine(parts[j]));
        }
        lemma_fine_parts(before);
    }
}

/// The first part that is not fine decides: one that cannot be read makes the module unreadable, and
/// a section of versions of the wrong length is invalid.
pub proof fn first_bad_part_decides(parts: Seq<Option<Option<(Seq<char>, Seq<u8>)>>>, i: int)
    requires
        0 <= i < parts.len(),
        !part_is_fine(parts[i]),
        forall|j: int| 0 <= j < i ==> part_is_fine(#[trigger] parts[j]),
    ensures
        parts[i] is None ==> version_found(parts) is Unreadable,
        parts[i] matches Some(Some(named)) ==> version_found(parts) == VersionFound::InvalidSection(
            named.1,
        ),
    decreases parts.len(),
{
    let before = parts.drop_last();
    if i < parts.len() - 1 {
        assert(before[i] == parts[i]);
        assert forall|j: int| 0 <= j < i implies part_is_fine(#[trigger] before[j]) by {
            assert(part_is_fine(parts[j]));
        }
        first_bad_part_decides(before, i);
    } else {
        assert forall|j: int| 0 <= j < before.len() implies part_is_fine(#[trigger] before[j]) by {
            assert(part_is_fine(parts[j]));
        }
        lemma_fine_parts(before);
    }
}

/// What is told of a module is what was found, and an error names the extension.
pub proof fn findings_are_told(
    r: Result<SemanticVersion, VersionError>,
    found: VersionFound,
    id: Seq<char>,
)
    requires
        tells_found(r, found, id),
    ensures
        r matches Ok(v) ==> found == VersionFound::Version(v),
        r is Ok <==> found is Version,
        r matches Err(VersionError::NoSection { extension_id }) ==> extension_id@ == id
            && found is NoSection,
        r matches Err(VersionError::InvalidSection { extension_id, data }) ==> extension_id@ == id
            && found == VersionFound::InvalidSection(data@),
        r matches Err(VersionError::Unreadable) ==> found is Unreadable,
{
}

/// A name, or a step up, in front of a path puts it behind the directory; a leading dot is dropped.
pub proof fn relative_paths_go_behind_the_directory(dir: Seq<PartView>, path: Seq<PartView>)
    requires
        dir.len() > 0,
    ensures
        path.len() == 0 ==> joined(dir, path) == dir,
        path.len() > 0 && (path[0] is Normal || path[0] is Parent) ==> joined(dir, path) == dir + path,
        path.len() > 0 && path[0] is Current ==> joined(dir, path) == dir + path.skip(1),
{
}

/// A step up takes back the name before it, a dot does nothing, and above the root there is nothing.
pub proof fn steps_up_take_names_back(path: Seq<PartView>, name: Seq<char>)
    ensures
        normalized(path.push(PartView::Normal(name))) == normalized(path).push(
            PartView::Normal(name),
        ),
        normalized(path.push(PartView::Normal(name)).push(PartView::Parent)) == normalized(path),
        normalized(path.push(PartView::Current)) == normalized(path),
        normalized(path).len() == 0 || !(normalized(path).last() is Normal) ==> normalized(
            path.push(PartView::Parent),
        ) == normalized(path),
        normalized(path).len() == 0 || !(normalized(path)[0] is Prefix) ==> normalized(
            path.push(PartView::Root),
        ) == seq![PartView::Root],
{
    let named = path.push(PartView::Normal(name));
    assert(named.drop_last() == path);
    assert(named.push(PartView::Parent).drop_last() == named);
    assert(path.push(PartView::Current).drop_last() == path);
    assert(path.push(PartView::Parent).drop_last() == path);
    assert(path.push(PartView::Root).drop_last() == path);
    assert(normalized(named).drop_last() == normalized(path));
}

proof fn lemma_last_piece(text: Seq<char>, sep: char, name: Seq<char>)
    requires
        !name.contains(sep),
    ensures
        split(text.push(sep) + name, sep) == split(text, sep).push(name),
    decreases name.len(),
{
    let whole = text.push(sep) + name;
    if name.len() == 0 {
        assert(name =~= Seq::<char>::empty());
        assert(whole == text.push(sep));
        assert(text.push(sep).drop_last() == text);
    } else {
        assert(name.contains(name[name.len() - 1]));
        assert(!name.drop_last().contains(sep)) by {
            if name.drop_last().contains(sep) {
                let i = choose|i: int| 0 <= i < name.drop_last().len() && name.drop_last()[i] == sep;
                assert(name[i] == sep);
            }
        }
        lemma_last_piece(text, sep, name.drop_last());
        assert(whole.drop_last() == text.push(sep) + name.drop_last());
        assert(name.drop_last().push(name.last()) == name);
        assert(whole.last() == name.last());
        assert(split(text, sep).push(name.drop_last()).drop_last() == split(text, sep));
    }
}

/// A name behind a slash is a further part of a path; nothing and a dot are no part there, and two
/// dots are a step up.
pub proof fn names_behind_slashes_are_parts(text: Seq<char>, name: Seq<char>)
    requires
        text.len() > 0,
        !name.contains('/'),
    ensures
        name.len() == 0 || name == "."@ ==> parts_of(text.push('/') + name) == parts_of(text),
        name == ".."@ ==> parts_of(text.push('/') + name) == parts_of(text).push(PartView::Parent),
        name.len() > 0 && name != "."@ && name != ".."@ ==> parts_of(text.push('/') + name)
            == parts_of(text).push(PartView::Normal(name)),
{
    reveal_strlit(".");
    reveal_strlit("..");
    lemma_last_piece(text, '/', name);
    crate::text::pieces_join_back(text, '/');
    let pieces = split(text, '/');
    assert(pieces.push(name).drop_last() == pieces);
    assert((text.push('/') + name)[0] == text[0]);
}

/// A path of one name has one part, and a slash in front is the root.
pub proof fn single_names_are_parts(name: Seq<char>)
    requires
        !name.contains('/'),
        name.len() > 0,
    ensures
        name == "."@ ==> parts_of(name) == seq![PartView::Current],
        name == ".."@ ==> parts_of(name) == seq![PartView::Parent],
        name != "."@ && name != ".."@ ==> parts_of(name) == seq![PartView::Normal(name)],
        name != "."@ && name != ".."@ ==> parts_of(seq!['/'] + name) == seq![
            PartView::Root,
            PartView::Normal(name),
        ],
        parts_of(seq!['/']) == seq![PartView::Root],
{
    reveal_strlit(".");
    reveal_strlit("..");
    assert(name.contains(name[0]));
    crate::text::first_piece_is_cut_off(name, '/', Seq::empty());
    assert(seq![name].drop_last() == Seq::<Seq<char>>::empty());
    reveal_with_fuel(named_parts, 3);
    let none = Seq::<char>::empty();
    lemma_last_piece(none, '/', name);
    lemma_last_piece(none, '/', none);
    assert(none.push('/') + name == seq!['/'] + name);
    assert(none.push('/') + none == seq!['/']);
    assert(split(none, '/') == seq![none]);
    assert(seq![none].push(name).drop_last() == seq![none]);
    assert(seq![none].push(none).drop_last() == seq![none]);
    assert(seq![none].drop_last() == Seq::<Seq<char>>::empty());
}

/// Bytes are listed as numbers with a comma and a space between them.
pub proof fn bytes_are_listed(data: Seq<u8>, b: u8)
    ensures
        byte_list(seq![b]) == decimal(b as nat),
        data.len() > 0 ==> byte_list(data.push(b)) == byte_list(data) + ", "@ + decimal(b as nat),
{
    assert(data.push(b).drop_last() == data);
}

} // verus!
