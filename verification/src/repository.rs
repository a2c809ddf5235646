//! Reading files from the index of a repository.
use vstd::prelude::*;
use std::path::{Component, Path};
use crate::file_url::{is_separator, may_have_prefix, utf8_text};
use crate::text_map::TextMap;

verus! {

/// A repository: what its index holds, and which branch is checked out.
pub trait GitRepository {
    /// Reads the index again.
    fn reload_index(&self);

    /// The text of a file as the index has it.
    fn load_index_text(&self, relative_file_path: &str) -> Option<String>;

    /// The name of the branch that is checked out.
    fn branch_name(&self) -> Option<String>;
}

/// What a path begins with.
#[derive(Clone, Copy, Debug, PartialEq, Eq, Structural)]
pub enum FirstComponent {
    Prefix,
    RootDir,
    CurDir,
    ParentDir,
    Normal,
}

/// Why a path names no file of a repository.
#[derive(Debug)]
pub enum RepoPathError {
    Empty,
    WindowsPrefix { path: String },
    Absolute { path: String },
    StartsWithDot { path: String },
    StartsWithParent { path: String },
}

impl RepoPathError {
    /// The sentence that tells about it.
    pub fn message(&self) -> (r: String)
        ensures
            r@ == match *self {
                RepoPathError::Empty => "repo path should not be empty"@,
                RepoPathError::WindowsPrefix { path } => "repo path `"@ + path@
                    + "` should be relative, not a windows prefix"@,
                RepoPathError::Absolute { path } => "repo path `"@ + path@
                    + "` should be relative"@,
                RepoPathError::StartsWithDot { path } => "repo path `"@ + path@
                    + "` should not start with `.`"@,
                RepoPathError::StartsWithParent { path } => "repo path `"@ + path@
                    + "` should not start with `..`"@,
            },
    {
        match self {
            RepoPathError::Empty => String::from_str("repo path should not be empty"),
            RepoPathError::WindowsPrefix { path } => String::from_str("repo path `").concat(
                path.as_str(),
            ).concat("` should be relative, not a windows prefix"),
            RepoPathError::Absolute { path } => String::from_str("repo path `").concat(
                path.as_str(),
            ).concat("` should be relative"),
            RepoPathError::StartsWithDot { path } => String::from_str("repo path `").concat(
                path.as_str(),
            ).concat("` should not start with `.`"),
            RepoPathError::StartsWithParent { path } => String::from_str("repo path `").concat(
                path.as_str(),
            ).concat("` should not start with `..`"),
        }
    }
}

/// What a path begins with on every platform; nothing where the platforms differ. An empty path
/// begins with nothing; one with a single slash in front is absolute; `.` and `..` stand for
/// themselves if nothing or a slash follows; anything else begins with a name, unless its second
/// character is a colon, or it has a backslash where the platforms differ: in front, or behind `.`
/// or `..`.
pub open spec fn common_first(path: Seq<char>) -> Option<Option<FirstComponent>> {
    if path.len() == 0 {
        Some(None)
    } else if path[0] == '/' {
        if path.len() > 1 && is_separator(path[1]) {
            None
        } else {
            Some(Some(FirstComponent::RootDir))
        }
    } else if path.len() == 1 && path[0] == '.' || path.len() > 1 && path[0] == '.' && path[1]
        == '/' {
        Some(Some(FirstComponent::CurDir))
    } else if path.len() == 2 && path[0] == '.' && path[1] == '.' || path.len() > 2 && path[0] == '.'
        && path[1] == '.' && path[2] == '/' {
        Some(Some(FirstComponent::ParentDir))
    } else if may_have_prefix(path) || path[0] == '\\' || (path[0] == '.' && (path[1] == '\\'
        || path[1] == '.' && path.len() > 2 && path[2] == '\\')) {
        None
    } else {
        Some(Some(FirstComponent::Normal))
    }
}

/// The first item of `Path::components` of the standard library. Where the platforms differ, as for
/// the prefixes of Windows, it is left unsaid.
#[verifier::external_body]
fn first_component(path: &str) -> (r: Option<FirstComponent>)
    ensures
        common_first(path@) matches Some(first) ==> r == first,
{
    match Path::new(path).components().next() {
        None => None,
        Some(Component::Prefix(_)) => Some(FirstComponent::Prefix),
        Some(Component::RootDir) => Some(FirstComponent::RootDir),
        Some(Component::CurDir) => Some(FirstComponent::CurDir),
        Some(Component::ParentDir) => Some(FirstComponent::ParentDir),
        Some(Component::Normal(_)) => Some(FirstComponent::Normal),
    }
}

/// Whether a path that begins with a component names a file of a repository, or why not.
pub fn check_first_component(first: Option<FirstComponent>, path: &str) -> (r: Result<
    (),
    RepoPathError,
>)
    ensures
        is_check_of(first, path@, r),
{
    match first {
        None => Err(RepoPathError::Empty),
        Some(FirstComponent::Prefix) => Err(RepoPathError::WindowsPrefix { path: path.to_owned() }),
        Some(FirstComponent::RootDir) => Err(RepoPathError::Absolute { path: path.to_owned() }),
        Some(FirstComponent::CurDir) => Err(RepoPathError::StartsWithDot { path: path.to_owned() }),
        Some(FirstComponent::ParentDir) => Err(
            RepoPathError::StartsWithParent { path: path.to_owned() },
        ),
        Some(FirstComponent::Normal) => Ok(()),
    }
}

/// Whether an outcome is the one for a path that begins with a component.
pub open spec fn is_check_of(
    first: Option<FirstComponent>,
    path: Seq<char>,
    r: Result<(), RepoPathError>,
) -> bool {
    match first {
        None => r == Err::<(), RepoPathError>(RepoPathError::Empty),
        Some(FirstComponent::Prefix) => r matches Err(RepoPathError::WindowsPrefix { path: p })
            && p@ == path,
        Some(FirstComponent::RootDir) => r matches Err(RepoPathError::Absolute { path: p }) && p@
            == path,
        Some(FirstComponent::CurDir) => r matches Err(RepoPathError::StartsWithDot { path: p })
            && p@ == path,
        Some(FirstComponent::ParentDir) => r matches Err(RepoPathError::StartsWithParent { path: p })
            && p@ == path,
        Some(FirstComponent::Normal) => r is Ok,
    }
}

/// Checks that a path can name a file of a repository: it is relative, not empty, and does not begin
/// with `.` or `..`.
pub fn check_path_to_repo_path_errors(relative_file_path: &str) -> (r: Result<(), RepoPathError>)
    ensures
        exists|first: Option<FirstComponent>| #[trigger]
            is_check_of(first, relative_file_path@, r) && (common_first(
                relative_file_path@,
            ) matches Some(c) ==> c == first),
{
    let first: Option<FirstComponent> = first_component(relative_file_path);
    let r: Result<(), RepoPathError> = check_first_component(first, relative_file_path);
    assert(is_check_of(first, relative_file_path@, r));
    r
}

/// What looking a file up in an index gave.
#[derive(Debug)]
pub enum IndexEntry {
    Missing,
    Blob { content: Vec<u8> },
    Failed,
}

/// The text of a file in an index: none where the path names no file, where the index has none, where
/// it could not be read, and where its bytes are not text.
pub fn index_text(checked: Result<(), RepoPathError>, entry: IndexEntry) -> (r: Option<String>)
    ensures
        match entry {
            IndexEntry::Blob { content } => if checked is Ok && vstd::utf8::valid_utf8(content@) {
                r matches Some(text) && text@ == vstd::utf8::decode_utf8(content@)
            } else {
                r is None
            },
            _ => r is None,
        },
{
    if checked.is_err() {
        return None;
    }
    match entry {
        IndexEntry::Blob { content } => utf8_text(content),
        IndexEntry::Missing => None,
        IndexEntry::Failed => None,
    }
}

/// A repository that holds what it is told.
pub struct FakeGitRepository {
    pub index_contents: TextMap,
}

impl FakeGitRepository {
    /// A repository with an index.
    pub fn open(index_contents: TextMap) -> (r: FakeGitRepository)
        ensures
            r.index_contents@ == index_contents@,
    {
        FakeGitRepository { index_contents }
    }
}

impl GitRepository for FakeGitRepository {
    fn reload_index(&self) {
    }

    fn load_index_text(&self, relative_file_path: &str) -> (r: Option<String>)
        ensures
            r is Some <==> self.index_contents@.dom().contains(relative_file_path@),
            r matches Some(text) ==> text@ == self.index_contents@[relative_file_path@],
    {
        match self.index_contents.get(relative_file_path) {
            Some(text) => Some(text.clone()),
            None => None,
        }
    }

    fn branch_name(&self) -> (r: Option<String>)
        ensures
            r is None,
    {
        None
    }
}

/// The first component of a path is known by how the path begins.
pub proof fn paths_begin_with_their_first_component(path: Seq<char>)
    ensures
        path.len() == 0 ==> common_first(path) == Some(None::<FirstComponent>),
        path.len() > 0 && path[0] == '/' && (path.len() == 1 || !is_separator(path[1]))
            ==> common_first(path) == Some(Some(FirstComponent::RootDir)),
        path == "."@ || "./"@.is_prefix_of(path) ==> common_first(path) == Some(
            Some(FirstComponent::CurDir),
        ),
        path == ".."@ || "../"@.is_prefix_of(path) ==> common_first(path) == Some(
            Some(FirstComponent::ParentDir),
        ),
        path.len() > 0 && path[0] != '/' && path[0] != '\\' && path[0] != '.' && (path.len() == 1
            || path[1] != ':') ==> common_first(path) == Some(Some(FirstComponent::Normal)),
        path.len() > 2 && path[0] == '.' && path[1] != '.' && path[1] != '/' && path[1] != '\\'
            && path[1] != ':' ==> common_first(path) == Some(Some(FirstComponent::Normal)),
{
    reveal_strlit(".");
    reveal_strlit("./");
    reveal_strlit("..");
    reveal_strlit("../");
    if "./"@.is_prefix_of(path) {
        assert(path[0] == "./"@[0] && path[1] == "./"@[1]);
    }
    if "../"@.is_prefix_of(path) {
        assert(path[0] == "../"@[0] && path[1] == "../"@[1] && path[2] == "../"@[2]);
    }
}

/// A path is taken only if it begins with a name, and an error says what it begins with.
pub proof fn only_names_are_taken(
    first: Option<FirstComponent>,
    path: Seq<char>,
    r: Result<(), RepoPathError>,
)
    requires
        is_check_of(first, path, r),
    ensures
        r is Ok <==> first == Some(FirstComponent::Normal),
        r matches Err(RepoPathError::Empty) ==> first is None,
        r matches Err(RepoPathError::WindowsPrefix { path: p }) ==> first == Some(
            FirstComponent::Prefix,
        ) && p@ == path,
        r matches Err(RepoPathError::Absolute { path: p }) ==> first == Some(FirstComponent::RootDir)
            && p@ == path,
        r matches Err(RepoPathError::StartsWithDot { path: p }) ==> first == Some(
            FirstComponent::CurDir,
        ) && p@ == path,
        r matches Err(RepoPathError::StartsWithParent { path: p }) ==> first == Some(
            FirstComponent::ParentDir,
        ) && p@ == path,
{
}

} // verus!
