//! The settings of a project.
use vstd::prelude::*;

verus! {

/// Which files show their changes at the edge of the text.
#[derive(Clone, Copy, Debug, PartialEq, Eq, Structural)]
pub enum GitGutterSetting {
    TrackedFiles,
    Hide,
}

impl Default for GitGutterSetting {
    fn default() -> (r: Self)
        ensures
            r == GitGutterSetting::TrackedFiles,
    {
        GitGutterSetting::TrackedFiles
    }
}

/// The text of a setting in a file.
pub open spec fn gutter_name(setting: GitGutterSetting) -> Seq<char> {
    match setting {
        GitGutterSetting::TrackedFiles => "tracked_files"@,
        GitGutterSetting::Hide => "hide"@,
    }
}

impl GitGutterSetting {
    /// The text of the setting in a file.
    pub fn name(&self) -> (r: &'static str)
        ensures
            r@ == gutter_name(*self),
    {
        match self {
            GitGutterSetting::TrackedFiles => "tracked_files",
            GitGutterSetting::Hide => "hide",
        }
    }

    /// The setting that a text in a file stands for.
    pub fn from_name(name: &str) -> (r: Option<GitGutterSetting>)
        ensures
            match r {
                Some(setting) => gutter_name(setting) == name@,
                None => forall|setting: GitGutterSetting| #[trigger] gutter_name(setting) != name@,
            },
    {
        if crate::text::same_text(name, "tracked_files") {
            Some(GitGutterSetting::TrackedFiles)
        } else if crate::text::same_text(name, "hide") {
            Some(GitGutterSetting::Hide)
        } else {
            None
        }
    }
}

/// A setting is read back from its text.
pub proof fn gutter_names_differ(a: GitGutterSetting, b: GitGutterSetting)
    ensures
        gutter_name(a) == gutter_name(b) ==> a == b,
{
    reveal_strlit("tracked_files");
    reveal_strlit("hide");
    assert("tracked_files"@.len() != "hide"@.len());
}

/// The settings for version control.
#[derive(Clone, Copy, Debug, PartialEq, Eq, Structural)]
pub struct GitSettings {
    pub git_gutter: Option<GitGutterSetting>,
    pub gutter_debounce: Option<u64>,
}

impl Default for GitSettings {
    fn default() -> (r: Self)
        ensures
            r == (GitSettings { git_gutter: None, gutter_debounce: None }),
    {
        GitSettings { git_gutter: None, gutter_debounce: None }
    }
}

/// The settings of the gutter have the names that stand in a file of settings.
pub proof fn gutter_settings_have_their_names()
    ensures
        gutter_name(GitGutterSetting::TrackedFiles) == "tracked_files"@,
        gutter_name(GitGutterSetting::Hide) == "hide"@,
{
}

} // verus!
