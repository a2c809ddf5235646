//! The requests that are sent to the completion server, and its answers.
use vstd::prelude::*;

verus! {

/// A request: what it is called on the wire.
pub trait Request {
    /// The name of the request.
    spec fn name() -> Seq<char>;

    /// Tells the name of the request.
    fn method() -> (r: &'static str)
        ensures
            r@ == Self::name(),
    ;
}

/// Asks whether the user is signed in.
#[derive(Debug)]
pub struct CheckStatus;

/// Whether only what is known locally counts.
#[derive(Clone, Copy, Debug, PartialEq, Eq, Structural)]
pub struct CheckStatusParams {
    pub local_checks_only: bool,
}

impl Request for CheckStatus {
    open spec fn name() -> Seq<char> {
        "checkStatus"@
    }

    fn method() -> (r: &'static str) {
        "checkStatus"
    }
}

/// Begins to sign in.
#[derive(Debug)]
pub struct SignInInitiate;

/// Nothing more needs to be told.
#[derive(Clone, Copy, Debug, PartialEq, Eq, Structural)]
pub struct SignInInitiateParams {}

/// The user is signed in already, or has to enter a code on a page.
#[derive(Debug)]
pub enum SignInInitiateResult {
    AlreadySignedIn { user: String },
    PromptUserDeviceFlow(PromptUserDeviceFlow),
}

/// The code that the user has to enter, and the page to enter it on.
#[derive(Debug)]
pub struct PromptUserDeviceFlow {
    pub user_code: String,
    pub verification_uri: String,
}

/// The meaning of a prompt.
#[verifier::ext_equal]
pub struct PromptView {
    pub user_code: Seq<char>,
    pub verification_uri: Seq<char>,
}

impl View for PromptUserDeviceFlow {
    type V = PromptView;

    open spec fn view(&self) -> PromptView {
        PromptView { user_code: self.user_code@, verification_uri: self.verification_uri@ }
    }
}

impl Clone for PromptUserDeviceFlow {
    fn clone(&self) -> (r: Self)
        ensures
            r@ == self@,
    {
        PromptUserDeviceFlow {
            user_code: self.user_code.clone(),
            verification_uri: self.verification_uri.clone(),
        }
    }
}

impl Request for SignInInitiate {
    open spec fn name() -> Seq<char> {
        "signInInitiate"@
    }

    fn method() -> (r: &'static str) {
        "signInInitiate"
    }
}

/// Waits until the user has entered the code.
#[derive(Debug)]
pub struct SignInConfirm;

/// The code that the user was given.
#[derive(Debug)]
pub struct SignInConfirmParams {
    pub user_code: String,
}

/// Whether the user is signed in, and who the user is. `SignedIn` is written `OK` on the wire.
#[derive(Debug)]
pub enum SignInStatus {
    SignedIn { user: String },
    MaybeOk { user: String },
    AlreadySignedIn { user: String },
    NotAuthorized { user: String },
    NotSignedIn,
}

impl Request for SignInConfirm {
    open spec fn name() -> Seq<char> {
        "signInConfirm"@
    }

    fn method() -> (r: &'static str) {
        "signInConfirm"
    }
}

/// Signs out.
#[derive(Debug)]
pub struct SignOut;

/// Nothing more needs to be told.
#[derive(Clone, Copy, Debug, PartialEq, Eq, Structural)]
pub struct SignOutParams {}

/// Nothing is answered.
#[derive(Clone, Copy, Debug, PartialEq, Eq, Structural)]
pub struct SignOutResult {}

impl Request for SignOut {
    open spec fn name() -> Seq<char> {
        "signOut"@
    }

    fn method() -> (r: &'static str) {
        "signOut"
    }
}

/// Asks for completions.
#[derive(Debug)]
pub struct GetCompletions;

/// What the completions are for.
#[derive(Debug)]
pub struct GetCompletionsParams {
    pub doc: GetCompletionsDocument,
}

/// A position as the server counts it: a line, and in it a number of UTF-16 units.
#[derive(Clone, Copy, Debug, PartialEq, Eq, Structural)]
pub struct Position {
    pub line: u32,
    pub character: u32,
}

/// A range between two positions.
#[derive(Clone, Copy, Debug, PartialEq, Eq, Structural)]
pub struct PositionRange {
    pub start: Position,
    pub end: Position,
}

/// A document and the position in it where text is to be completed.
#[derive(Debug)]
pub struct GetCompletionsDocument {
    pub source: String,
    pub tab_size: u32,
    pub indent_size: u32,
    pub insert_spaces: bool,
    pub uri: String,
    pub path: String,
    pub relative_path: String,
    pub language_id: String,
    pub position: Position,
    pub version: usize,
}

/// The meaning of a document.
#[verifier::ext_equal]
pub struct DocumentView {
    pub source: Seq<char>,
    pub tab_size: u32,
    pub indent_size: u32,
    pub insert_spaces: bool,
    pub uri: Seq<char>,
    pub path: Seq<char>,
    pub relative_path: Seq<char>,
    pub language_id: Seq<char>,
    pub position: Position,
    pub version: usize,
}

impl View for GetCompletionsDocument {
    type V = DocumentView;

    open spec fn view(&self) -> DocumentView {
        DocumentView {
            source: self.source@,
            tab_size: self.tab_size,
            indent_size: self.indent_size,
            insert_spaces: self.insert_spaces,
            uri: self.uri@,
            path: self.path@,
            relative_path: self.relative_path@,
            language_id: self.language_id@,
            position: self.position,
            version: self.version,
        }
    }
}

/// The completions that the server suggests, the best one first.
#[derive(Debug)]
pub struct GetCompletionsResult {
    pub completions: Vec<Completion>,
}

/// A suggestion of the server.
#[derive(Debug)]
pub struct Completion {
    pub text: String,
    pub position: Position,
    pub uuid: String,
    pub range: PositionRange,
    pub display_text: String,
}

impl Request for GetCompletions {
    open spec fn name() -> Seq<char> {
        "getCompletions"@
    }

    fn method() -> (r: &'static str) {
        "getCompletions"
    }
}

/// Asks for all completions that the user can go through.
#[derive(Debug)]
pub struct GetCompletionsCycling;

impl Request for GetCompletionsCycling {
    open spec fn name() -> Seq<char> {
        "getCompletionsCycling"@
    }

    fn method() -> (r: &'static str) {
        "getCompletionsCycling"
    }
}

/// Requests go by the names that the server knows.
pub proof fn requests_have_their_names()
    ensures
        CheckStatus::name() == "checkStatus"@,
        SignInInitiate::name() == "signInInitiate"@,
        SignInConfirm::name() == "signInConfirm"@,
        SignOut::name() == "signOut"@,
        GetCompletions::name() == "getCompletions"@,
        GetCompletionsCycling::name() == GetCompletions::name() + "Cycling"@,
{
    reveal_strlit("getCompletions");
    reveal_strlit("Cycling");
    reveal_strlit("getCompletionsCycling");
    assert("getCompletionsCycling"@ =~= "getCompletions"@ + "Cycling"@);
}

} // verus!
