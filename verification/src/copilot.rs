//! Completions from a server that the user has to be signed in to.
use vstd::prelude::*;
use crate::anchor::Anchor;
use crate::file_url::{can_be_address, file_url};
use crate::point::Bias;
use crate::request;
use crate::request::{DocumentView, PromptUserDeviceFlow, PromptView};
use crate::text::same_text;

verus! {

/// What became of the server.
#[derive(Debug)]
enum CopilotServer {
    Downloading,
    Error(String),
    Started(SignInStatus),
}

/// Whether the user is signed in to the server that runs.
#[derive(Debug)]
enum SignInStatus {
    Authorized { user: String },
    Unauthorized { user: String },
    SigningIn { prompt: Option<PromptUserDeviceFlow> },
    SignedOut,
}

/// What the user sees of the server.
#[derive(Debug)]
pub enum Status {
    Downloading,
    Error(String),
    SignedOut,
    SigningIn { prompt: Option<PromptUserDeviceFlow> },
    Unauthorized,
    Authorized,
}

/// The meaning of a status.
#[verifier::ext_equal]
pub enum StatusView {
    Downloading,
    Error(Seq<char>),
    SignedOut,
    SigningIn { prompt: Option<PromptView> },
    Unauthorized,
    Authorized,
}

/// The meaning of a prompt that may be missing.
pub open spec fn prompt_view(prompt: Option<PromptUserDeviceFlow>) -> Option<PromptView> {
    match prompt {
        Some(p) => Some(p@),
        None => None,
    }
}

impl View for Status {
    type V = StatusView;

    open spec fn view(&self) -> StatusView {
        match *self {
            Status::Downloading => StatusView::Downloading,
            Status::Error(e) => StatusView::Error(e@),
            Status::SignedOut => StatusView::SignedOut,
            Status::SigningIn { prompt } => StatusView::SigningIn { prompt: prompt_view(prompt) },
            Status::Unauthorized => StatusView::Unauthorized,
            Status::Authorized => StatusView::Authorized,
        }
    }
}

impl Status {
    /// Whether the user may ask for completions.
    pub fn is_authorized(&self) -> (r: bool)
        ensures
            r == (self@ is Authorized),
    {
        match self {
            Status::Authorized => true,
            _ => false,
        }
    }
}

/// A completion at a place of a buffer.
#[derive(Debug)]
pub struct Completion {
    pub position: Anchor,
    pub text: String,
}

/// How signing in goes on.
#[derive(Clone, Copy, Debug, PartialEq, Eq, Structural)]
pub enum SignInStart {
    NotStarted,
    AlreadyDone,
    Join,
    Begin,
}

/// What follows when signing in was begun: the server waits for the code of the user, or it is
/// finished.
#[derive(Debug)]
pub enum SignInNext {
    Confirm { user_code: String },
    Finish(Result<request::SignInStatus, String>),
}

/// The answer to a request that needs a server which does not run yet.
pub open spec fn not_started_yet() -> Seq<char> {
    "copilot hasn't started yet"@
}

impl SignInStart {
    /// What the request to sign in gives at once: it fails if the server does not run yet, and is
    /// fulfilled if there is nothing left to do. Otherwise it waits for signing in to end.
    pub fn outcome(&self) -> (r: Option<Result<(), String>>)
        ensures
            match *self {
                SignInStart::NotStarted => r matches Some(Err(e)) && e@ == not_started_yet(),
                SignInStart::AlreadyDone => r == Some(Ok::<(), String>(())),
                SignInStart::Join => r is None,
                SignInStart::Begin => r is None,
            },
    {
        match self {
            SignInStart::NotStarted => Some(Err(String::from_str("copilot hasn't started yet"))),
            SignInStart::AlreadyDone => Some(Ok(())),
            SignInStart::Join => None,
            SignInStart::Begin => None,
        }
    }

    /// Whether those who watch the server are told: of signing in that begins, and of one that is
    /// joined, so that the prompt is shown again.
    pub fn notifies(&self) -> (r: bool)
        ensures
            r == (*self is Join || *self is Begin),
    {
        match self {
            SignInStart::Join => true,
            SignInStart::Begin => true,
            _ => false,
        }
    }
}

/// The state of the completion server.
#[derive(Debug)]
pub struct Copilot {
    server: CopilotServer,
}

/// What a status of the server makes of the user's status.
pub open spec fn status_after(s: request::SignInStatus) -> StatusView {
    match s {
        request::SignInStatus::SignedIn { user } => StatusView::Authorized,
        request::SignInStatus::MaybeOk { user } => StatusView::Authorized,
        request::SignInStatus::NotAuthorized { user } => StatusView::Unauthorized,
        _ => StatusView::SignedOut,
    }
}

/// Whether the server runs.
pub open spec fn is_running(s: StatusView) -> bool {
    !(s is Downloading) && !(s is Error)
}

/// How a request to sign in is met.
pub open spec fn sign_in_start(s: StatusView) -> SignInStart {
    match s {
        StatusView::Downloading => SignInStart::NotStarted,
        StatusView::Error(_) => SignInStart::NotStarted,
        StatusView::Authorized => SignInStart::AlreadyDone,
        StatusView::Unauthorized => SignInStart::AlreadyDone,
        StatusView::SigningIn { prompt } => SignInStart::Join,
        StatusView::SignedOut => SignInStart::Begin,
    }
}

/// What is told when completions may not be asked for, or nothing if they may.
pub open spec fn refusal(s: StatusView) -> Option<Seq<char>> {
    match s {
        StatusView::Downloading => Some("copilot is still downloading"@),
        StatusView::Error(e) => Some("copilot was not started because of an error: "@ + e),
        StatusView::Authorized => None,
        _ => Some("must sign in before using copilot"@),
    }
}

/// Completions may be asked for exactly if the user is authorized.
pub proof fn only_the_authorized_are_served(s: StatusView)
    ensures
        refusal(s) is None <==> s is Authorized,
{
}

impl Copilot {
    /// What the user sees of the server.
    pub closed spec fn state(&self) -> StatusView {
        match self.server {
            CopilotServer::Downloading => StatusView::Downloading,
            CopilotServer::Error(e) => StatusView::Error(e@),
            CopilotServer::Started(s) => match s {
                SignInStatus::Authorized { user } => StatusView::Authorized,
                SignInStatus::Unauthorized { user } => StatusView::Unauthorized,
                SignInStatus::SigningIn { prompt } => StatusView::SigningIn {
                    prompt: prompt_view(prompt),
                },
                SignInStatus::SignedOut => StatusView::SignedOut,
            },
        }
    }

    /// The server is being fetched.
    pub fn new() -> (r: Copilot)
        ensures
            r.state() == StatusView::Downloading,
    {
        Copilot { server: CopilotServer::Downloading }
    }

    /// The server has started and told its status, or it has not.
    pub fn finish_start(&mut self, result: Result<request::SignInStatus, String>)
        ensures
            final(self).state() == match result {
                Ok(status) => status_after(status),
                Err(error) => StatusView::Error(error@),
            },
    {
        match result {
            Ok(status) => {
                self.server = CopilotServer::Started(SignInStatus::SignedOut);
                self.update_sign_in_status(status);
            },
            Err(error) => {
                self.server = CopilotServer::Error(error);
            },
        }
    }

    /// Begins to sign in, unless that has happened or is going on; `outcome` of the result tells what
    /// becomes of the request, and `notifies` whether anybody is told.
    pub fn sign_in(&mut self) -> (r: SignInStart)
        ensures
            r == sign_in_start(old(self).state()),
            final(self).state() == (if r is Begin {
                StatusView::SigningIn { prompt: None }
            } else {
                old(self).state()
            }),
    {
        match &self.server {
            CopilotServer::Started(status) => match status {
                SignInStatus::Authorized { .. } => SignInStart::AlreadyDone,
                SignInStatus::Unauthorized { .. } => SignInStart::AlreadyDone,
                SignInStatus::SigningIn { .. } => SignInStart::Join,
                SignInStatus::SignedOut => {
                    self.server = CopilotServer::Started(SignInStatus::SigningIn { prompt: None });
                    SignInStart::Begin
                },
            },
            _ => SignInStart::NotStarted,
        }
    }

    /// Follows the first answer of the server: a prompt is shown while signing in goes on, and its
    /// code is what the server then waits for.
    pub fn follow_initiated(
        &mut self,
        result: Result<request::SignInInitiateResult, String>,
    ) -> (r: SignInNext)
        ensures
            match result {
                Ok(request::SignInInitiateResult::AlreadySignedIn { user }) => {
                    &&& r == SignInNext::Finish(Ok(request::SignInStatus::SignedIn { user }))
                    &&& final(self).state() == old(self).state()
                },
                Ok(request::SignInInitiateResult::PromptUserDeviceFlow(flow)) => {
                    &&& r matches SignInNext::Confirm { user_code } && user_code@
                        == flow@.user_code
                    &&& final(self).state() == (if old(self).state() is SigningIn {
                        StatusView::SigningIn { prompt: Some(flow@) }
                    } else {
                        old(self).state()
                    })
                },
                Err(error) => {
                    &&& r == SignInNext::Finish(Err(error))
                    &&& final(self).state() == old(self).state()
                },
            },
    {
        match result {
            Ok(request::SignInInitiateResult::AlreadySignedIn { user }) => SignInNext::Finish(
                Ok(request::SignInStatus::SignedIn { user }),
            ),
            Ok(request::SignInInitiateResult::PromptUserDeviceFlow(flow)) => {
                let signing_in: bool = match &self.server {
                    CopilotServer::Started(status) => match status {
                        SignInStatus::SigningIn { .. } => true,
                        _ => false,
                    },
                    _ => false,
                };
                let user_code: String = flow.user_code.clone();
                if signing_in {
                    self.server = CopilotServer::Started(
                        SignInStatus::SigningIn { prompt: Some(flow) },
                    );
                }
                SignInNext::Confirm { user_code }
            },
            Err(error) => SignInNext::Finish(Err(error)),
        }
    }

    /// Ends signing in; one that failed leaves the user signed out.
    pub fn finish_sign_in(&mut self, result: Result<request::SignInStatus, String>) -> (r: Result<
        (),
        String,
    >)
        ensures
            match result {
                Ok(status) => {
                    &&& r is Ok
                    &&& final(self).state() == (if is_running(old(self).state()) {
                        status_after(status)
                    } else {
                        old(self).state()
                    })
                },
                Err(error) => {
                    &&& r == Err::<(), String>(error)
                    &&& final(self).state() == (if is_running(old(self).state()) {
                        StatusView::SignedOut
                    } else {
                        old(self).state()
                    })
                },
            },
    {
        match result {
            Ok(status) => {
                self.update_sign_in_status(status);
                Ok(())
            },
            Err(error) => {
                self.update_sign_in_status(request::SignInStatus::NotSignedIn);
                Err(error)
            },
        }
    }

    /// Signs out; the server is told of it if it runs.
    pub fn sign_out(&mut self) -> (r: Result<(), String>)
        ensures
            r is Ok <==> is_running(old(self).state()),
            r is Ok ==> final(self).state() == StatusView::SignedOut,
            r matches Err(e) ==> e@ == not_started_yet() && final(self).state() == old(
                self,
            ).state(),
    {
        let running: bool = match &self.server {
            CopilotServer::Started(_) => true,
            _ => false,
        };
        if running {
            self.server = CopilotServer::Started(SignInStatus::SignedOut);
            Ok(())
        } else {
            Err(String::from_str("copilot hasn't started yet"))
        }
    }

    /// What the user sees of the server.
    pub fn status(&self) -> (r: Status)
        ensures
            r@ == self.state(),
    {
        match &self.server {
            CopilotServer::Downloading => Status::Downloading,
            CopilotServer::Error(error) => Status::Error(error.clone()),
            CopilotServer::Started(status) => match status {
                SignInStatus::Authorized { .. } => Status::Authorized,
                SignInStatus::Unauthorized { .. } => Status::Unauthorized,
                SignInStatus::SigningIn { prompt } => Status::SigningIn {
                    prompt: match prompt {
                        Some(p) => Some(p.clone()),
                        None => None,
                    },
                },
                SignInStatus::SignedOut => Status::SignedOut,
            },
        }
    }

    fn update_sign_in_status(&mut self, lsp_status: request::SignInStatus)
        ensures
            final(self).state() == (if is_running(old(self).state()) {
                status_after(lsp_status)
            } else {
                old(self).state()
            }),
    {
        let running: bool = match &self.server {
            CopilotServer::Started(_) => true,
            _ => false,
        };
        if running {
            let status: SignInStatus = match lsp_status {
                request::SignInStatus::SignedIn { user } => SignInStatus::Authorized { user },
                request::SignInStatus::MaybeOk { user } => SignInStatus::Authorized { user },
                request::SignInStatus::NotAuthorized { user } => SignInStatus::Unauthorized {
                    user,
                },
                _ => SignInStatus::SignedOut,
            };
            self.server = CopilotServer::Started(status);
        }
    }

    /// Whether completions may be asked for, or why not.
    pub fn authorized_server(&self) -> (r: Result<(), String>)
        ensures
            match refusal(self.state()) {
                Some(why) => r matches Err(e) && e@ == why,
                None => r is Ok,
            },
    {
        match &self.server {
            CopilotServer::Downloading => Err(String::from_str("copilot is still downloading")),
            CopilotServer::Error(error) => Err(
                String::from_str("copilot was not started because of an error: ").concat(
                    error.as_str(),
                ),
            ),
            CopilotServer::Started(status) => match status {
                SignInStatus::Authorized { .. } => Ok(()),
                _ => Err(String::from_str("must sign in before using copilot")),
            },
        }
    }
}

impl Default for Copilot {
    fn default() -> (r: Self)
        ensures
            r.state() == StatusView::Downloading,
    {
        Copilot::new()
    }
}

/// What is known of the file of a buffer: whether it is on this machine, and its paths.
#[derive(Debug)]
pub struct CompletionFile {
    pub is_local: bool,
    pub abs_path: String,
    pub full_path: String,
    pub path: String,
}

/// What is known of the buffer that is to be completed.
#[derive(Debug)]
pub struct CompletionBuffer {
    pub text: String,
    pub language_name: Option<String>,
    pub file: Option<CompletionFile>,
    pub tab_size: u32,
    pub hard_tabs: bool,
    pub position: request::Position,
}

/// What `str::to_lowercase` makes of a text.
pub uninterp spec fn lowercase(text: Seq<char>) -> Seq<char>;

/// `str::to_lowercase` of the standard library: the lowercase of a text is a function of the text.
/// Which characters it maps to which is left to the Unicode tables that it uses.
#[verifier::external_body]
fn to_lowercase(text: &str) -> (r: String)
    ensures
        r@ == lowercase(text@),
{
    text.to_lowercase()
}

/// The path by which a buffer is known: that of its file on this machine, or the one that its host
/// tells, or a made-up one.
pub open spec fn buffer_path(b: CompletionBuffer) -> Seq<char> {
    match b.file {
        Some(file) => if file.is_local {
            file.abs_path@
        } else {
            file.full_path@
        },
        None => "/untitled"@,
    }
}

/// The path of a buffer within its project.
pub open spec fn buffer_relative_path(b: CompletionBuffer) -> Seq<char> {
    match b.file {
        Some(file) => file.path@,
        None => "untitled"@,
    }
}

/// The identifier of a language: its name in lowercase; plain text has its own.
pub open spec fn language_id_of(name: Option<String>) -> Seq<char> {
    match name {
        Some(name) => if name@ == "Plain Text"@ {
            "plaintext"@
        } else {
            lowercase(name@)
        },
        None => "plaintext"@,
    }
}

/// Tells the path by which a buffer is known.
pub fn completion_path(buffer: &CompletionBuffer) -> (r: String)
    ensures
        r@ == buffer_path(*buffer),
{
    match &buffer.file {
        Some(file) => if file.is_local {
            file.abs_path.clone()
        } else {
            file.full_path.clone()
        },
        None => String::from_str("/untitled"),
    }
}

/// The identifier of a language whose name in lowercase is known.
pub fn language_id(name: &Option<String>, lowercased: String) -> (r: String)
    ensures
        r@ == match *name {
            Some(name) => if name@ == "Plain Text"@ {
                "plaintext"@
            } else {
                lowercased@
            },
            None => "plaintext"@,
        },
{
    match name {
        Some(n) => if same_text(n.as_str(), "Plain Text") {
            String::from_str("plaintext")
        } else {
            lowercased
        },
        None => String::from_str("plaintext"),
    }
}

/// What is asked of the server for a buffer whose path has the address `uri`.
pub fn build_completion_params(buffer: &CompletionBuffer, uri: String) -> (r:
    request::GetCompletionsParams)
    ensures
        r.doc@ == (DocumentView {
            source: buffer.text@,
            tab_size: buffer.tab_size,
            indent_size: 1,
            insert_spaces: !buffer.hard_tabs,
            uri: uri@,
            path: buffer_path(*buffer),
            relative_path: buffer_relative_path(*buffer),
            language_id: language_id_of(buffer.language_name),
            position: buffer.position,
            version: 0,
        }),
{
    let lowercased: String = match &buffer.language_name {
        Some(name) => to_lowercase(name.as_str()),
        None => String::new(),
    };
    let relative_path: String = match &buffer.file {
        Some(file) => file.path.clone(),
        None => String::from_str("untitled"),
    };
    request::GetCompletionsParams {
        doc: request::GetCompletionsDocument {
            source: buffer.text.clone(),
            tab_size: buffer.tab_size,
            indent_size: 1,
            insert_spaces: !buffer.hard_tabs,
            uri,
            path: completion_path(buffer),
            relative_path,
            language_id: language_id(&buffer.language_name, lowercased),
            position: buffer.position,
            version: 0,
        },
    }
}

/// What is asked of the server for a buffer whose path has this address, or nothing if it has none.
pub fn params_at(buffer: &CompletionBuffer, uri: Option<String>) -> (r: Option<
    request::GetCompletionsParams,
>)
    ensures
        r is Some <==> uri is Some,
        r matches Some(params) ==> params.doc@ == (DocumentView {
            source: buffer.text@,
            tab_size: buffer.tab_size,
            indent_size: 1,
            insert_spaces: !buffer.hard_tabs,
            uri: uri->0@,
            path: buffer_path(*buffer),
            relative_path: buffer_relative_path(*buffer),
            language_id: language_id_of(buffer.language_name),
            position: buffer.position,
            version: 0,
        }),
{
    match uri {
        Some(uri) => Some(build_completion_params(buffer, uri)),
        None => None,
    }
}

/// What is asked of the server for a buffer, or nothing if its path has no address. Which paths have
/// one depends on the platform.
pub fn completion_params(buffer: &CompletionBuffer) -> (r: Option<request::GetCompletionsParams>)
    ensures
        can_be_address(
            buffer_path(*buffer),
            match r {
                Some(params) => Some(params.doc@.uri),
                None => None,
            },
        ),
        r matches Some(params) ==> {
            &&& params.doc@ == DocumentView {
                source: buffer.text@,
                tab_size: buffer.tab_size,
                indent_size: 1,
                insert_spaces: !buffer.hard_tabs,
                uri: params.doc@.uri,
                path: buffer_path(*buffer),
                relative_path: buffer_relative_path(*buffer),
                language_id: language_id_of(buffer.language_name),
                position: buffer.position,
                version: 0,
            }
        },
{
    let path: String = completion_path(buffer);
    params_at(buffer, file_url(path.as_str()))
}

/// The number of bytes of a character in UTF-8.
pub open spec fn utf8_len(c: char) -> int {
    if (c as u32) < 0x80 {
        1
    } else if (c as u32) < 0x800 {
        2
    } else if (c as u32) < 0x10000 {
        3
    } else {
        4
    }
}

/// The number of units of a character in UTF-16.
pub open spec fn utf16_len(c: char) -> int {
    if (c as u32) < 0x10000 {
        1
    } else {
        2
    }
}

/// The number of bytes of a text in UTF-8.
pub open spec fn bytes_len(text: Seq<char>) -> int
    decreases text.len(),
{
    if text.len() == 0 {
        0
    } else {
        bytes_len(text.drop_last()) + utf8_len(text.last())
    }
}

/// The number of characters in front of a position: it is in the row `row` from `i` on, and no
/// more than `units` UTF-16 units into it. A position behind the text is its end, and one behind
/// a row is the end of the row; one within a character is the beginning of the character.
pub open spec fn chars_before(text: Seq<char>, i: int, row: int, units: int) -> int
    decreases text.len() - i,
{
    if i >= text.len() {
        text.len() as int
    } else if row > 0 {
        chars_before(
            text,
            i + 1,
            if text[i] == '\n' {
                row - 1
            } else {
                row
            },
            units,
        )
    } else if text[i] == '\n' || utf16_len(text[i]) > units {
        i
    } else {
        chars_before(text, i + 1, 0, units - utf16_len(text[i]))
    }
}

/// The offset in bytes that a position of the server stands for.
pub open spec fn position_offset(text: Seq<char>, p: request::Position) -> int {
    bytes_len(text.take(chars_before(text, 0, p.line as int, p.character as int)))
}

/// A position stands for one in the text.
pub proof fn position_is_in_text(text: Seq<char>, i: int, row: int, units: int)
    requires
        0 <= i <= text.len(),
    ensures
        i <= chars_before(text, i, row, units) <= text.len(),
    decreases text.len() - i,
{
    if i < text.len() {
        if row > 0 {
            position_is_in_text(
                text,
                i + 1,
                if text[i] == '\n' {
                    row - 1
                } else {
                    row
                },
                units,
            );
        } else if !(text[i] == '\n' || utf16_len(text[i]) > units) {
            position_is_in_text(text, i + 1, 0, units - utf16_len(text[i]));
        }
    }
}

proof fn lemma_bytes_len(text: Seq<char>, i: int)
    requires
        0 <= i <= text.len(),
    ensures
        0 <= bytes_len(text.take(i)) <= bytes_len(text),
    decreases text.len() - i,
{
    if i < text.len() {
        lemma_bytes_len(text, i + 1);
        assert(text.take(i + 1).drop_last() =~= text.take(i));
    } else {
        assert(text.take(i) =~= text);
    }
    lemma_bytes_positive(text.take(i));
}

proof fn lemma_bytes_positive(text: Seq<char>)
    ensures
        0 <= bytes_len(text),
    decreases text.len(),
{
    if text.len() > 0 {
        lemma_bytes_positive(text.drop_last());
    }
}

/// Places a completion of the server in a buffer.
pub fn completion_from_lsp(completion: request::Completion, buffer: &Vec<char>) -> (r: Completion)
    requires
        bytes_len(buffer@) <= usize::MAX,
    ensures
        r.position == (Anchor {
            offset: position_offset(buffer@, completion.position) as usize,
            bias: Bias::Left,
        }),
        0 <= position_offset(buffer@, completion.position) <= bytes_len(buffer@),
        r.text@ == completion.display_text@,
{
    let ghost text = buffer@;
    let ghost target = chars_before(
        text,
        0,
        completion.position.line as int,
        completion.position.character as int,
    );
    let mut i: usize = 0;
    let mut row: u32 = completion.position.line;
    let mut units: u32 = completion.position.character;
    let mut offset: usize = 0;
    proof {
        assert(text.take(0) =~= Seq::empty());
        position_is_in_text(
            text,
            0,
            completion.position.line as int,
            completion.position.character as int,
        );
        lemma_bytes_len(text, target);
    }
    let mut done: bool = false;
    while i < buffer.len() && !done
        invariant
            text == buffer@,
            bytes_len(text) <= usize::MAX,
            i <= text.len(),
            offset == bytes_len(text.take(i as int)),
            !done ==> chars_before(text, i as int, row as int, units as int) == target,
            done ==> i == target,
        decreases text.len() - i, if done { 0int } else { 1int },
    {
        let c: char = buffer[i];
        proof {
            lemma_bytes_len(text, i + 1);
            assert(text.take(i + 1).drop_last() =~= text.take(i as int));
        }
        let code: u32 = c as u32;
        let size: u32 = if code < 0x10000 { 1 } else { 2 };
        if row == 0 && (c == '\n' || size > units) {
            done = true;
        } else {
            if row > 0 {
                if c == '\n' {
                    row -= 1;
                }
            } else {
                units -= size;
            }
            let len: usize = if code < 0x80 {
                1
            } else if code < 0x800 {
                2
            } else if code < 0x10000 {
                3
            } else {
                4
            };
            offset += len;
            i += 1;
        }
    }
    Completion { position: Anchor::before(offset), text: completion.display_text }
}

/// The first of the completions that the server suggests, in the buffer.
pub fn first_completion(result: request::GetCompletionsResult, buffer: &Vec<char>) -> (r: Option<
    Completion,
>)
    requires
        bytes_len(buffer@) <= usize::MAX,
    ensures
        r is Some <==> result.completions@.len() > 0,
        r matches Some(c) ==> c.position.offset == position_offset(
            buffer@,
            result.completions@[0].position,
        ) && c.position.bias == Bias::Left && c.text@ == result.completions@[0].display_text@,
{
    let mut completions: Vec<request::Completion> = result.completions;
    if completions.len() > 0 {
        Some(completion_from_lsp(completions.remove(0), buffer))
    } else {
        None
    }
}

/// All completions that the server suggests, in the buffer.
pub fn all_completions(result: request::GetCompletionsResult, buffer: &Vec<char>) -> (r: Vec<
    Completion,
>)
    requires
        bytes_len(buffer@) <= usize::MAX,
    ensures
        r@.len() == result.completions@.len(),
        forall|i: int|
            0 <= i < r@.len() ==> {
                let c = #[trigger] r@[i];
                &&& c.position.offset == position_offset(buffer@, result.completions@[i].position)
                &&& c.position.bias == Bias::Left
                &&& c.text@ == result.completions@[i].display_text@
            },
{
    let mut completions: Vec<request::Completion> = result.completions;
    let ghost all = completions@;
    let mut reversed: Vec<Completion> = Vec::new();
    while completions.len() > 0
        invariant
            bytes_len(buffer@) <= usize::MAX,
            completions@ == all.take(completions@.len() as int),
            completions@.len() + reversed@.len() == all.len(),
            forall|k: int|
                0 <= k < reversed@.len() ==> {
                    let c = #[trigger] reversed@[k];
                    let from = all[all.len() - 1 - k];
                    &&& c.position.offset == position_offset(buffer@, from.position)
                    &&& c.position.bias == Bias::Left
                    &&& c.text@ == from.display_text@
                },
        decreases completions@.len(),
    {
        let ghost n = completions@.len() as int;
        if let Some(last) = completions.pop() {
            assert(last == all[n - 1]);
            assert(completions@ =~= all.take(n - 1));
            reversed.push(completion_from_lsp(last, buffer));
        }
    }
    let mut r: Vec<Completion> = Vec::new();
    let ghost rev = reversed@;
    while reversed.len() > 0
        invariant
            rev.len() == all.len(),
            reversed@ == rev.take(reversed@.len() as int),
            reversed@.len() + r@.len() == all.len(),
            forall|k: int| 0 <= k < r@.len() ==> #[trigger] r@[k] == rev[all.len() - 1 - k],
        decreases reversed@.len(),
    {
        let ghost n = reversed@.len() as int;
        if let Some(last) = reversed.pop() {
            assert(last == rev[n - 1]);
            assert(reversed@ =~= rev.take(n - 1));
            r.push(last);
        }
    }
    r
}

/// What is done with the server of the latest release.
#[derive(Clone, Copy, Debug, PartialEq, Eq, Structural)]
pub enum FetchStep {
    Use,
    InstallThenClearOthers,
}

/// Decides what is done with the server of the latest release: one that is not there is installed,
/// and then everything but the directory of its version is removed.
pub fn fetch_step(server_exists: bool) -> (r: FetchStep)
    ensures
        r == (if server_exists {
            FetchStep::Use
        } else {
            FetchStep::InstallThenClearOthers
        }),
{
    if server_exists {
        FetchStep::Use
    } else {
        FetchStep::InstallThenClearOthers
    }
}

/// Why no server that was fetched before can be started.
#[derive(Debug)]
pub enum NoCachedServer {
    NoCachedBinary,
    MissingExecutable { directory: String },
}

/// The directory of the server that was fetched last: the last directory among the entries.
pub open spec fn last_directory(entries: Seq<(String, bool)>) -> Option<Seq<char>>
    decreases entries.len(),
{
    if entries.len() == 0 {
        None
    } else if entries.last().1 {
        Some(entries.last().0@)
    } else {
        last_directory(entries.drop_last())
    }
}

/// Where the server stands in the directory of its version.
pub open spec fn server_path_in(directory: Seq<char>) -> Seq<char> {
    directory + "/node_modules/copilot-node-server/copilot/dist/agent.js"@
}

/// Tells where the server stands in the directory of its version.
pub fn server_path(directory: &str) -> (r: String)
    ensures
        r@ == server_path_in(directory@),
{
    let mut r: String = String::new();
    r.append(directory);
    r.append("/node_modules/copilot-node-server/copilot/dist/agent.js");
    assert(r@ =~= server_path_in(directory@));
    r
}

/// Tells the name of the directory of a version.
pub fn version_directory(release: &str) -> (r: String)
    ensures
        r@ == "copilot-"@ + release@,
{
    String::from_str("copilot-").concat(release)
}

/// Picks the directory of the server that was fetched last; each entry tells whether it is a
/// directory.
pub fn cached_directory(entries: &Vec<(String, bool)>) -> (r: Option<String>)
    ensures
        match last_directory(entries@) {
            Some(name) => r matches Some(n) && n@ == name,
            None => r is None,
        },
{
    let mut i: usize = entries.len();
    assert(entries@.take(i as int) =~= entries@);
    while i > 0
        invariant
            i <= entries@.len(),
            last_directory(entries@) == last_directory(entries@.take(i as int)),
        decreases i,
    {
        assert(entries@.take(i as int).drop_last() =~= entries@.take(i - 1));
        if entries[i - 1].1 {
            return Some(entries[i - 1].0.clone());
        }
        i -= 1;
    }
    None
}

/// Where the cached server stands; `exists` tells whether there is a file at that place.
pub fn cached_server(directory: Option<String>, exists: bool) -> (r: Result<String, NoCachedServer>)
    ensures
        match directory {
            None => r == Err::<String, NoCachedServer>(NoCachedServer::NoCachedBinary),
            Some(d) => if exists {
                r matches Ok(path) && path@ == server_path_in(d@)
            } else {
                r == Err::<String, NoCachedServer>(
                    NoCachedServer::MissingExecutable { directory: d },
                )
            },
        },
{
    match directory {
        None => Err(NoCachedServer::NoCachedBinary),
        Some(d) => if exists {
            Ok(server_path(d.as_str()))
        } else {
            Err(NoCachedServer::MissingExecutable { directory: d })
        },
    }
}

/// Signed in is who is signed in or may be; who may not use the server is unauthorized; all others
/// are signed out.
pub proof fn users_are_known_by_their_status(s: request::SignInStatus)
    ensures
        status_after(s) is Authorized <==> s is SignedIn || s is MaybeOk,
        status_after(s) is Unauthorized <==> s is NotAuthorized,
        status_after(s) is SignedOut <==> s is AlreadySignedIn || s is NotSignedIn,
{
}

/// Signing in begins once: who is signed in, whatever the server says of them, is done, and who comes
/// while it goes on waits for it.
pub proof fn signing_in_begins_once(s: StatusView)
    ensures
        sign_in_start(s) is NotStarted <==> !is_running(s),
        sign_in_start(s) is NotStarted <==> s is Downloading || s is Error,
        sign_in_start(s) is AlreadyDone <==> s is Authorized || s is Unauthorized,
        sign_in_start(s) is Join <==> s is SigningIn,
        sign_in_start(s) is Begin <==> s is SignedOut,
{
}

/// A request that is refused is told why.
pub proof fn refusal_says_why(s: StatusView)
    ensures
        s is Downloading ==> refusal(s) == Some("copilot is still downloading"@),
        s matches StatusView::Error(error) ==> refusal(s) == Some(
            "copilot was not started because of an error: "@ + error,
        ),
        is_running(s) && !(s is Authorized) ==> refusal(s) == Some(
            "must sign in before using copilot"@,
        ),
{
}

/// A buffer is known by its file: where it lies on this machine, or in its project elsewhere. One
/// without a file is untitled.
pub proof fn buffers_are_known_by_their_files(b: CompletionBuffer)
    ensures
        b.file matches Some(file) ==> buffer_relative_path(b) == file.path@ && (file.is_local
            ==> buffer_path(b) == file.abs_path@) && (!file.is_local ==> buffer_path(b)
            == file.full_path@),
        b.file is None ==> buffer_path(b) == seq!['/'] + buffer_relative_path(b),
        b.file is None ==> buffer_relative_path(b) == "untitled"@,
{
    reveal_strlit("/untitled");
    reveal_strlit("untitled");
    if b.file is None {
        assert("/untitled"@ =~= seq!['/'] + "untitled"@);
    }
}

/// Plain text has a name of its own; every other language goes by its name in small letters.
pub proof fn languages_go_by_small_letters(name: String)
    ensures
        name@ != "Plain Text"@ ==> language_id_of(Some(name)) == lowercase(name@),
        name@ == "Plain Text"@ ==> language_id_of(Some(name)) == language_id_of(None),
        language_id_of(None) == "plaintext"@,
{
}

/// A character is counted as the bytes that it is written in.
pub proof fn characters_are_counted_in_bytes(text: Seq<char>)
    ensures
        bytes_len(text) == vstd::utf8::encode_utf8(text).len(),
    decreases text.len(),
{
    if text.len() > 0 {
        characters_are_counted_in_bytes(text.drop_first());
        bytes_are_counted_piece_by_piece(text.take(1), text.drop_first());
        assert(text.take(1) + text.drop_first() == text);
        assert(text.take(1).drop_last() == Seq::<char>::empty());
        reveal_with_fuel(bytes_len, 2);
        assert(text.take(1).last() == text[0]);
        vstd::utf8::char_is_scalar(text[0]);
        vstd::utf8::char_u32_cast(text[0], text[0] as u32);
        assert(vstd::utf8::encode_scalar(text[0] as u32).len() == utf8_len(text[0]));
    }
}

/// The bytes of two texts are those of the one behind those of the other.
pub proof fn bytes_are_counted_piece_by_piece(front: Seq<char>, back: Seq<char>)
    ensures
        bytes_len(front + back) == bytes_len(front) + bytes_len(back),
    decreases back.len(),
{
    if back.len() == 0 {
        assert(front + back == front);
    } else {
        bytes_are_counted_piece_by_piece(front, back.drop_last());
        assert((front + back).drop_last() == front + back.drop_last());
    }
}

/// How many units of two bytes a text takes.
pub open spec fn units_in(text: Seq<char>) -> int
    decreases text.len(),
{
    if text.len() == 0 {
        0
    } else {
        units_in(text.drop_last()) + (if (text.last() as u32) > 0xffff {
            2int
        } else {
            1
        })
    }
}

/// A place in a row lies behind the lines before it and behind as many characters of its own line as
/// fit in the units, and behind no more.
pub proof fn place_is_in_its_row(text: Seq<char>, start: int, end: int, row: int, units: int)
    requires
        0 <= start <= end <= text.len(),
        start == 0 || text[start - 1] == '\n',
        line_feeds(text.take(start)) == row,
        forall|j: int| start <= j < end ==> text[j] != '\n',
        units_in(text.subrange(start, end)) <= units,
        end == text.len() || text[end] == '\n' || units_in(text.subrange(start, end + 1)) > units,
    ensures
        chars_before(text, 0, row, units) == end,
{
    lemma_rows_passed(text, start, 0, units);
    lemma_units_passed(text, start, end, units);
}

/// How many line feeds there are in a text.
pub open spec fn line_feeds(text: Seq<char>) -> int
    decreases text.len(),
{
    if text.len() == 0 {
        0
    } else {
        line_feeds(text.drop_last()) + (if text.last() == '\n' {
            1int
        } else {
            0
        })
    }
}

proof fn lemma_rows_passed(text: Seq<char>, at: int, more: int, units: int)
    requires
        0 <= at <= text.len(),
        more >= 1 || more == 0 && (at == 0 || text[at - 1] == '\n'),
    ensures
        chars_before(text, 0, line_feeds(text.take(at)) + more, units) == chars_before(
            text,
            at,
            more,
            units,
        ),
        line_feeds(text.take(at)) >= 0,
    decreases at,
{
    if at > 0 {
        assert(text.take(at).drop_last() == text.take(at - 1));
        if text[at - 1] == '\n' {
            lemma_rows_passed(text, at - 1, more + 1, units);
        } else {
            lemma_rows_passed(text, at - 1, more, units);
        }
    } else {
        assert(text.take(at) == Seq::<char>::empty());
    }
}

proof fn lemma_units_passed(text: Seq<char>, start: int, end: int, units: int)
    requires
        0 <= start <= end <= text.len(),
        forall|j: int| start <= j < end ==> text[j] != '\n',
        units_in(text.subrange(start, end)) <= units,
        end == text.len() || text[end] == '\n' || units_in(text.subrange(start, end + 1)) > units,
    ensures
        chars_before(text, start, 0, units) == end,
    decreases end - start,
{
    if start == end {
        assert(text.subrange(start, end) == Seq::<char>::empty());
        if end < text.len() {
            assert(text.subrange(start, end + 1).drop_last() == Seq::<char>::empty());
            reveal_with_fuel(units_in, 2);
        }
    } else {
        lemma_units_in_front(text, start, end);
        if end < text.len() {
            lemma_units_in_front(text, start, end + 1);
        }
        lemma_units_not_negative(text.subrange(start + 1, end));
        lemma_units_passed(text, start + 1, end, units - utf16_len(text[start]));
    }
}

proof fn lemma_units_in_front(text: Seq<char>, start: int, end: int)
    requires
        0 <= start < end <= text.len(),
    ensures
        units_in(text.subrange(start, end)) == utf16_len(text[start]) + units_in(
            text.subrange(start + 1, end),
        ),
    decreases end - start,
{
    assert(text.subrange(start, end).drop_last() == text.subrange(start, end - 1));
    if start + 1 < end {
        assert(text.subrange(start + 1, end).drop_last() == text.subrange(start + 1, end - 1));
        lemma_units_in_front(text, start, end - 1);
    } else {
        assert(text.subrange(start + 1, end) == Seq::<char>::empty());
        assert(text.subrange(start, end - 1) == Seq::<char>::empty());
    }
}

proof fn lemma_units_not_negative(text: Seq<char>)
    ensures
        units_in(text) >= 0,
    decreases text.len(),
{
    if text.len() > 0 {
        lemma_units_not_negative(text.drop_last());
    }
}

/// The directory that comes last among the entries is the one taken, whatever else is there.
pub proof fn last_directory_counts(entries: Seq<(String, bool)>, i: int)
    requires
        0 <= i < entries.len(),
        entries[i].1,
        forall|j: int| i < j < entries.len() ==> !(#[trigger] entries[j]).1,
    ensures
        last_directory(entries) == Some(entries[i].0@),
    decreases entries.len(),
{
    if i < entries.len() - 1 {
        assert(!entries[entries.len() - 1].1);
        last_directory_counts(entries.drop_last(), i);
    }
}

/// Files alone have no directory.
pub proof fn files_are_no_directories(entries: Seq<(String, bool)>)
    requires
        forall|j: int| 0 <= j < entries.len() ==> !(#[trigger] entries[j]).1,
    ensures
        last_directory(entries) is None,
    decreases entries.len(),
{
    if entries.len() > 0 {
        files_are_no_directories(entries.drop_last());
    }
}

/// The server lies at one place below the directory of its version.
pub proof fn server_lies_below_its_directory(directory: Seq<char>)
    ensures
        server_path_in(directory).take(directory.len() as int) == directory,
        server_path_in(directory).skip(directory.len() as int)
            == "/node_modules/copilot-node-server/copilot/dist/agent.js"@,
{
}

} // verus!
