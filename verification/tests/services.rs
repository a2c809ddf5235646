use editor_core::copilot::{
    all_completions, build_completion_params, cached_directory, cached_server, completion_from_lsp,
    completion_params, fetch_step, first_completion, params_at, server_path, version_directory,
    CompletionBuffer, CompletionFile, Copilot, FetchStep, NoCachedServer, SignInNext, SignInStart,
    Status,
};
use editor_core::lsp::{
    frame, parse_header, protocol_version, read_frame, read_last_frame, Delivery, Frame,
    HeaderError, Incoming, LanguageServer,
};
use editor_core::peer::{
    io_step, request_outcome, ConnectionId, IncomingAction, IoEvent, IoFailure, IoStep, Peer,
    PeerError, PeerId, Response, TypedEnvelope,
};
use editor_core::proto::{
    deserialize_operation, deserialize_selections, serialize_operation, serialize_selections,
    BufferAnchor, BufferSelection, DiagnosticEntry, DiagnosticSeverity, EditOperation, FullRange,
    InsertionTimestamp, InvalidOperation, Lamport, Local, Operation, OperationMessage,
    SelectionMessage, UndoOperation,
};
use editor_core::point::Bias;
use editor_core::repository::{
    check_first_component, check_path_to_repo_path_errors, index_text, FakeGitRepository,
    FirstComponent, GitRepository, IndexEntry,
};
use editor_core::request::{
    CheckStatus, Completion, GetCompletions, GetCompletionsCycling, GetCompletionsResult, Position,
    PositionRange, PromptUserDeviceFlow, Request, SignInConfirm, SignInInitiate,
    SignInInitiateResult, SignInStatus, SignOut,
};
use editor_core::text_map::TextMap;
use editor_core::wasm_host::{
    normalize_path, parse_wasm_extension_version, parse_wasm_extension_version_custom_section,
    PathPart, SemanticVersion, WasmHost,
};

fn signed_in() -> SignInStatus {
    SignInStatus::SignedIn { user: "u".to_string() }
}

#[test]
fn copilot_signs_in() {
    let mut copilot = Copilot::new();
    assert!(matches!(copilot.status(), Status::Downloading));
    assert_eq!(copilot.authorized_server(), Err("copilot is still downloading".to_string()));
    assert_eq!(copilot.sign_in(), SignInStart::NotStarted);
    assert_eq!(
        SignInStart::NotStarted.outcome(),
        Some(Err("copilot hasn't started yet".to_string()))
    );
    assert_eq!(SignInStart::AlreadyDone.outcome(), Some(Ok(())));
    assert_eq!(SignInStart::Join.outcome(), None);
    assert!(SignInStart::Join.notifies() && SignInStart::Begin.notifies());
    assert!(!SignInStart::AlreadyDone.notifies());
    assert_eq!(copilot.sign_out(), Err("copilot hasn't started yet".to_string()));

    copilot.finish_start(Ok(SignInStatus::NotSignedIn));
    assert!(matches!(copilot.status(), Status::SignedOut));
    assert_eq!(
        copilot.authorized_server(),
        Err("must sign in before using copilot".to_string())
    );
    assert_eq!(copilot.sign_in(), SignInStart::Begin);
    assert_eq!(copilot.sign_in(), SignInStart::Join);
    let prompt = PromptUserDeviceFlow {
        user_code: "code".to_string(),
        verification_uri: "uri".to_string(),
    };
    let next = copilot.follow_initiated(Ok(SignInInitiateResult::PromptUserDeviceFlow(prompt)));
    assert!(matches!(next, SignInNext::Confirm { user_code } if user_code == "code"));
    match copilot.status() {
        Status::SigningIn { prompt: Some(prompt) } => assert_eq!(prompt.verification_uri, "uri"),
        other => panic!("{:?}", other),
    }
    assert_eq!(copilot.finish_sign_in(Ok(signed_in())), Ok(()));
    assert!(copilot.status().is_authorized());
    assert_eq!(copilot.authorized_server(), Ok(()));
    assert_eq!(copilot.sign_in(), SignInStart::AlreadyDone);
    assert_eq!(copilot.sign_out(), Ok(()));
    assert!(matches!(copilot.status(), Status::SignedOut));
}

#[test]
fn copilot_fails_to_start() {
    let mut copilot = Copilot::new();
    copilot.finish_start(Err("no node".to_string()));
    assert!(matches!(copilot.status(), Status::Error(e) if e == "no node"));
    assert_eq!(
        copilot.authorized_server(),
        Err("copilot was not started because of an error: no node".to_string())
    );
}

#[test]
fn copilot_users_may_be_refused() {
    let mut copilot = Copilot::new();
    copilot.finish_start(Ok(SignInStatus::NotAuthorized { user: "u".to_string() }));
    assert!(matches!(copilot.status(), Status::Unauthorized));
    copilot.finish_start(Ok(SignInStatus::MaybeOk { user: "u".to_string() }));
    assert!(copilot.status().is_authorized());
}

#[test]
fn requests_have_names() {
    assert_eq!(CheckStatus::method(), "checkStatus");
    assert_eq!(SignInInitiate::method(), "signInInitiate");
    assert_eq!(SignInConfirm::method(), "signInConfirm");
    assert_eq!(SignOut::method(), "signOut");
    assert_eq!(GetCompletions::method(), "getCompletions");
    assert_eq!(GetCompletionsCycling::method(), "getCompletionsCycling");
}

fn buffer() -> CompletionBuffer {
    CompletionBuffer {
        text: "fn main() {}".to_string(),
        language_name: Some("Rust".to_string()),
        file: Some(CompletionFile {
            is_local: true,
            abs_path: "/a/b.rs".to_string(),
            full_path: "p/b.rs".to_string(),
            path: "b.rs".to_string(),
        }),
        tab_size: 4,
        hard_tabs: false,
        position: Position { line: 0, character: 3 },
    }
}

#[test]
fn completions_are_asked_for() {
    let doc = completion_params(&buffer()).unwrap().doc;
    assert_eq!(doc.uri, "file:///a/b.rs");
    assert_eq!(doc.path, "/a/b.rs");
    assert_eq!(doc.relative_path, "b.rs");
    assert_eq!(doc.language_id, "rust");
    assert_eq!(doc.source, "fn main() {}");
    assert_eq!((doc.tab_size, doc.indent_size, doc.insert_spaces), (4, 1, true));
    assert_eq!(doc.version, 0);

    let remote = CompletionBuffer {
        file: Some(CompletionFile { is_local: false, ..buffer().file.unwrap() }),
        ..buffer()
    };
    assert_eq!(build_completion_params(&remote, "u".to_string()).doc.path, "p/b.rs");
    let untitled = CompletionBuffer {
        file: None,
        language_name: Some("Plain Text".to_string()),
        hard_tabs: true,
        ..buffer()
    };
    assert!(params_at(&untitled, None).is_none());
    assert_eq!(params_at(&untitled, Some("u".to_string())).unwrap().doc.uri, "u");
    let doc = completion_params(&untitled).unwrap().doc;
    assert_eq!(doc.path, "/untitled");
    assert_eq!(doc.relative_path, "untitled");
    assert_eq!(doc.uri, "file:///untitled");
    assert_eq!(doc.language_id, "plaintext");
    assert!(!doc.insert_spaces);
}

fn completion(line: u32, character: u32) -> Completion {
    let position = Position { line, character };
    Completion {
        text: "text".to_string(),
        position,
        uuid: "id".to_string(),
        range: PositionRange { start: position, end: position },
        display_text: "shown".to_string(),
    }
}

#[test]
fn completions_are_placed() {
    let text: Vec<char> = "a\u{1f350}b\nc".chars().collect();
    let placed = completion_from_lsp(completion(0, 3), &text);
    assert_eq!(placed.position.offset, 5);
    assert_eq!(placed.text, "shown");
    assert_eq!(completion_from_lsp(completion(0, 2), &text).position.offset, 1);
    assert_eq!(completion_from_lsp(completion(9, 0), &text).position.offset, 8);
    let both = || GetCompletionsResult { completions: vec![completion(1, 0), completion(0, 0)] };
    assert_eq!(first_completion(both(), &text).unwrap().position.offset, 7);
    assert_eq!(all_completions(both(), &text).len(), 2);
    assert!(first_completion(GetCompletionsResult { completions: vec![] }, &text).is_none());
}

#[test]
fn the_server_is_found() {
    assert_eq!(
        server_path("/d"),
        "/d/node_modules/copilot-node-server/copilot/dist/agent.js"
    );
    assert_eq!(version_directory("1.2"), "copilot-1.2");
    let entries = vec![("a".to_string(), true), ("b".to_string(), true), ("c".to_string(), false)];
    assert_eq!(cached_directory(&entries), Some("b".to_string()));
    assert!(matches!(cached_server(None, true), Err(NoCachedServer::NoCachedBinary)));
    assert!(matches!(
        cached_server(Some("x".to_string()), false),
        Err(NoCachedServer::MissingExecutable { directory }) if directory == "x"
    ));
    assert!(cached_server(Some("x".to_string()), true).is_ok());
}

#[test]
fn messages_are_framed() {
    let framed = frame(&b"{}".to_vec());
    assert_eq!(framed, b"Content-Length: 2\r\n\r\n{}".to_vec());
    let mut bytes = framed.clone();
    bytes.extend_from_slice(&frame(&b"[1]".to_vec()));
    assert_eq!(read_frame(&bytes, 0), Frame::Message { start: 21, end: 23 });
    assert_eq!(read_frame(&bytes, 23), Frame::Message { start: 44, end: 47 });
    assert_eq!(read_frame(&bytes, 47), Frame::Incomplete);
    assert_eq!(read_last_frame(&bytes, 23), read_frame(&bytes, 23));
    assert_eq!(read_last_frame(&bytes, 47), Frame::Invalid(HeaderError::InvalidHeader));
    let cut = b"Content-Length: 2".to_vec();
    assert_eq!(read_frame(&cut, 0), Frame::Incomplete);
    assert_eq!(read_last_frame(&cut, 0), Frame::Incomplete);
    let cut = b"Content-Length: ".to_vec();
    assert_eq!(read_last_frame(&cut, 0), Frame::Invalid(HeaderError::InvalidLength));
    let cut = b"Content-Length: 0\r\n".to_vec();
    assert_eq!(read_frame(&cut, 0), Frame::Incomplete);
    assert_eq!(read_last_frame(&cut, 0), Frame::Message { start: 19, end: 19 });
    assert_eq!(parse_header(b"Content-Length: 15\r\n".to_vec()), Ok(15));
    assert_eq!(parse_header(b"Content-Size: 15\r\n".to_vec()), Err(HeaderError::InvalidHeader));
    assert_eq!(parse_header(b"Content-Length: x\r\n".to_vec()), Err(HeaderError::InvalidLength));
    assert_eq!(parse_header(vec![0xff, 0xfe]), Err(HeaderError::NotText));
    assert_eq!(protocol_version(), "2.0");
}

#[test]
fn directories_have_addresses() {
    let address = |path: &str| LanguageServer::new(path).unwrap().1;
    assert_eq!(address("/"), "file:///");
    assert_eq!(address("/."), "file:///");
    assert_eq!(address("/a/"), "file:///a");
    assert_eq!(address("/a//b/./c"), "file:///a/b/c");
    assert_eq!(address("/a/../b"), "file:///a/../b");
    assert_eq!(address("/a b/.x"), "file:///a%20b/.x");
    assert_eq!(address("/\u{e9}\u{2705}"), "file:///%C3%A9%E2%9C%85");
    assert_eq!(address("/a:b@c;d=e"), "file:///a:b@c;d=e");
    assert_eq!(
        address("/\"#%<>?\\`{}\u{1f}\u{7f}"),
        "file:///%22%23%25%3C%3E%3F%5C%60%7B%7D%1F%7F"
    );
    assert_eq!(address("/~!$&'()*+,-.[]^_|"), "file:///~!$&'()*+,-.[]^_|");
    for path in ["", "a/b", "ab:/c", "https://example.com/", "\\a", ".", ".."] {
        assert_eq!(LanguageServer::new(path).err(), Some("invalid root path".to_string()));
    }
    let (server, uri) = LanguageServer::at_address(Some("u".to_string())).unwrap();
    assert_eq!(uri, "u");
    assert_eq!(server.notify(), Ok(()));
    assert_eq!(LanguageServer::at_address(None).err(), Some("invalid root path".to_string()));
}

#[test]
fn requests_are_answered_once() {
    let (mut server, uri) = LanguageServer::new("/root/dir").unwrap();
    assert_eq!(uri, "file:///root/dir");
    assert_eq!(LanguageServer::new("not/absolute").err(), Some("invalid root path".to_string()));
    assert_eq!(server.request(), Ok(0));
    assert_eq!(server.request(), Ok(1));
    let answer = |id| Incoming::Response { id, error: None, result: Some("7".to_string()) };
    match server.receive(answer(1)) {
        Delivery::Answer { id, outcome } => {
            assert_eq!((id, outcome), (1, Ok("7".to_string())));
        }
        other => panic!("{:?}", other),
    }
    assert!(matches!(server.receive(answer(1)), Delivery::UnexpectedAnswer));
    let failed = Incoming::Response {
        id: 0,
        error: Some("bad".to_string()),
        result: Some("7".to_string()),
    };
    assert!(matches!(
        server.receive(failed),
        Delivery::Answer { outcome: Err(e), .. } if e == "bad"
    ));
    assert_eq!(server.request(), Ok(2));
    let silent = Incoming::Response { id: 2, error: None, result: None };
    assert!(matches!(
        server.receive(silent),
        Delivery::Answer { outcome: Ok(value), .. } if value == "null"
    ));
    assert!(matches!(server.receive(Incoming::Unreadable), Delivery::Stop));
}

#[test]
fn notifications_are_delivered_to_listeners() {
    let mut server = LanguageServer::started();
    let message = || Incoming::Notification {
        method: "open".to_string(),
        params: "{}".to_string(),
    };
    assert!(matches!(server.receive(message()), Delivery::UnhandledNotification { .. }));
    server.on_notification("open");
    assert!(server.listens_to("open"));
    assert!(matches!(server.receive(message()), Delivery::Notify { .. }));
    server.unsubscribe("open");
    assert!(!server.listens_to("open"));
    assert_eq!(server.notify(), Ok(()));
    assert_eq!(server.shutdown(), Some(0));
    assert_eq!(server.shutdown(), None);
    assert_eq!(
        server.notify(),
        Err("tried to notify a language server that has been shut down".to_string())
    );
    assert_eq!(
        server.request(),
        Err("tried to send a request to a language server that has been shut down".to_string())
    );
}

#[test]
fn peers_answer_each_other() {
    let mut peer = Peer::new();
    let first = peer.add_connection();
    let second = peer.add_connection();
    let request = peer.request(None, first).unwrap();
    let other = peer.request(Some(second), first).unwrap();
    assert_eq!((request.id, other.id), (0, 1));
    assert_eq!(other.original_sender_id, Some(second.0));
    // The answers come in another order.
    assert_eq!(peer.receive(first, Some(1)), IncomingAction::Resume { request: 1 });
    assert_eq!(peer.receive(first, Some(0)), IncomingAction::Resume { request: 0 });
    assert_eq!(peer.receive(first, Some(0)), IncomingAction::UnknownResponse { request: 0 });
    assert_eq!(peer.receive(first, None), IncomingAction::Deliver);
    let sent = peer.send(second).unwrap();
    assert_eq!((sent.id, sent.responding_to, sent.original_sender_id), (0, None, None));
    let forwarded = peer.forward_send(first, second).unwrap();
    assert_eq!(forwarded.original_sender_id, Some(first.0));

    peer.abandon_responses(first);
    assert_eq!(peer.request(None, first), Err(PeerError::ConnectionClosed));
    peer.disconnect(first);
    assert_eq!(peer.send(first), Err(PeerError::NoSuchConnection(first)));
    assert_eq!(PeerError::ConnectionClosed.message(), "connection was closed");
    assert_eq!(
        PeerError::NoSuchConnection(ConnectionId(7)).message(),
        "no such connection: 7"
    );
    peer.reset();
    assert!(peer.send(second).is_err());
}

#[test]
fn forgotten_connections_are_answered_until_they_end() {
    let mut peer = Peer::new();
    let first = peer.add_connection();
    let second = peer.add_connection();
    for connection in [first, second] {
        peer.request(None, connection).unwrap();
        peer.request(None, connection).unwrap();
    }
    peer.disconnect(first);
    assert_eq!(peer.receive(first, Some(0)), IncomingAction::Resume { request: 0 });
    assert_eq!(peer.receive(first, Some(0)), IncomingAction::UnknownResponse { request: 0 });
    peer.abandon_responses(first);
    assert_eq!(peer.receive(first, Some(1)), IncomingAction::Discard);
    assert_eq!(peer.receive(first, None), IncomingAction::Deliver);
    peer.reset();
    assert_eq!(peer.receive(second, Some(1)), IncomingAction::Resume { request: 1 });
    peer.abandon_responses(second);
    assert_eq!(peer.receive(second, Some(0)), IncomingAction::Discard);
    assert_eq!(peer.add_connection(), ConnectionId(2));
}

#[test]
fn envelopes_know_their_senders() {
    let envelope = TypedEnvelope {
        sender_id: ConnectionId(3),
        original_sender_id: Some(PeerId(4)),
        message_id: 5,
        payload: "hello",
    };
    assert_eq!(envelope.original_sender_id(), Ok(PeerId(4)));
    let receipt = envelope.receipt();
    assert_eq!((receipt.sender_id, receipt.message_id), (ConnectionId(3), 5));
    let lost = TypedEnvelope { original_sender_id: None, ..envelope };
    assert_eq!(lost.original_sender_id(), Err("missing original_sender_id".to_string()));

    let mut peer = Peer::new();
    let connection = peer.add_connection();
    let asked: TypedEnvelope<u8> = TypedEnvelope {
        sender_id: connection,
        original_sender_id: None,
        message_id: 9,
        payload: 1,
    };
    assert_eq!(peer.respond(&asked.receipt()).unwrap().responding_to, Some(9));
}

#[test]
fn connections_are_kept_up() {
    assert_eq!(io_step(IoEvent::Outgoing), IoStep::Write);
    assert_eq!(io_step(IoEvent::Received), IoStep::HandOn);
    assert_eq!(io_step(IoEvent::OutgoingClosed), IoStep::Stop(None));
    match io_step(IoEvent::WriteTimedOut) {
        IoStep::Stop(Some(failure)) => {
            assert_eq!(failure, IoFailure::WriteTimedOut);
            assert_eq!(failure.message(), "timed out writing RPC message");
        }
        other => panic!("{:?}", other),
    }
    assert_eq!(request_outcome(Some(Response::Answer(3))), Ok(3));
    assert_eq!(
        request_outcome::<u8>(Some(Response::WrongType)),
        Err("received response of the wrong type".to_string())
    );
    assert_eq!(request_outcome::<u8>(None), Err("connection was closed".to_string()));
    assert!(request_outcome::<u8>(Some(Response::Failure { message: "m".to_string() })).is_err());
}

fn anchor(value: u32, offset: usize, bias: Bias) -> BufferAnchor {
    BufferAnchor { timestamp: Local { replica_id: 2, value }, offset, bias }
}

fn round_trip(operation: Operation) -> Operation {
    deserialize_operation(Some(serialize_operation(&operation))).unwrap()
}

#[test]
fn operations_are_sent() {
    let lamport_timestamp = Lamport { replica_id: 2, value: 8 };
    let edit = round_trip(Operation::Edit(EditOperation {
        timestamp: InsertionTimestamp { replica_id: 2, local: 5, lamport: 6 },
        version: vec![Local { replica_id: 1, value: 3 }],
        ranges: vec![FullRange { start: 1, end: 4 }],
        new_text: Some("abc".to_string()),
    }));
    match edit {
        Operation::Edit(edit) => {
            assert_eq!(edit.timestamp.local, 5);
            assert_eq!(edit.version, vec![Local { replica_id: 1, value: 3 }]);
            assert_eq!(edit.ranges, vec![FullRange { start: 1, end: 4 }]);
            assert_eq!(edit.new_text, Some("abc".to_string()));
        }
        other => panic!("{:?}", other),
    }
    let undo = round_trip(Operation::Undo {
        undo: UndoOperation {
            id: Local { replica_id: 2, value: 9 },
            counts: vec![(Local { replica_id: 1, value: 2 }, 3)],
            ranges: vec![],
            version: vec![],
        },
        lamport_timestamp,
    });
    assert!(matches!(
        undo,
        Operation::Undo { undo, .. } if undo.counts == vec![(Local { replica_id: 1, value: 2 }, 3)]
    ));
    let selection = BufferSelection {
        id: 1,
        start: anchor(1, 2, Bias::Left),
        end: anchor(3, 4, Bias::Right),
        reversed: true,
    };
    let update = round_trip(Operation::UpdateSelections {
        replica_id: 2,
        selections: vec![selection],
        lamport_timestamp,
    });
    assert!(matches!(
        update,
        Operation::UpdateSelections { selections, .. } if selections == vec![selection]
    ));
    let removal = round_trip(Operation::RemoveSelections { replica_id: 2, lamport_timestamp });
    assert!(matches!(removal, Operation::RemoveSelections { replica_id: 2, .. }));
    let diagnostics = round_trip(Operation::UpdateDiagnostics {
        provider_name: "rustc".to_string(),
        diagnostics: vec![DiagnosticEntry {
            start: anchor(1, 2, Bias::Left),
            end: anchor(3, 4, Bias::Right),
            severity: DiagnosticSeverity::Hint,
            message: "unused".to_string(),
            group_id: 1,
            code: None,
            is_valid: true,
            is_primary: false,
            is_disk_based: true,
        }],
        lamport_timestamp,
    });
    match diagnostics {
        Operation::UpdateDiagnostics { provider_name, diagnostics, .. } => {
            assert_eq!(provider_name, "rustc");
            assert_eq!(diagnostics[0].message, "unused");
            assert_eq!(diagnostics[0].severity, DiagnosticSeverity::Hint);
            assert!(diagnostics[0].is_disk_based && !diagnostics[0].is_primary);
        }
        other => panic!("{:?}", other),
    }
}

#[test]
fn broken_operations_are_refused() {
    assert_eq!(
        deserialize_operation(None).err().unwrap().message(),
        InvalidOperation::MissingVariant.message()
    );
    let empty = OperationMessage::UpdateDiagnosticSet {
        replica_id: 1,
        lamport_timestamp: 2,
        diagnostic_set: None,
    };
    assert_eq!(
        deserialize_operation(Some(empty)).err().unwrap(),
        InvalidOperation::MissingDiagnosticSet
    );
    assert_ne!(
        InvalidOperation::MissingDiagnosticSet.message(),
        InvalidOperation::MissingVariant.message()
    );
}

#[test]
fn selections_without_ends_are_dropped() {
    let whole = BufferSelection {
        id: 6,
        start: anchor(1, 2, Bias::Left),
        end: anchor(1, 2, Bias::Left),
        reversed: false,
    };
    let mut messages = serialize_selections(&vec![whole]);
    messages.push(SelectionMessage { id: 7, start: None, end: None, reversed: false });
    assert_eq!(deserialize_selections(&messages), vec![whole]);
}

fn wasm_with_section(name: &str, data: &[u8]) -> Vec<u8> {
    let mut bytes = b"\0asm\x01\0\0\0".to_vec();
    bytes.push(0);
    bytes.push((1 + name.len() + data.len()) as u8);
    bytes.push(name.len() as u8);
    bytes.extend_from_slice(name.as_bytes());
    bytes.extend_from_slice(data);
    bytes
}

#[test]
fn extensions_tell_their_version() {
    let version = SemanticVersion { major: 1, minor: 2, patch: 259 };
    let data = vec![0, 1, 0, 2, 1, 3];
    assert_eq!(parse_wasm_extension_version_custom_section(&data), Some(version));
    assert_eq!(parse_wasm_extension_version_custom_section(&vec![0, 1]), None);
    let wasm = wasm_with_section("zed:api-version", &data);
    assert_eq!(parse_wasm_extension_version("e", &wasm).unwrap(), version);
    assert_eq!(
        parse_wasm_extension_version("e", &wasm_with_section("other", &data)).err().unwrap().message(),
        "extension e has no zed:api-version section"
    );
    assert_eq!(
        parse_wasm_extension_version("e", &wasm_with_section("zed:api-version", &[0, 9]))
            .err()
            .unwrap()
            .message(),
        "extension e has invalid zed:api-version section: [0, 9]"
    );
    assert_eq!(
        parse_wasm_extension_version("e", &b"not wasm".to_vec()).err().unwrap().message(),
        "error parsing wasm extension"
    );
}

fn path(text: &str) -> Vec<PathPart> {
    let mut parts = Vec::new();
    if text.starts_with('/') {
        parts.push(PathPart::Root);
    }
    for part in text.split('/').filter(|p| !p.is_empty()) {
        parts.push(match part {
            "." => PathPart::Current,
            ".." => PathPart::Parent,
            name => PathPart::Normal(name.to_string()),
        });
    }
    parts
}

fn shown(parts: &Vec<PathPart>) -> String {
    let names: Vec<String> = parts
        .iter()
        .map(|part| match part {
            PathPart::Prefix(name) => name.clone(),
            PathPart::Root => String::new(),
            PathPart::Current => ".".to_string(),
            PathPart::Parent => "..".to_string(),
            PathPart::Normal(name) => name.clone(),
        })
        .collect();
    names.join("/")
}

#[test]
fn extensions_write_in_their_directory() {
    assert_eq!(shown(&normalize_path(&path("/a/./b/../c"))), "/a/c");
    let host = WasmHost { work_dir: path("/work") };
    assert_eq!(shown(&host.path_from_extension("ext", &path("a/../b"))), "/work/ext/b");
    assert_eq!(
        shown(&host.writeable_path_from_extension("ext", &path("x/y")).unwrap()),
        "/work/ext/x/y"
    );
    assert_eq!(
        shown(&host.writeable_path_from_extension("ext", &path("../other")).unwrap_err().path),
        "/work/other"
    );
    assert!(host.writeable_path_from_extension("ext", &path("/etc")).is_err());
}

#[test]
fn identities_are_paths() {
    let host = WasmHost { work_dir: path("work") };
    let refusal = host.writeable_path_from_extension("..", &path("x")).unwrap_err();
    assert_eq!(shown(&refusal.path), "x");
    assert_eq!(refusal.message("x"), "cannot write to path x");
    assert_eq!(
        shown(&host.path_from_extension("ext:x", &path("y"))),
        "work/ext:x/y"
    );
    assert_eq!(
        shown(&host.writeable_path_from_extension("a//b/", &path("./x")).unwrap()),
        "work/a/b/x"
    );
    assert_eq!(shown(&host.writeable_path_from_extension("./a", &path("x")).unwrap()), "work/a/x");
    assert_eq!(shown(&host.writeable_path_from_extension("/a", &path("x")).unwrap()), "/a/x");
    assert!(host.writeable_path_from_extension("a", &path("../ab/x")).is_err());
    assert_eq!(shown(&host.path_from_extension(".", &path("x"))), "work/x");
    assert_eq!(
        shown(&host.path_within(&vec![PathPart::Parent], &path("x"))),
        "x"
    );
    assert!(host.writeable_path_within(&vec![PathPart::Parent], &path("x")).is_err());
}

#[test]
fn servers_are_fetched_once() {
    assert_eq!(fetch_step(true), FetchStep::Use);
    assert_eq!(fetch_step(false), FetchStep::InstallThenClearOthers);
}

fn path_error(text: &str) -> String {
    check_path_to_repo_path_errors(text).err().unwrap().message()
}

#[test]
fn repository_paths_are_checked() {
    assert!(check_path_to_repo_path_errors("a/b").is_ok());
    assert!(check_path_to_repo_path_errors("..a/b").is_ok());
    assert!(check_path_to_repo_path_errors("...").is_ok());
    assert!(check_path_to_repo_path_errors("src/a:b.rs").is_ok());
    assert!(check_path_to_repo_path_errors("ab:c").is_ok());
    assert_eq!(path_error(""), "repo path should not be empty");
    assert_eq!(path_error("/a"), "repo path `/a` should be relative");
    assert_eq!(path_error("./a"), "repo path `./a` should not start with `.`");
    assert_eq!(path_error("../a"), "repo path `../a` should not start with `..`");
    assert_eq!(
        check_first_component(Some(FirstComponent::Prefix), "C:").err().unwrap().message(),
        "repo path `C:` should be relative, not a windows prefix"
    );
}

#[test]
fn index_texts_are_read() {
    let blob = || IndexEntry::Blob { content: b"text".to_vec() };
    assert_eq!(index_text(Ok(()), blob()), Some("text".to_string()));
    assert_eq!(index_text(Ok(()), IndexEntry::Missing), None);
    assert_eq!(index_text(Ok(()), IndexEntry::Failed), None);
    assert_eq!(index_text(Ok(()), IndexEntry::Blob { content: vec![0xff] }), None);
    assert_eq!(index_text(check_path_to_repo_path_errors("/"), blob()), None);

    let mut contents = TextMap::new();
    contents.insert("f".to_string(), "x".to_string());
    let repository = FakeGitRepository::open(contents);
    assert_eq!(repository.load_index_text("f"), Some("x".to_string()));
    assert_eq!(repository.load_index_text("g"), None);
    assert_eq!(repository.branch_name(), None);
}

#[test]
fn paths_keep_their_prefix() {
    let drive = |rest: &str| {
        let mut parts = vec![PathPart::Prefix("C:".to_string())];
        parts.extend(path(rest));
        parts
    };
    assert_eq!(shown(&normalize_path(&drive("/a/../b"))), "C://b");
    let host = WasmHost { work_dir: drive("/work") };
    let written = host.writeable_path_within(&path("ext"), &path("x/../y")).unwrap();
    assert_eq!(shown(&written), "C://work/ext/y");
    let other = host.writeable_path_within(&path("ext"), &path("/etc")).err().unwrap();
    assert_eq!(shown(&other.path), "C://etc");
    let elsewhere = vec![PathPart::Prefix("D:".to_string()), PathPart::Root];
    assert!(host.writeable_path_within(&path("ext"), &elsewhere).is_err());
}
