//! Connections to other peers: which message belongs to which connection, and which response to
//! which request.
use vstd::prelude::*;
use vstd::std_specs::iter::IteratorSpec;
use std::collections::HashMap;
use std::marker::PhantomData;
use crate::text::decimal_text;

verus! {

broadcast use vstd::std_specs::hash::group_hash_axioms;

/// A connection, by number.
#[derive(Clone, Copy, Debug, PartialEq, Eq, Hash, Structural)]
pub struct ConnectionId(pub u32);

impl ConnectionId {
    /// The number of the connection in decimal notation.
    pub fn to_text(&self) -> (r: String)
        ensures
            r@ == crate::text::decimal(self.0 as nat),
    {
        decimal_text(self.0 as usize)
    }
}

/// A peer, by number.
#[derive(Clone, Copy, Debug, PartialEq, Eq, Hash, Structural)]
pub struct PeerId(pub u32);

impl PeerId {
    /// The number of the peer in decimal notation.
    pub fn to_text(&self) -> (r: String)
        ensures
            r@ == crate::text::decimal(self.0 as nat),
    {
        decimal_text(self.0 as usize)
    }
}

/// What a response to a request is sent with: the connection that the request came from, and its
/// number there.
#[verifier::reject_recursive_types(T)]
pub struct Receipt<T> {
    pub sender_id: ConnectionId,
    pub message_id: u32,
    pub payload_type: PhantomData<T>,
}

impl<T> Clone for Receipt<T> {
    fn clone(&self) -> (r: Self)
        ensures
            r.sender_id == self.sender_id,
            r.message_id == self.message_id,
    {
        Receipt {
            sender_id: self.sender_id,
            message_id: self.message_id,
            payload_type: PhantomData,
        }
    }
}

/// A message and where it came from.
pub struct TypedEnvelope<T> {
    pub sender_id: ConnectionId,
    pub original_sender_id: Option<PeerId>,
    pub message_id: u32,
    pub payload: T,
}

impl<T> TypedEnvelope<T> {
    /// The peer that sent the message in the first place.
    pub fn original_sender_id(&self) -> (r: Result<PeerId, String>)
        ensures
            match self.original_sender_id {
                Some(id) => r == Ok::<PeerId, String>(id),
                None => r matches Err(e) && e@ == "missing original_sender_id"@,
            },
    {
        match self.original_sender_id {
            Some(id) => Ok(id),
            None => Err(String::from_str("missing original_sender_id")),
        }
    }

    /// What a response to the message is sent with.
    pub fn receipt(&self) -> (r: Receipt<T>)
        ensures
            r.sender_id == self.sender_id,
            r.message_id == self.message_id,
    {
        Receipt {
            sender_id: self.sender_id,
            message_id: self.message_id,
            payload_type: PhantomData,
        }
    }
}

/// What stands around a message: its number, the number of the message that it responds to, and the
/// peer that sent it in the first place.
#[derive(Clone, Copy, Debug, PartialEq, Eq, Structural)]
pub struct EnvelopeHead {
    pub id: u32,
    pub responding_to: Option<u32>,
    pub original_sender_id: Option<u32>,
}

/// The state of a connection: the number of the next message, and the requests that wait for a
/// response, unless the connection has been closed.
struct ConnectionState {
    next_message_id: u32,
    response_channels: Option<HashMap<u32, ()>>,
}

/// The meaning of the state of a connection.
#[verifier::ext_equal]
pub struct ConnectionView {
    pub next_message_id: u32,
    pub waiting: Option<Set<u32>>,
}

impl ConnectionState {
    spec fn view(&self) -> ConnectionView {
        ConnectionView {
            next_message_id: self.next_message_id,
            waiting: match self.response_channels {
                Some(channels) => Some(channels@.dom()),
                None => None,
            },
        }
    }
}

/// The number behind another one; the numbers start again when they are used up.
pub open spec fn next_number(n: u32) -> u32 {
    if n == u32::MAX {
        0
    } else {
        (n + 1) as u32
    }
}

fn number_after(n: u32) -> (r: u32)
    ensures
        r == next_number(n),
{
    if n == u32::MAX {
        0
    } else {
        n + 1
    }
}

/// Why a message is not sent.
#[derive(Clone, Copy, Debug, PartialEq, Eq, Structural)]
pub enum PeerError {
    NoSuchConnection(ConnectionId),
    ConnectionClosed,
}

impl PeerError {
    /// The sentence that tells about it.
    pub fn message(&self) -> (r: String)
        ensures
            r@ == match *self {
                PeerError::NoSuchConnection(id) => "no such connection: "@ + crate::text::decimal(
                    id.0 as nat,
                ),
                PeerError::ConnectionClosed => "connection was closed"@,
            },
    {
        match self {
            PeerError::NoSuchConnection(id) => {
                let number: String = id.to_text();
                String::from_str("no such connection: ").concat(number.as_str())
            },
            PeerError::ConnectionClosed => String::from_str("connection was closed"),
        }
    }
}

/// What is to be done with a message that has come in.
#[derive(Clone, Copy, Debug, PartialEq, Eq, Structural)]
pub enum IncomingAction {
    Resume { request: u32 },
    UnknownResponse { request: u32 },
    Discard,
    Deliver,
}

/// All connections of a peer, and the requests that still wait on connections that it has forgotten.
pub struct Peer {
    connections: HashMap<u32, ConnectionState>,
    closing: HashMap<u32, HashMap<u32, ()>>,
    next_connection_id: u32,
}

/// The meaning of a peer.
#[verifier::ext_equal]
pub struct PeerView {
    pub connections: Map<u32, ConnectionView>,
    pub closing: Map<u32, Set<u32>>,
    pub next_connection_id: u32,
}

/// The requests that wait on a connection, until it has been closed.
pub open spec fn waiting_on(p: PeerView, id: u32) -> Option<Set<u32>> {
    if p.connections.dom().contains(id) {
        p.connections[id].waiting
    } else if p.closing.dom().contains(id) {
        Some(p.closing[id])
    } else {
        None
    }
}

/// A peer that has forgotten a connection. What waits on it waits until it has been closed.
pub open spec fn disconnected(p: PeerView, id: u32) -> PeerView {
    PeerView {
        connections: p.connections.remove(id),
        closing: if p.connections.dom().contains(id) {
            match p.connections[id].waiting {
                Some(w) => p.closing.insert(id, w),
                None => p.closing.remove(id),
            }
        } else {
            p.closing
        },
        ..p
    }
}

/// A peer that gives up the responses of a connection, because it has been closed.
pub open spec fn abandoned(p: PeerView, id: u32) -> PeerView {
    if p.connections.dom().contains(id) {
        PeerView {
            connections: p.connections.insert(
                id,
                ConnectionView { waiting: None, ..p.connections[id] },
            ),
            ..p
        }
    } else {
        PeerView { closing: p.closing.remove(id), ..p }
    }
}

/// A peer after a response has come in on a connection.
pub open spec fn answered(p: PeerView, id: u32, request: u32) -> PeerView {
    if p.connections.dom().contains(id) {
        PeerView {
            connections: p.connections.insert(id, responded(p.connections[id], request)),
            ..p
        }
    } else if p.closing.dom().contains(id) {
        PeerView { closing: p.closing.insert(id, p.closing[id].remove(request)), ..p }
    } else {
        p
    }
}

/// A peer without connections.
pub open spec fn no_connections() -> PeerView {
    PeerView { connections: Map::empty(), closing: Map::empty(), next_connection_id: 0 }
}

/// A connection that has just been made.
pub open spec fn fresh() -> ConnectionView {
    ConnectionView { next_message_id: 0, waiting: Some(Set::empty()) }
}

/// A connection after a message has been numbered.
pub open spec fn numbered(c: ConnectionView) -> ConnectionView {
    ConnectionView { next_message_id: next_number(c.next_message_id), ..c }
}

/// A connection after a request has been numbered; on a closed one nothing waits.
pub open spec fn requested(c: ConnectionView) -> ConnectionView {
    ConnectionView {
        next_message_id: next_number(c.next_message_id),
        waiting: match c.waiting {
            Some(w) => Some(w.insert(c.next_message_id)),
            None => None,
        },
    }
}

/// A connection after a response has come in.
pub open spec fn responded(c: ConnectionView, request: u32) -> ConnectionView {
    ConnectionView {
        waiting: match c.waiting {
            Some(w) => Some(w.remove(request)),
            None => None,
        },
        ..c
    }
}

/// What is to be done with a message on a connection: a response resumes the request that waits for
/// it, once; a message that is no response is delivered.
pub open spec fn incoming_action(
    waiting: Option<Set<u32>>,
    responding_to: Option<u32>,
) -> IncomingAction {
    match responding_to {
        None => IncomingAction::Deliver,
        Some(request) => match waiting {
            None => IncomingAction::Discard,
            Some(w) => if w.contains(request) {
                IncomingAction::Resume { request }
            } else {
                IncomingAction::UnknownResponse { request }
            },
        },
    }
}

/// A request is resumed once.
pub proof fn request_is_resumed_once(p: PeerView, id: u32, request: u32)
    ensures
        !(incoming_action(waiting_on(answered(p, id, request), id), Some(request)) is Resume),
{
}

/// A response resumes the request that it answers, also when other requests were made after it.
pub proof fn later_requests_do_not_matter(c: ConnectionView, request: u32)
    requires
        incoming_action(c.waiting, Some(request)) is Resume,
    ensures
        incoming_action(requested(c).waiting, Some(request)) is Resume,
{
}

/// A response to a request that was just made resumes it.
pub proof fn response_finds_its_request(c: ConnectionView)
    requires
        c.waiting is Some,
    ensures
        incoming_action(requested(c).waiting, Some(c.next_message_id)) == (IncomingAction::Resume {
            request: c.next_message_id,
        }),
{
}

/// A request on a connection that was forgotten is still resumed, until the connection has been
/// closed; then it is not.
pub proof fn requests_wait_until_the_end(p: PeerView, id: u32, request: u32)
    requires
        p.connections.dom().contains(id),
        p.connections[id].waiting is Some,
    ensures
        waiting_on(disconnected(p, id), id) == waiting_on(p, id),
        incoming_action(waiting_on(abandoned(p, id), id), Some(request)) is Discard,
        incoming_action(waiting_on(abandoned(disconnected(p, id), id), id), Some(request)) is Discard,
{
}

impl View for Peer {
    type V = PeerView;

    closed spec fn view(&self) -> PeerView {
        PeerView {
            connections: self.connections@.map_values(|c: ConnectionState| c@),
            closing: self.closing@.map_values(|w: HashMap<u32, ()>| w@.dom()),
            next_connection_id: self.next_connection_id,
        }
    }
}

impl Peer {
    /// A peer without connections.
    pub fn new() -> (r: Peer)
        ensures
            r@ == no_connections(),
    {
        let r = Peer { connections: HashMap::new(), closing: HashMap::new(), next_connection_id: 0 };
        assert(r@ =~= no_connections());
        r
    }

    /// Numbers a new connection.
    pub fn add_connection(&mut self) -> (r: ConnectionId)
        ensures
            r.0 == old(self)@.next_connection_id,
            final(self)@ == (PeerView {
                connections: old(self)@.connections.insert(r.0, fresh()),
                next_connection_id: next_number(old(self)@.next_connection_id),
                ..old(self)@
            }),
    {
        let id: u32 = self.next_connection_id;
        self.next_connection_id = number_after(id);
        let state = ConnectionState {
            next_message_id: 0,
            response_channels: Some(HashMap::new()),
        };
        assert(state@ =~= fresh()) by {
            assert(state@.waiting->0 =~= Set::empty());
        }
        self.connections.insert(id, state);
        assert(self@.connections =~= old(self)@.connections.insert(id, fresh()));
        ConnectionId(id)
    }

    /// Forgets a connection.
    pub fn disconnect(&mut self, connection_id: ConnectionId)
        ensures
            final(self)@ == disconnected(old(self)@, connection_id.0),
    {
        let id: u32 = connection_id.0;
        match self.take(connection_id) {
            Some(state) => match state.response_channels {
                Some(channels) => {
                    let ghost waiting = channels@.dom();
                    self.closing.insert(id, channels);
                    assert(self@.closing =~= old(self)@.closing.insert(id, waiting));
                },
                None => {
                    self.closing.remove(&id);
                    assert(self@.closing =~= old(self)@.closing.remove(id));
                },
            },
            None => {
                assert(old(self)@.connections.remove(id) =~= old(self)@.connections);
            },
        }
    }

    /// Forgets all connections.
    pub fn reset(&mut self)
        ensures
            final(self)@.connections == Map::<u32, ConnectionView>::empty(),
            final(self)@.next_connection_id == old(self)@.next_connection_id,
            forall|id: u32| #[trigger] waiting_on(final(self)@, id) == waiting_on(old(self)@, id),
    {
        let mut ids: Vec<u32> = Vec::new();
        for id in iter: self.connections.keys()
            invariant
                ids@ == iter.seq().unref().take(iter.index() as int),
        {
            ids.push(*id);
        }
        assert(ids@ =~= self.connections.keys().remaining().unref());
        assert(ids@.to_set() == self.connections@.dom());
        assert(self@.connections.dom() =~= self.connections@.dom());
        let ghost before = self@;
        let mut i: usize = 0;
        while i < ids.len()
            invariant
                i <= ids@.len(),
                self@.next_connection_id == before.next_connection_id,
                forall|id: u32| #[trigger]
                    self@.connections.dom().contains(id) ==> ids@.skip(i as int).contains(id),
                forall|id: u32| #[trigger] waiting_on(self@, id) == waiting_on(before, id),
            decreases ids.len() - i,
        {
            let ghost middle = self@;
            let ghost rest = ids@.skip(i as int);
            self.disconnect(ConnectionId(ids[i]));
            proof {
                assert forall|id: u32| #[trigger] self@.connections.dom().contains(id) implies ids@.skip(
                    i + 1,
                ).contains(id) by {
                    assert(middle.connections.dom().contains(id));
                    let k = choose|k: int| 0 <= k < rest.len() && rest[k] == id;
                    assert(k > 0);
                    assert(ids@.skip(i + 1)[k - 1] == id);
                }
                assert forall|id: u32| #[trigger] waiting_on(self@, id) == waiting_on(
                    before,
                    id,
                ) by {
                    assert(waiting_on(middle, id) == waiting_on(before, id));
                }
            }
            i += 1;
        }
        assert forall|id: u32| !self@.connections.dom().contains(id) by {
            if self@.connections.dom().contains(id) {
                assert(ids@.skip(i as int).len() == 0);
            }
        }
        assert(self@.connections =~= Map::empty());
    }

    fn take(&mut self, connection_id: ConnectionId) -> (r: Option<ConnectionState>)
        ensures
            r is Some <==> old(self)@.connections.dom().contains(connection_id.0),
            r matches Some(c) ==> {
                &&& c@ == old(self)@.connections[connection_id.0]
                &&& final(self)@ == PeerView {
                    connections: old(self)@.connections.remove(connection_id.0),
                    ..old(self)@
                }
            },
            r is None ==> final(self)@ == old(self)@,
    {
        let r: Option<ConnectionState> = self.connections.remove(&connection_id.0);
        proof {
            if r is Some {
                assert(self@.connections =~= old(self)@.connections.remove(connection_id.0));
            } else {
                assert(self@.connections =~= old(self)@.connections);
            }
        }
        r
    }

    fn put(&mut self, connection_id: ConnectionId, state: ConnectionState)
        ensures
            final(self)@ == (PeerView {
                connections: old(self)@.connections.insert(connection_id.0, state@),
                ..old(self)@
            }),
    {
        self.connections.insert(connection_id.0, state);
        assert(self@.connections =~= old(self)@.connections.insert(connection_id.0, state@));
    }

    /// Gives up the responses of a connection that has been closed.
    pub fn abandon_responses(&mut self, connection_id: ConnectionId)
        ensures
            final(self)@ == abandoned(old(self)@, connection_id.0),
    {
        match self.take(connection_id) {
            Some(state) => {
                let ghost before = state@;
                let closed = ConnectionState {
                    next_message_id: state.next_message_id,
                    response_channels: None,
                };
                self.put(connection_id, closed);
                assert(self@.connections =~= old(self)@.connections.insert(
                    connection_id.0,
                    ConnectionView { waiting: None, ..before },
                ));
            },
            None => {
                self.closing.remove(&connection_id.0);
                assert(self@.closing =~= old(self)@.closing.remove(connection_id.0));
            },
        }
    }

    /// Numbers a request; its response is waited for. `original_sender_id` is the connection that
    /// the request is passed on from.
    pub fn request(
        &mut self,
        original_sender_id: Option<ConnectionId>,
        receiver_id: ConnectionId,
    ) -> (r: Result<EnvelopeHead, PeerError>)
        ensures
            ({
                let known = old(self)@.connections.dom().contains(receiver_id.0);
                let c = old(self)@.connections[receiver_id.0];
                &&& !known ==> r == Err::<EnvelopeHead, PeerError>(
                    PeerError::NoSuchConnection(receiver_id),
                ) && final(self)@ == old(self)@
                &&& known ==> final(self)@ == PeerView {
                    connections: old(self)@.connections.insert(receiver_id.0, requested(c)),
                    ..old(self)@
                }
                &&& known && c.waiting is None ==> r == Err::<EnvelopeHead, PeerError>(
                    PeerError::ConnectionClosed,
                )
                &&& known && c.waiting is Some ==> r == Ok::<EnvelopeHead, PeerError>(
                    EnvelopeHead {
                        id: c.next_message_id,
                        responding_to: None,
                        original_sender_id: match original_sender_id {
                            Some(id) => Some(id.0),
                            None => None,
                        },
                    },
                )
            }),
    {
        match self.take(receiver_id) {
            None => Err(PeerError::NoSuchConnection(receiver_id)),
            Some(state) => {
                let ghost before = state@;
                let id: u32 = state.next_message_id;
                let original: Option<u32> = match original_sender_id {
                    Some(sender) => Some(sender.0),
                    None => None,
                };
                match state.response_channels {
                    None => {
                        let next = ConnectionState {
                            next_message_id: number_after(id),
                            response_channels: None,
                        };
                        assert(next@ =~= requested(before));
                        self.put(receiver_id, next);
                        assert(self@.connections =~= old(self)@.connections.insert(
                            receiver_id.0,
                            requested(before),
                        ));
                        Err(PeerError::ConnectionClosed)
                    },
                    Some(mut channels) => {
                        channels.insert(id, ());
                        let next = ConnectionState {
                            next_message_id: number_after(id),
                            response_channels: Some(channels),
                        };
                        assert(next@.waiting->0 =~= requested(before).waiting->0);
                        assert(next@ =~= requested(before));
                        self.put(receiver_id, next);
                        assert(self@.connections =~= old(self)@.connections.insert(
                            receiver_id.0,
                            requested(before),
                        ));
                        Ok(EnvelopeHead { id, responding_to: None, original_sender_id: original })
                    },
                }
            },
        }
    }

    fn number_message(
        &mut self,
        receiver_id: ConnectionId,
        responding_to: Option<u32>,
        original_sender_id: Option<u32>,
    ) -> (r: Result<EnvelopeHead, PeerError>)
        ensures
            sent(old(self)@, receiver_id, responding_to, original_sender_id) == (r, final(self)@),
    {
        match self.take(receiver_id) {
            None => Err(PeerError::NoSuchConnection(receiver_id)),
            Some(state) => {
                let ghost before = state@;
                let id: u32 = state.next_message_id;
                let next = ConnectionState {
                    next_message_id: number_after(id),
                    response_channels: state.response_channels,
                };
                assert(next@ =~= numbered(before));
                self.put(receiver_id, next);
                assert(self@.connections =~= old(self)@.connections.insert(
                    receiver_id.0,
                    numbered(before),
                ));
                Ok(EnvelopeHead { id, responding_to, original_sender_id })
            },
        }
    }

    /// Numbers a message that has no response.
    pub fn send(&mut self, receiver_id: ConnectionId) -> (r: Result<EnvelopeHead, PeerError>)
        ensures
            sent(old(self)@, receiver_id, None, None) == (r, final(self)@),
    {
        self.number_message(receiver_id, None, None)
    }

    /// Numbers a message that is passed on.
    pub fn forward_send(&mut self, sender_id: ConnectionId, receiver_id: ConnectionId) -> (r: Result<
        EnvelopeHead,
        PeerError,
    >)
        ensures
            sent(old(self)@, receiver_id, None, Some(sender_id.0)) == (r, final(self)@),
    {
        self.number_message(receiver_id, None, Some(sender_id.0))
    }

    /// Numbers a response, or an error in its place.
    pub fn respond<T>(&mut self, receipt: &Receipt<T>) -> (r: Result<EnvelopeHead, PeerError>)
        ensures
            sent(old(self)@, receipt.sender_id, Some(receipt.message_id), None) == (
                r,
                final(self)@,
            ),
    {
        self.number_message(receipt.sender_id, Some(receipt.message_id), None)
    }

    /// Finds out what to do with a message that has come in on a connection.
    pub fn receive(&mut self, connection_id: ConnectionId, responding_to: Option<u32>) -> (r:
        IncomingAction)
        ensures
            r == incoming_action(waiting_on(old(self)@, connection_id.0), responding_to),
            final(self)@ == (match responding_to {
                Some(request) => answered(old(self)@, connection_id.0, request),
                None => old(self)@,
            }),
    {
        let request: u32 = match responding_to {
            None => {
                return IncomingAction::Deliver;
            },
            Some(request) => request,
        };
        let id: u32 = connection_id.0;
        match self.take(connection_id) {
            None => match self.closing.remove(&id) {
                None => {
                    assert(self@.closing =~= old(self)@.closing);
                    IncomingAction::Discard
                },
                Some(mut channels) => {
                    let ghost waiting = channels@.dom();
                    let resumed: Option<()> = channels.remove(&request);
                    assert(channels@.dom() =~= waiting.remove(request));
                    self.closing.insert(id, channels);
                    assert(self@.closing =~= old(self)@.closing.insert(id, waiting.remove(request)));
                    if resumed.is_some() {
                        IncomingAction::Resume { request }
                    } else {
                        IncomingAction::UnknownResponse { request }
                    }
                },
            },
            Some(state) => {
                let ghost before = state@;
                match state.response_channels {
                    None => {
                        let next = ConnectionState {
                            next_message_id: state.next_message_id,
                            response_channels: None,
                        };
                        assert(next@ =~= responded(before, request));
                        self.put(connection_id, next);
                        assert(self@.connections =~= old(self)@.connections.insert(
                            id,
                            responded(before, request),
                        ));
                        IncomingAction::Discard
                    },
                    Some(mut channels) => {
                        let resumed: Option<()> = channels.remove(&request);
                        let next = ConnectionState {
                            next_message_id: state.next_message_id,
                            response_channels: Some(channels),
                        };
                        assert(next@.waiting->0 =~= responded(before, request).waiting->0);
                        assert(next@ =~= responded(before, request));
                        self.put(connection_id, next);
                        assert(self@.connections =~= old(self)@.connections.insert(
                            id,
                            responded(before, request),
                        ));
                        if resumed.is_some() {
                            IncomingAction::Resume { request }
                        } else {
                            IncomingAction::UnknownResponse { request }
                        }
                    },
                }
            },
        }
    }
}

/// What sending a message does: it gets the next number of its connection.
pub open spec fn sent(
    p: PeerView,
    receiver_id: ConnectionId,
    responding_to: Option<u32>,
    original_sender_id: Option<u32>,
) -> (Result<EnvelopeHead, PeerError>, PeerView) {
    if p.connections.dom().contains(receiver_id.0) {
        let c = p.connections[receiver_id.0];
        (
            Ok(EnvelopeHead { id: c.next_message_id, responding_to, original_sender_id }),
            PeerView {
                connections: p.connections.insert(receiver_id.0, numbered(c)),
                ..p
            },
        )
    } else {
        (Err(PeerError::NoSuchConnection(receiver_id)), p)
    }
}

impl Default for Peer {
    fn default() -> (r: Self)
        ensures
            r@ == no_connections(),
    {
        Peer::new()
    }
}

/// What happened on a connection: a message to be sent, or none because nobody sends any more; what
/// became of writing it; what became of reading one, and of handing it on.
#[derive(Clone, Copy, Debug, PartialEq, Eq, Structural)]
pub enum IoEvent {
    Outgoing,
    OutgoingClosed,
    Written,
    WriteTimedOut,
    WriteFailed,
    Received,
    ReadFailed,
    HandedOn,
    NobodyListens,
}

/// What is to be done next on a connection.
#[derive(Clone, Copy, Debug, PartialEq, Eq, Structural)]
pub enum IoStep {
    Write,
    HandOn,
    Await,
    AwaitNewRead,
    Stop(Option<IoFailure>),
}

/// Why a connection ended.
#[derive(Clone, Copy, Debug, PartialEq, Eq, Structural)]
pub enum IoFailure {
    WriteTimedOut,
    WriteFailed,
    InvalidMessage,
}

impl IoFailure {
    /// The sentence that tells about it.
    pub fn message(&self) -> (r: &'static str)
        ensures
            r@ == match *self {
                IoFailure::WriteTimedOut => "timed out writing RPC message"@,
                IoFailure::WriteFailed => "failed to write RPC message"@,
                IoFailure::InvalidMessage => "received invalid RPC message"@,
            },
    {
        match self {
            IoFailure::WriteTimedOut => "timed out writing RPC message",
            IoFailure::WriteFailed => "failed to write RPC message",
            IoFailure::InvalidMessage => "received invalid RPC message",
        }
    }
}

/// How many seconds writing a message may take.
pub const WRITE_TIMEOUT_SECONDS: u64 = 10;

/// How many messages that have come in may wait until the other side is slowed down.
pub const INCOMING_LIMIT: usize = 64;

/// What follows an event on a connection. Messages to be sent go first; the message that is being
/// read is read on while others are written. A connection ends without a failure when nobody sends
/// or nobody listens any more.
pub fn io_step(event: IoEvent) -> (r: IoStep)
    ensures
        r == match event {
            IoEvent::Outgoing => IoStep::Write,
            IoEvent::OutgoingClosed => IoStep::Stop(None),
            IoEvent::Written => IoStep::Await,
            IoEvent::WriteTimedOut => IoStep::Stop(Some(IoFailure::WriteTimedOut)),
            IoEvent::WriteFailed => IoStep::Stop(Some(IoFailure::WriteFailed)),
            IoEvent::Received => IoStep::HandOn,
            IoEvent::ReadFailed => IoStep::Stop(Some(IoFailure::InvalidMessage)),
            IoEvent::HandedOn => IoStep::AwaitNewRead,
            IoEvent::NobodyListens => IoStep::Stop(None),
        },
{
    match event {
        IoEvent::Outgoing => IoStep::Write,
        IoEvent::OutgoingClosed => IoStep::Stop(None),
        IoEvent::Written => IoStep::Await,
        IoEvent::WriteTimedOut => IoStep::Stop(Some(IoFailure::WriteTimedOut)),
        IoEvent::WriteFailed => IoStep::Stop(Some(IoFailure::WriteFailed)),
        IoEvent::Received => IoStep::HandOn,
        IoEvent::ReadFailed => IoStep::Stop(Some(IoFailure::InvalidMessage)),
        IoEvent::HandedOn => IoStep::AwaitNewRead,
        IoEvent::NobodyListens => IoStep::Stop(None),
    }
}

/// What a response turned out to be: the answer, an error of the other side, or a message of another
/// type.
#[derive(Debug)]
pub enum Response<T> {
    Answer(T),
    Failure { message: String },
    WrongType,
}

/// The outcome of a request: none at all if the connection was closed before the response came.
pub fn request_outcome<T>(response: Option<Response<T>>) -> (r: Result<T, String>)
    ensures
        match response {
            Some(Response::Answer(value)) => r == Ok::<T, String>(value),
            Some(Response::Failure { message }) => r == Err::<T, String>(message),
            Some(Response::WrongType) => r matches Err(e) && e@
                == "received response of the wrong type"@,
            None => r matches Err(e) && e@ == "connection was closed"@,
        },
{
    match response {
        Some(Response::Answer(value)) => Ok(value),
        Some(Response::Failure { message }) => Err(message),
        Some(Response::WrongType) => Err(String::from_str("received response of the wrong type")),
        None => Err(String::from_str("connection was closed")),
    }
}

/// Messages on a connection are numbered one after the other, and the numbers start again at zero when
/// they are used up.
pub proof fn numbers_count_up(n: u32)
    ensures
        n < u32::MAX ==> next_number(n) == n + 1,
        next_number(u32::MAX) == 0,
{
}

/// A message that is sent has the number that its connection was at, which goes on to the next one, and
/// tells what it answers and whom it is passed on from. Other connections and whatever waits are left
/// alone. Without the connection nothing is sent.
pub proof fn sending_numbers_the_message(
    p: PeerView,
    receiver: ConnectionId,
    responding_to: Option<u32>,
    original: Option<u32>,
    other: u32,
)
    ensures
        ({
            let (r, after) = sent(p, receiver, responding_to, original);
            &&& p.connections.dom().contains(receiver.0) ==> {
                &&& (r matches Ok(head) && head.id == p.connections[receiver.0].next_message_id
                    && head.responding_to == responding_to && head.original_sender_id == original)
                &&& after.connections[receiver.0].next_message_id == next_number(
                    p.connections[receiver.0].next_message_id,
                )
                &&& after.connections[receiver.0].waiting == p.connections[receiver.0].waiting
            }
            &&& !p.connections.dom().contains(receiver.0) ==> (r matches Err(
                PeerError::NoSuchConnection(id),
            ) && id == receiver) && after == p
            &&& after.connections.dom() == p.connections.dom()
            &&& other != receiver.0 ==> after.connections[other] == p.connections[other]
            &&& after.closing == p.closing
            &&& after.next_connection_id == p.next_connection_id
        }),
{
    let after = sent(p, receiver, responding_to, original).1;
    assert(after.connections.dom() =~= p.connections.dom());
}

/// A request is waited for under its number, next to those that wait already.
pub proof fn requests_wait_for_their_answers(c: ConnectionView, request: u32)
    ensures
        requested(c).next_message_id == next_number(c.next_message_id),
        requested(c).waiting is Some <==> c.waiting is Some,
        c.waiting matches Some(w) ==> {
            &&& requested(c).waiting->0.contains(c.next_message_id)
            &&& request != c.next_message_id ==> (requested(c).waiting->0.contains(request)
                <==> w.contains(request))
        },
{
}

/// A response takes only the request that it answers out of those that wait, on its own connection.
pub proof fn responses_leave_the_others_waiting(
    p: PeerView,
    id: u32,
    request: u32,
    other_id: u32,
    other: u32,
)
    ensures
        other_id != id ==> waiting_on(answered(p, id, request), other_id) == waiting_on(p, other_id),
        waiting_on(answered(p, id, request), id) is Some <==> waiting_on(p, id) is Some,
        waiting_on(p, id) matches Some(w) ==> {
            &&& !waiting_on(answered(p, id, request), id)->0.contains(request)
            &&& other != request ==> (waiting_on(answered(p, id, request), id)->0.contains(other)
                <==> w.contains(other))
        },
        forall|c: u32|
            p.connections.dom().contains(c) ==> (#[trigger] answered(
                p,
                id,
                request,
            ).connections[c]).next_message_id == p.connections[c].next_message_id,
        answered(p, id, request).connections.dom() =~= p.connections.dom(),
{
}

/// A message that answers nothing is delivered. A response resumes its request if that waits, is unknown
/// if it does not, and is discarded on a connection that is closed.
pub proof fn messages_are_told_apart(waiting: Option<Set<u32>>, responding_to: Option<u32>)
    ensures
        incoming_action(waiting, responding_to) is Deliver <==> responding_to is None,
        incoming_action(waiting, responding_to) is Discard <==> responding_to is Some && waiting is None,
        incoming_action(waiting, responding_to) matches IncomingAction::Resume { request }
            ==> responding_to == Some(request) && waiting is Some && waiting->0.contains(request),
        incoming_action(waiting, responding_to) matches IncomingAction::UnknownResponse { request }
            ==> responding_to == Some(request) && waiting is Some && !waiting->0.contains(request),
{
}

/// A connection that is forgotten is gone, and all others stay as they are.
pub proof fn disconnecting_forgets_one(p: PeerView, id: u32, other: u32)
    requires
        other != id,
    ensures
        !disconnected(p, id).connections.dom().contains(id),
        disconnected(p, id).connections.dom().contains(other) == p.connections.dom().contains(other),
        disconnected(p, id).connections[other] == p.connections[other],
        waiting_on(disconnected(p, id), other) == waiting_on(p, other),
        waiting_on(abandoned(p, id), other) == waiting_on(p, other),
        abandoned(p, id).connections.dom() =~= p.connections.dom(),
        disconnected(p, id).next_connection_id == p.next_connection_id,
{
}

/// On a connection that has just been made nothing waits, and its first message has the number zero.
pub proof fn connections_begin_at_zero()
    ensures
        fresh().next_message_id == 0,
        fresh().waiting == Some(Set::<u32>::empty()),
        numbered(fresh()).next_message_id == 1,
        numbered(fresh()).waiting == fresh().waiting,
{
}

} // verus!
