//! The node's state and the decisions it takes while peers connect: whom to
//! refuse, what to answer a newcomer, and what to remember of the addresses
//! that peers share.  The program that drives the node does the reading and
//! writing and hands each event to these functions.
use crate::connections::{
    entries_insert, index_of, lemma_insert_keeps, lemma_insert_map, opt_view, sockets_distinct,
    Connections,
};
use crate::errors::NodeError;
use crate::message::{
    address_message_outcome, connect_message, lemma_connect_message_roundtrip, mode_of,
    mode_value, random_message_text, regex_search, socket_address_outcome, split_frames,
    Message64, Mode, ADDRESS_PATTERN,
};
use crate::text::{
    decimal, lemma_decimal_faithful, lemma_signed_decimal_faithful, payload_text, push_char,
    push_decimal, push_str, signed_decimal, trim_chars, writes_decimal,
};
use vstd::utf8::{decode_utf8, encode_utf8, valid_utf8};
use vstd::prelude::*;

verus! {

/// What a node is: where it listens, how often it sends, and whom it knows.
pub struct NodeView {
    pub address: Seq<char>,
    pub port: u16,
    pub period: u64,
    pub connections: Seq<(Seq<char>, Option<Seq<char>>)>,
}

/// The socket a node listens on: its address, a colon, and its port.
pub open spec fn local_socket_text(address: Seq<char>, port: u16) -> Seq<char> {
    address + seq![':'] + decimal(port as nat)
}

/// The listening address to share for a connection: the one recorded for it,
/// or else the socket itself.
pub open spec fn shared_address(entry: (Seq<char>, Option<Seq<char>>)) -> Seq<char> {
    match entry.1 {
        Some(listen) => listen,
        None => entry.0,
    }
}

/// The address sent when there is nothing to share.
pub open spec fn no_address_text() -> Seq<char> {
    "127.0.0.1:0000"@
}

/// What a node answers a newcomer that asks for its peers: one connect
/// message per connection, the last marked as last; or, where it knows no
/// one, a single message saying so.
pub open spec fn share_replies_spec(connections: Seq<(Seq<char>, Option<Seq<char>>)>) -> Seq<Seq<u8>> {
    if connections.len() == 0 {
        seq![connect_message(no_address_text(), Mode::EmptyConnections)]
    } else {
        Seq::new(
            connections.len(),
            |i: int|
                connect_message(
                    shared_address(connections[i]),
                    if i == connections.len() - 1 {
                        Mode::LastAddress
                    } else {
                        Mode::Connection
                    },
                ),
        )
    }
}

/// One step of reading the addresses a peer shares: the connections after
/// it, and whether to read on (`Ok(true)`), stop (`Ok(false)`), or give up.
pub open spec fn shared_address_step(
    connections: Seq<(Seq<char>, Option<Seq<char>>)>,
    outcome: Result<(Mode, Seq<char>), NodeError>,
) -> (Seq<(Seq<char>, Option<Seq<char>>)>, Result<bool, NodeError>) {
    match outcome {
        Err(e) => (connections, Err(e)),
        Ok((Mode::Connection, socket)) => (entries_insert(connections, socket, None), Ok(true)),
        Ok((Mode::LastAddress, socket)) => (entries_insert(connections, socket, None), Ok(false)),
        Ok((Mode::EmptyConnections, _)) => (connections, Ok(false)),
        Ok((Mode::ShareConnection, _)) => (connections, Ok(true)),
    }
}

/// How a node answers a newcomer whose first message was `outcome`: the
/// messages to send it and the address it listens on, or nothing where the
/// newcomer is to be dropped.
pub open spec fn handshake_spec(
    connections: Seq<(Seq<char>, Option<Seq<char>>)>,
    outcome: Result<(Mode, Seq<char>), NodeError>,
) -> Option<(Seq<Seq<u8>>, Seq<char>)> {
    match outcome {
        Ok((Mode::ShareConnection, listen)) => Some((share_replies_spec(connections), listen)),
        Ok((Mode::Connection, listen)) => Some((Seq::<Seq<u8>>::empty(), listen)),
        _ => None,
    }
}

/// What a peer that asked for the node's peers does with the `i`th answer,
/// read whole: it records the shared address, and reads on unless that
/// answer was the last.  (The shared address must be an address that
/// matches [`ADDRESS_PATTERN`], without surrounding whitespace.)
pub proof fn lemma_share_reply_recorded(
    connections: Seq<(Seq<char>, Option<Seq<char>>)>,
    known: Seq<(Seq<char>, Option<Seq<char>>)>,
    i: int,
)
    requires
        0 <= i < connections.len(),
        regex_search(ADDRESS_PATTERN@, shared_address(connections[i])) == Some(true),
        trim_chars(shared_address(connections[i])) == shared_address(connections[i]),
    ensures
        valid_utf8(share_replies_spec(connections)[i].drop_first()),
        shared_address_step(
            known,
            address_message_outcome(
                share_replies_spec(connections)[i].len(),
                share_replies_spec(connections)[i],
                trim_chars(decode_utf8(share_replies_spec(connections)[i].drop_first())),
            ),
        ) == (entries_insert(known, shared_address(connections[i]), None), Ok::<bool, NodeError>(
            i + 1 < connections.len(),
        )),
{
    let mode = if i == connections.len() - 1 {
        Mode::LastAddress
    } else {
        Mode::Connection
    };
    lemma_connect_message_roundtrip(shared_address(connections[i]), mode);
}

/// What a peer that asked for the node's peers does with the answer of a node
/// that knows no one, read whole: it records nothing and stops reading.
pub proof fn lemma_empty_share_reply(known: Seq<(Seq<char>, Option<Seq<char>>)>)
    requires
        regex_search(ADDRESS_PATTERN@, no_address_text()) == Some(true),
        trim_chars(no_address_text()) == no_address_text(),
    ensures
        valid_utf8(share_replies_spec(Seq::empty())[0].drop_first()),
        shared_address_step(
            known,
            address_message_outcome(
                share_replies_spec(Seq::empty())[0].len(),
                share_replies_spec(Seq::empty())[0],
                trim_chars(decode_utf8(share_replies_spec(Seq::empty())[0].drop_first())),
            ),
        ) == (known, Ok::<bool, NodeError>(false)),
{
    lemma_connect_message_roundtrip(no_address_text(), Mode::EmptyConnections);
}

/// A node that gets, whole, the join request of a newcomer listening on
/// `socket` answers with its peers and will remember the newcomer as
/// listening on `socket`; a newcomer that only connects gets no answer and is
/// remembered the same way.
pub proof fn lemma_join_answered(connections: Seq<(Seq<char>, Option<Seq<char>>)>, socket: Seq<char>)
    requires
        regex_search(ADDRESS_PATTERN@, socket) == Some(true),
        trim_chars(socket) == socket,
    ensures
        handshake_spec(
            connections,
            address_message_outcome(
                connect_message(socket, Mode::ShareConnection).len(),
                connect_message(socket, Mode::ShareConnection),
                trim_chars(decode_utf8(connect_message(socket, Mode::ShareConnection).drop_first())),
            ),
        ) == Some((share_replies_spec(connections), socket)),
        handshake_spec(
            connections,
            address_message_outcome(
                connect_message(socket, Mode::Connection).len(),
                connect_message(socket, Mode::Connection),
                trim_chars(decode_utf8(connect_message(socket, Mode::Connection).drop_first())),
            ),
        ) == Some((Seq::<Seq<u8>>::empty(), socket)),
{
    lemma_connect_message_roundtrip(socket, Mode::ShareConnection);
    lemma_connect_message_roundtrip(socket, Mode::Connection);
}

/// The socket a node announces is its address, a colon, and the decimal
/// digits of its port, which read back as the port.
pub proof fn lemma_local_socket_faithful(address: Seq<char>, port: u16)
    ensures
        local_socket_text(address, port).take(address.len() as int) == address,
        local_socket_text(address, port)[address.len() as int] == ':',
        writes_decimal(local_socket_text(address, port).skip(address.len() + 1int), port as int),
{
    lemma_decimal_faithful(port as nat);
    let t = local_socket_text(address, port);
    assert(t.take(address.len() as int) =~= address);
    assert(t.skip(address.len() + 1int) =~= decimal(port as nat));
}

/// A node that has joined greets every socket it knows, each exactly once
/// and in order, announcing itself as a plain connection from its listening
/// socket.
pub proof fn lemma_peer_greetings_reach_all(
    connections: Seq<(Seq<char>, Option<Seq<char>>)>,
    local: Seq<char>,
)
    ensures
        peer_greetings_spec(connections, local).len() == connections.len(),
        forall|i: int|
            0 <= i < connections.len() ==> (#[trigger] peer_greetings_spec(connections, local)[i]).0
                == connections[i].0,
        forall|i: int|
            0 <= i < connections.len() ==> (#[trigger] peer_greetings_spec(connections, local)[i]).1
                == seq![mode_value(Mode::Connection)] + encode_utf8(local),
        forall|k: Seq<char>|
            #[trigger] index_of(connections, k) is Some ==> exists|j: int|
                0 <= j < peer_greetings_spec(connections, local).len() && (
                #[trigger] peer_greetings_spec(connections, local)[j]).0 == k,
{
    let g = peer_greetings_spec(connections, local);
    assert forall|k: Seq<char>| #[trigger] index_of(connections, k) is Some implies exists|j: int|
        0 <= j < g.len() && (#[trigger] g[j]).0 == k by {
        let j = index_of(connections, k)->0;
        assert(g[j].0 == k);
    }
}

/// A node answers a newcomer that asks for its peers with one message per
/// connection, each carrying that connection's listening address, in order;
/// every message but the last says more are coming, and the last says it is
/// the last.  A node that knows no one sends a single message saying so.
pub proof fn lemma_share_replies_shape(connections: Seq<(Seq<char>, Option<Seq<char>>)>)
    ensures
        connections.len() == 0 ==> share_replies_spec(connections).len() == 1
            && share_replies_spec(connections)[0][0] == mode_value(Mode::EmptyConnections),
        connections.len() > 0 ==> share_replies_spec(connections).len() == connections.len(),
        connections.len() > 0 ==> forall|i: int|
            0 <= i < connections.len() ==> (#[trigger] share_replies_spec(connections)[i]).drop_first()
                == encode_utf8(
                match connections[i].1 {
                    Some(listen) => listen,
                    None => connections[i].0,
                },
            ),
        forall|i: int|
            0 <= i < share_replies_spec(connections).len() ==> (mode_of(
                #[trigger] share_replies_spec(connections)[i][0],
            ) == Some(Mode::Connection) <==> i < share_replies_spec(connections).len() - 1),
        forall|i: int|
            0 <= i < share_replies_spec(connections).len() ==> mode_of(
                #[trigger] share_replies_spec(connections)[i][0],
            ) is Some,
{
    let r = share_replies_spec(connections);
    if connections.len() > 0 {
        assert forall|i: int| 0 <= i < connections.len() implies (#[trigger] r[i]).drop_first()
            == encode_utf8(shared_address(connections[i])) by {
            let mode = if i == connections.len() - 1 {
                Mode::LastAddress
            } else {
                Mode::Connection
            };
            assert(r[i] == connect_message(shared_address(connections[i]), mode));
            assert(r[i].drop_first() =~= encode_utf8(shared_address(connections[i])));
        }
    }
}

/// A newcomer is accepted only where its first message is well formed and
/// in mode ShareConnection or Connection; it is then remembered as
/// listening on the address that message gave, and only one that asked for
/// the node's peers gets them.
pub proof fn lemma_handshake_accepts_only(
    connections: Seq<(Seq<char>, Option<Seq<char>>)>,
    outcome: Result<(Mode, Seq<char>), NodeError>,
)
    ensures
        handshake_spec(connections, outcome) is Some <==> (outcome matches Ok((m, _)) && (m
            == Mode::ShareConnection || m == Mode::Connection)),
        handshake_spec(connections, outcome) matches Some((replies, listen)) ==> (outcome matches Ok(
            (m, s),
        ) && s == listen && (m == Mode::ShareConnection ==> replies == share_replies_spec(
            connections,
        )) && (m == Mode::Connection ==> replies.len() == 0)),
{
}

/// The periodic message is the time, then ` - Message from `, the address, a
/// colon and the port, each number written faithfully in decimal.
pub proof fn lemma_random_message_fields(timestamp: int, address: Seq<char>, port: u16)
    ensures
        exists|stamp: Seq<char>, digits: Seq<char>|
            {
                &&& random_message_text(timestamp, address, port) == stamp + " - Message from "@
                    + address + seq![':'] + digits
                &&& writes_decimal(digits, port as int)
                &&& timestamp >= 0 ==> writes_decimal(stamp, timestamp)
                &&& timestamp < 0 ==> stamp[0] == '-' && writes_decimal(stamp.drop_first(), -timestamp)
            },
{
    lemma_decimal_faithful(port as nat);
    lemma_signed_decimal_faithful(timestamp);
    let stamp = signed_decimal(timestamp);
    let digits = decimal(port as nat);
    assert(random_message_text(timestamp, address, port) == stamp + " - Message from "@ + address
        + seq![':'] + digits);
}

/// Something that changes what a node knows of its connections.
pub enum ConnectionEvent {
    /// The peer that the node asked for its peers sent an address message of
    /// the given length and bytes ([`Node::store_shared_address`]).
    Shared(nat, Seq<u8>),
    /// The node joined the node that listens on the given socket
    /// ([`Node::complete_join`]).
    Joined(Seq<char>),
    /// A newcomer connected from the given socket, its first message of the
    /// given length and bytes, and every answer was sent
    /// ([`Node::answer_handshake`], then [`Node::add_connection`] with the
    /// listening address it gave).
    Accepted(Seq<char>, nat, Seq<u8>),
}

/// The connections after one event.
pub open spec fn after_event(
    connections: Seq<(Seq<char>, Option<Seq<char>>)>,
    event: ConnectionEvent,
) -> Seq<(Seq<char>, Option<Seq<char>>)> {
    match event {
        ConnectionEvent::Shared(n, buf) => shared_address_step(
            connections,
            socket_address_outcome(n, buf),
        ).0,
        ConnectionEvent::Joined(socket) => entries_insert(connections, socket, None),
        ConnectionEvent::Accepted(peer, n, buf) => match handshake_spec(
            connections,
            socket_address_outcome(n, buf),
        ) {
            Some((_, listen)) => entries_insert(connections, peer, Some(listen)),
            None => connections,
        },
    }
}

/// The connections after a sequence of events, in order.
pub open spec fn after_events(
    connections: Seq<(Seq<char>, Option<Seq<char>>)>,
    events: Seq<ConnectionEvent>,
) -> Seq<(Seq<char>, Option<Seq<char>>)>
    decreases events.len(),
{
    if events.len() == 0 {
        connections
    } else {
        after_events(after_event(connections, events[0]), events.drop_first())
    }
}

/// True when every listening address recorded for a connection matches
/// [`ADDRESS_PATTERN`].
pub open spec fn listen_addresses_match(connections: Seq<(Seq<char>, Option<Seq<char>>)>) -> bool {
    forall|i: int|
        0 <= i < connections.len() ==> ((#[trigger] connections[i]).1 matches Some(listen)
            ==> regex_search(ADDRESS_PATTERN@, listen) == Some(true))
}

proof fn lemma_after_event(connections: Seq<(Seq<char>, Option<Seq<char>>)>, event: ConnectionEvent)
    ensures
        forall|k: Seq<char>|
            #[trigger] index_of(connections, k) is Some ==> index_of(
                after_event(connections, event),
                k,
            ) is Some,
        sockets_distinct(connections) ==> sockets_distinct(after_event(connections, event)),
        listen_addresses_match(connections) ==> listen_addresses_match(
            after_event(connections, event),
        ),
{
    let after = after_event(connections, event);
    let (socket, listen) = match event {
        ConnectionEvent::Shared(n, buf) => match socket_address_outcome(n, buf) {
            Ok((_, s)) => (s, None),
            Err(_) => (Seq::<char>::empty(), None),
        },
        ConnectionEvent::Joined(s) => (s, None),
        ConnectionEvent::Accepted(peer, n, buf) => match handshake_spec(
            connections,
            socket_address_outcome(n, buf),
        ) {
            Some((_, l)) => (peer, Some(l)),
            None => (Seq::<char>::empty(), None),
        },
    };
    if after != connections {
        assert(after == entries_insert(connections, socket, listen));
        lemma_insert_keeps(connections, socket, listen);
        if sockets_distinct(connections) {
            lemma_insert_map(connections, socket, listen);
        }
        if listen_addresses_match(connections) {
            assert(listen matches Some(l) ==> regex_search(ADDRESS_PATTERN@, l) == Some(true));
            assert forall|i: int| 0 <= i < after.len() implies ((#[trigger] after[i]).1 matches Some(
                l,
            ) ==> regex_search(ADDRESS_PATTERN@, l) == Some(true)) by {
                if after[i] != (socket, listen) {
                    assert(after[i] == connections[i]);
                }
            }
        }
    }
}

/// Over a node's whole life its connections only grow: whatever happens,
/// no socket it knows is ever forgotten, no socket is recorded twice, and
/// every listening address it records is one that matched
/// [`ADDRESS_PATTERN`].  (Addresses shared with it and the nodes it joins
/// are recorded as listening sockets themselves, with no other address.)
pub proof fn lemma_connections_only_grow(
    connections: Seq<(Seq<char>, Option<Seq<char>>)>,
    events: Seq<ConnectionEvent>,
)
    ensures
        forall|k: Seq<char>|
            #[trigger] index_of(connections, k) is Some ==> index_of(
                after_events(connections, events),
                k,
            ) is Some,
        sockets_distinct(connections) ==> sockets_distinct(after_events(connections, events)),
        listen_addresses_match(connections) ==> listen_addresses_match(
            after_events(connections, events),
        ),
    decreases events.len(),
{
    if events.len() > 0 {
        let next = after_event(connections, events[0]);
        lemma_after_event(connections, events[0]);
        lemma_connections_only_grow(next, events.drop_first());
        assert forall|k: Seq<char>| #[trigger] index_of(connections, k) is Some implies index_of(
            after_events(connections, events),
            k,
        ) is Some by {
            assert(index_of(next, k) is Some);
        }
    }
}

/// The view of a list of greetings.
pub open spec fn greetings_view(greetings: Seq<(String, Vec<u8>)>) -> Seq<(Seq<char>, Seq<u8>)> {
    Seq::new(greetings.len(), |i: int| (greetings[i].0@, greetings[i].1@))
}

/// What a node that has joined the network sends, and to whom: to every
/// socket it knows, in order, a plain connect message from its listening
/// socket `local`.
pub open spec fn peer_greetings_spec(
    connections: Seq<(Seq<char>, Option<Seq<char>>)>,
    local: Seq<char>,
) -> Seq<(Seq<char>, Seq<u8>)> {
    Seq::new(connections.len(), |i: int| (connections[i].0, connect_message(local, Mode::Connection)))
}

/// The view of a list of messages.
pub open spec fn messages_view(messages: Seq<Vec<u8>>) -> Seq<Seq<u8>> {
    Seq::new(messages.len(), |i: int| messages[i]@)
}

/// How a node answers a newcomer.
pub enum Handshake {
    /// Drop the newcomer.
    Ignore,
    /// Send `replies`, in order; once all are sent, remember the newcomer as
    /// listening on `listen_address`.
    Accept { replies: Vec<Vec<u8>>, listen_address: String },
}

impl View for Handshake {
    type V = Option<(Seq<Seq<u8>>, Seq<char>)>;

    open spec fn view(&self) -> Self::V {
        match self {
            Handshake::Ignore => None,
            Handshake::Accept { replies, listen_address } => Some(
                (messages_view(replies@), listen_address@),
            ),
        }
    }
}

/// NodeBuilder provides more flexible creation of Node with different input
/// data.
pub struct NodeBuilder {
    address: String,
    port: u16,
    period: u64,
    connections: Connections,
}

impl View for NodeBuilder {
    type V = NodeView;

    closed spec fn view(&self) -> NodeView {
        NodeView {
            address: self.address@,
            port: self.port,
            period: self.period,
            connections: self.connections.entries(),
        }
    }
}

impl NodeBuilder {
    #[verifier::type_invariant]
    closed spec fn wf(&self) -> bool {
        self.period > 0
    }

    /// A builder for a node on port 8080 with no address, a period of five
    /// seconds, and no connections.
    pub fn new() -> (r: NodeBuilder)
        ensures
            r@.address == Seq::<char>::empty(),
            r@.port == 8080,
            r@.period == 5,
            r@.connections == Seq::<(Seq<char>, Option<Seq<char>>)>::empty(),
            sockets_distinct(r@.connections),
    {
        NodeBuilder { address: String::new(), port: 8080, period: 5, connections: Connections::new() }
    }

    /// Sets the address the node listens on.
    pub fn address(self, address: String) -> (r: NodeBuilder)
        ensures
            r@ == (NodeView { address: address@, ..self@ }),
    {
        proof {
            use_type_invariant(&self);
        }
        let mut builder = self;
        builder.address = address;
        builder
    }

    /// Sets the port the node listens on.
    pub fn port(self, port: u16) -> (r: NodeBuilder)
        ensures
            r@ == (NodeView { port, ..self@ }),
    {
        proof {
            use_type_invariant(&self);
        }
        let mut builder = self;
        builder.port = port;
        builder
    }

    /// Sets how often, in seconds, the node sends its message; zero is
    /// refused.
    pub fn period(self, period: u64) -> (r: Result<NodeBuilder, NodeError>)
        ensures
            match r {
                Ok(b) => period > 0 && b@ == (NodeView { period, ..self@ }),
                Err(e) => period == 0 && e is PeriodValueError,
            },
    {
        if period == 0 {
            return Err(NodeError::PeriodValueError);
        }
        proof {
            use_type_invariant(&self);
        }
        let mut builder = self;
        builder.period = period;
        Ok(builder)
    }

    /// Records a connection, and the address its node listens on where that
    /// differs from the socket.
    pub fn add_connection(self, address: String, connected_to_address: Option<String>) -> (r: NodeBuilder)
        ensures
            r@ == (NodeView {
                connections: entries_insert(self@.connections, address@, opt_view(connected_to_address)),
                ..self@
            }),
            sockets_distinct(r@.connections),
    {
        proof {
            use_type_invariant(&self);
        }
        let mut builder = self;
        let mut connections = Connections::new();
        std::mem::swap(&mut connections, &mut builder.connections);
        connections.insert(address, connected_to_address);
        builder.connections = connections;
        builder
    }

    /// The node that the builder describes.
    pub fn build(self) -> (r: Node)
        ensures
            r@ == self@,
    {
        proof {
            use_type_invariant(&self);
        }
        Node {
            address: self.address,
            port: self.port,
            period: self.period,
            connections: self.connections,
        }
    }
}

/// A node of the network: where it listens, how often it sends its message,
/// and the connections it knows.  The period is never zero.
#[derive(Debug)]
pub struct Node {
    address: String,
    port: u16,
    period: u64,
    /// Connected addresses: for a socket that is a node's listening socket
    /// the value is `None`; for one that is not, the socket its node listens
    /// on.
    connections: Connections,
}

impl View for Node {
    type V = NodeView;

    closed spec fn view(&self) -> NodeView {
        NodeView {
            address: self.address@,
            port: self.port,
            period: self.period,
            connections: self.connections.entries(),
        }
    }
}

impl Node {
    #[verifier::type_invariant]
    closed spec fn wf(&self) -> bool {
        self.period > 0
    }

    /// The address the node listens on.
    pub fn address(&self) -> (r: &String)
        ensures
            r@ == self@.address,
    {
        &self.address
    }

    /// The port the node listens on.
    pub fn port(&self) -> (r: u16)
        ensures
            r == self@.port,
    {
        self.port
    }

    /// How often, in seconds, the node sends its message; never zero.
    pub fn period(&self) -> (r: u64)
        ensures
            r == self@.period,
            r > 0,
    {
        proof {
            use_type_invariant(self);
        }
        self.period
    }

    /// The connections the node knows; no socket occurs twice.
    pub fn connections(&self) -> (r: &Connections)
        ensures
            r.entries() == self@.connections,
            sockets_distinct(self@.connections),
    {
        proof {
            use_type_invariant(&self.connections);
        }
        &self.connections
    }

    /// The socket the node listens on, as `address:port`.
    pub fn local_socket(&self) -> (r: String)
        ensures
            r@ == local_socket_text(self@.address, self@.port),
    {
        let mut s = String::new();
        push_str(&mut s, self.address.as_str());
        push_char(&mut s, ':');
        push_decimal(&mut s, self.port as u64);
        assert(s@ =~= local_socket_text(self@.address, self@.port));
        s
    }

    /// The first message to send to the node at `address_to`, asking for its
    /// peers; connecting to the node's own socket is refused.
    pub fn join_request(&self, address_to: &String) -> (r: Result<Vec<u8>, NodeError>)
        ensures
            match r {
                Ok(m) => address_to@ != local_socket_text(self@.address, self@.port) && m@
                    == connect_message(
                    local_socket_text(self@.address, self@.port),
                    Mode::ShareConnection,
                ),
                Err(e) => address_to@ == local_socket_text(self@.address, self@.port)
                    && e is ItselfConnectionError,
            },
    {
        let local_socket = self.local_socket();
        if local_socket == *address_to {
            return Err(NodeError::ItselfConnectionError);
        }
        Ok(Message64::create_connect_message(local_socket.as_str(), Mode::ShareConnection))
    }

    /// Once the peers that the joined node shared are recorded: every known
    /// socket, in order, each with the message that introduces the node to it
    /// as a plain connection from its listening socket.
    pub fn peer_greetings(&self) -> (r: Vec<(String, Vec<u8>)>)
        ensures
            greetings_view(r@) == peer_greetings_spec(
                self@.connections,
                local_socket_text(self@.address, self@.port),
            ),
    {
        let local_socket = self.local_socket();
        let mut greetings: Vec<(String, Vec<u8>)> = Vec::new();
        let count = self.connections.len();
        let mut i: usize = 0;
        while i < count
            invariant
                count == self@.connections.len(),
                local_socket@ == local_socket_text(self@.address, self@.port),
                i <= count,
                greetings@.len() == i,
                forall|k: int|
                    0 <= k < i ==> (#[trigger] greetings@[k]).0@ == self@.connections[k].0
                        && greetings@[k].1@ == connect_message(local_socket@, Mode::Connection),
            decreases count - i,
        {
            let socket = self.connections.socket(i).clone();
            let message = Message64::create_connect_message(local_socket.as_str(), Mode::Connection);
            greetings.push((socket, message));
            i = i + 1;
        }
        assert(greetings_view(greetings@) =~= peer_greetings_spec(self@.connections, local_socket@));
        greetings
    }

    /// Records the node that this node joined, at `address_to`: a listening
    /// socket, so with no other listening address.
    pub fn complete_join(&mut self, address_to: String)
        ensures
            final(self)@ == (NodeView {
                connections: entries_insert(old(self)@.connections, address_to@, None),
                ..old(self)@
            }),
    {
        self.add_connection(address_to, None);
    }

    /// Records a connection, and the address its node listens on where that
    /// differs from the socket.
    pub fn add_connection(&mut self, address: String, connected_to_address: Option<String>)
        ensures
            final(self)@ == (NodeView {
                connections: entries_insert(old(self)@.connections, address@, opt_view(connected_to_address)),
                ..old(self)@
            }),
    {
        proof {
            use_type_invariant(&*self);
        }
        let mut connections = Connections::new();
        std::mem::swap(&mut connections, &mut self.connections);
        connections.insert(address, connected_to_address);
        self.connections = connections;
    }

    /// Takes in one address message, of `n` bytes read into `buf`, from the
    /// peer the node asked for its peers: a shared address is recorded, and
    /// the result says whether more are to come.
    pub fn store_shared_address(&mut self, n: usize, buf: &Vec<u8>) -> (r: Result<bool, NodeError>)
        requires
            n == 0 || buf@.len() > 0,
        ensures
            (final(self)@.connections, r) == shared_address_step(
                old(self)@.connections,
                socket_address_outcome(n as nat, buf@),
            ),
            valid_utf8(buf@.drop_first()) ==> (final(self)@.connections, r) == shared_address_step(
                old(self)@.connections,
                address_message_outcome(n as nat, buf@, trim_chars(decode_utf8(buf@.drop_first()))),
            ),
            final(self)@.address == old(self)@.address,
            final(self)@.port == old(self)@.port,
            final(self)@.period == old(self)@.period,
    {
        match Message64::read_socket_address(n, buf) {
            Ok((mode, message)) => match mode {
                Mode::Connection => {
                    self.add_connection(message, None);
                    Ok(true)
                },
                Mode::LastAddress => {
                    self.add_connection(message, None);
                    Ok(false)
                },
                Mode::EmptyConnections => Ok(false),
                Mode::ShareConnection => Ok(true),
            },
            Err(err) => Err(err),
        }
    }

    /// The messages that answer a newcomer asking for the node's peers.
    pub fn share_replies(&self) -> (r: Vec<Vec<u8>>)
        ensures
            messages_view(r@) == share_replies_spec(self@.connections),
    {
        let mut replies: Vec<Vec<u8>> = Vec::new();
        let count = self.connections.len();
        if count == 0 {
            replies.push(Message64::create_connect_message("127.0.0.1:0000", Mode::EmptyConnections));
            assert(messages_view(replies@) =~= share_replies_spec(self@.connections));
            return replies;
        }
        let mut i: usize = 0;
        while i < count
            invariant
                count == self@.connections.len(),
                count > 0,
                i <= count,
                replies@.len() == i,
                forall|k: int|
                    0 <= k < i ==> #[trigger] replies@[k]@ == share_replies_spec(
                        self@.connections,
                    )[k],
            decreases count - i,
        {
            let mode = if i + 1 == count {
                Mode::LastAddress
            } else {
                Mode::Connection
            };
            let message = match self.connections.listen_address(i) {
                Some(listen) => Message64::create_connect_message(listen.as_str(), mode),
                None => Message64::create_connect_message(self.connections.socket(i).as_str(), mode),
            };
            replies.push(message);
            i = i + 1;
        }
        assert(messages_view(replies@) =~= share_replies_spec(self@.connections));
        replies
    }

    /// How to answer a newcomer whose first message, of `n` bytes, was read
    /// into `buf`: a newcomer that asks for the node's peers gets them; one
    /// that only connects gets nothing; any other is dropped.
    pub fn answer_handshake(&self, n: usize, buf: &Vec<u8>) -> (r: Handshake)
        requires
            n == 0 || buf@.len() > 0,
        ensures
            r@ == handshake_spec(self@.connections, socket_address_outcome(n as nat, buf@)),
            valid_utf8(buf@.drop_first()) ==> r@ == handshake_spec(
                self@.connections,
                address_message_outcome(n as nat, buf@, trim_chars(decode_utf8(buf@.drop_first()))),
            ),
    {
        match Message64::read_socket_address(n, buf) {
            Ok((Mode::ShareConnection, message)) => {
                Handshake::Accept { replies: self.share_replies(), listen_address: message }
            },
            Ok((Mode::Connection, message)) => {
                let r = Handshake::Accept { replies: Vec::new(), listen_address: message };
                assert(messages_view(Seq::<Vec<u8>>::empty()) =~= Seq::<Seq<u8>>::empty());
                r
            },
            _ => Handshake::Ignore,
        }
    }

    /// Takes in what a peer sent: `n` bytes read into `buf`.  A read of no
    /// bytes means the peer closed the connection; otherwise the complete
    /// messages at the start of `buf` are taken out of it and come back as
    /// text.
    pub fn read_messages(&self, n: usize, buf: &mut Vec<u8>) -> (r: Result<Vec<String>, NodeError>)
        ensures
            n == 0 ==> (r matches Err(e) && e is TcpClosedError) && final(buf)@ == old(buf)@,
            n != 0 ==> r is Ok && final(buf)@ == split_frames(old(buf)@).1,
            r matches Ok(messages) ==> {
                &&& messages@.len() == split_frames(old(buf)@).0.len()
                &&& forall|i: int|
                    0 <= i < messages@.len() ==> #[trigger] messages@[i]@ == payload_text(
                        split_frames(old(buf)@).0[i],
                    )
            },
    {
        if n == 0 {
            return Err(NodeError::TcpClosedError);
        }
        Ok(Message64::read_messages(buf))
    }
}

} // verus!
