use node::errors::NodeError;
use node::message::{Message64, Mode};
use node::node::{Handshake, NodeBuilder};

fn address_buffer(message: &[u8]) -> Vec<u8> {
    let mut buf = vec![0u8; 15];
    buf[..message.len()].copy_from_slice(message);
    buf
}

#[test]
fn builder_defaults() {
    let node = NodeBuilder::new().build();
    assert_eq!(node.address(), "");
    assert_eq!(node.port(), 8080);
    assert_eq!(node.period(), 5);
    assert!(node.connections().is_empty());
    assert_eq!(node.local_socket(), ":8080");
}

#[test]
fn builder_sets_fields() {
    let node = NodeBuilder::new()
        .address(String::from("127.0.0.1"))
        .port(9000)
        .period(3)
        .unwrap()
        .build();
    assert_eq!(node.address(), "127.0.0.1");
    assert_eq!(node.port(), 9000);
    assert_eq!(node.period(), 3);
    assert_eq!(node.local_socket(), "127.0.0.1:9000");
}

#[test]
fn builder_refuses_zero_period() {
    assert!(matches!(NodeBuilder::new().period(0), Err(NodeError::PeriodValueError)));
}

#[test]
fn builder_add_connection_replaces_in_place() {
    let node = NodeBuilder::new()
        .add_connection(String::from("a"), None)
        .add_connection(String::from("b"), Some(String::from("c")))
        .add_connection(String::from("a"), Some(String::from("d")))
        .build();
    let c = node.connections();
    assert_eq!(c.len(), 2);
    assert_eq!(c.socket(0), "a");
    assert_eq!(c.listen_address(0), &Some(String::from("d")));
    assert_eq!(c.socket(1), "b");
    assert_eq!(c.listen_address(1), &Some(String::from("c")));
}

#[test]
fn join_request_to_itself_is_refused() {
    let node = NodeBuilder::new().address(String::from("127.0.0.1")).port(8080).build();
    assert!(matches!(
        node.join_request(&String::from("127.0.0.1:8080")),
        Err(NodeError::ItselfConnectionError)
    ));
}

#[test]
fn join_request_asks_for_peers() {
    let node = NodeBuilder::new().address(String::from("127.0.0.1")).port(8081).build();
    let m = node.join_request(&String::from("127.0.0.1:8080")).unwrap();
    assert_eq!(m, Message64::create_connect_message("127.0.0.1:8081", Mode::ShareConnection));
}

#[test]
fn share_replies_of_lonely_node() {
    let node = NodeBuilder::new().build();
    let replies = node.share_replies();
    assert_eq!(replies, vec![Message64::create_connect_message("127.0.0.1:0000", Mode::EmptyConnections)]);
}

#[test]
fn share_replies_mark_the_last() {
    let node = NodeBuilder::new()
        .add_connection(String::from("127.0.0.1:8081"), None)
        .add_connection(String::from("127.0.0.1:5555"), Some(String::from("127.0.0.1:8082")))
        .add_connection(String::from("127.0.0.1:8083"), None)
        .build();
    let replies = node.share_replies();
    assert_eq!(
        replies,
        vec![
            Message64::create_connect_message("127.0.0.1:8081", Mode::Connection),
            Message64::create_connect_message("127.0.0.1:8082", Mode::Connection),
            Message64::create_connect_message("127.0.0.1:8083", Mode::LastAddress),
        ]
    );
}

#[test]
fn shared_addresses_are_recorded_by_the_newcomer() {
    let sharer = NodeBuilder::new()
        .add_connection(String::from("127.0.0.1:8081"), None)
        .add_connection(String::from("127.0.0.1:7777"), Some(String::from("127.0.0.1:8082")))
        .build();
    let mut newcomer = NodeBuilder::new().address(String::from("127.0.0.1")).port(8090).build();
    let replies = sharer.share_replies();
    let mut more = Vec::new();
    for reply in &replies {
        let buf = address_buffer(reply);
        more.push(newcomer.store_shared_address(15, &buf).unwrap());
    }
    assert_eq!(more, vec![true, false]);
    let c = newcomer.connections();
    assert_eq!(c.len(), 2);
    assert_eq!(c.socket(0), "127.0.0.1:8081");
    assert_eq!(c.socket(1), "127.0.0.1:8082");
    assert_eq!(c.listen_address(0), &None);
    assert_eq!(c.listen_address(1), &None);
}

#[test]
fn lonely_sharer_stops_the_newcomer() {
    let sharer = NodeBuilder::new().build();
    let mut newcomer = NodeBuilder::new().build();
    let replies = sharer.share_replies();
    let buf = address_buffer(&replies[0]);
    assert_eq!(newcomer.store_shared_address(15, &buf).unwrap(), false);
    assert!(newcomer.connections().is_empty());
}

#[test]
fn store_shared_address_errors() {
    let mut node = NodeBuilder::new().build();
    let buf = address_buffer(&Message64::create_connect_message("127.0.0.1:8081", Mode::Connection));
    assert!(matches!(node.store_shared_address(0, &buf), Err(NodeError::TcpClosedError)));
    let bad = address_buffer(&[7, b'1']);
    assert!(matches!(node.store_shared_address(2, &bad), Err(NodeError::UnexpectedMode)));
    let short = address_buffer(&Message64::create_connect_message("1.1.1.1:1", Mode::Connection));
    assert!(matches!(node.store_shared_address(10, &short), Err(NodeError::InvalidIpV4)));
    assert!(node.connections().is_empty());
}

#[test]
fn store_shared_address_skips_share_requests() {
    let mut node = NodeBuilder::new().build();
    let buf = address_buffer(&Message64::create_connect_message("127.0.0.1:8081", Mode::ShareConnection));
    assert_eq!(node.store_shared_address(15, &buf).unwrap(), true);
    assert!(node.connections().is_empty());
}

#[test]
fn handshake_answers_a_join_request() {
    let node = NodeBuilder::new()
        .address(String::from("127.0.0.1"))
        .port(8080)
        .add_connection(String::from("127.0.0.1:8081"), None)
        .build();
    let newcomer = NodeBuilder::new().address(String::from("127.0.0.1")).port(8082).build();
    let request = newcomer.join_request(&String::from("127.0.0.1:8080")).unwrap();
    let buf = address_buffer(&request);
    match node.answer_handshake(15, &buf) {
        Handshake::Accept { replies, listen_address } => {
            assert_eq!(listen_address, "127.0.0.1:8082");
            assert_eq!(replies, node.share_replies());
        }
        Handshake::Ignore => panic!("join request ignored"),
    }
}

#[test]
fn handshake_of_a_plain_connection() {
    let node = NodeBuilder::new().add_connection(String::from("127.0.0.1:8081"), None).build();
    let buf = address_buffer(&Message64::create_connect_message("127.0.0.1:8083", Mode::Connection));
    match node.answer_handshake(15, &buf) {
        Handshake::Accept { replies, listen_address } => {
            assert!(replies.is_empty());
            assert_eq!(listen_address, "127.0.0.1:8083");
        }
        Handshake::Ignore => panic!("connection ignored"),
    }
}

#[test]
fn handshake_ignores_everything_else() {
    let node = NodeBuilder::new().build();
    let last = address_buffer(&Message64::create_connect_message("127.0.0.1:8083", Mode::LastAddress));
    assert!(matches!(node.answer_handshake(15, &last), Handshake::Ignore));
    assert!(matches!(node.answer_handshake(0, &last), Handshake::Ignore));
    let invalid = address_buffer(&Message64::create_connect_message("x", Mode::ShareConnection));
    assert!(matches!(node.answer_handshake(2, &invalid), Handshake::Ignore));
}

#[test]
fn node_add_connection() {
    let mut node = NodeBuilder::new().build();
    node.add_connection(String::from("127.0.0.1:1"), Some(String::from("127.0.0.1:2")));
    node.add_connection(String::from("127.0.0.1:3"), None);
    node.add_connection(String::from("127.0.0.1:1"), None);
    let c = node.connections();
    assert_eq!(c.len(), 2);
    assert_eq!(c.listen_address(0), &None);
    assert_eq!(c.find(&String::from("127.0.0.1:3")), Some(1));
    assert_eq!(c.find(&String::from("127.0.0.1:4")), None);
}

#[test]
fn node_read_messages() {
    let node = NodeBuilder::new().build();
    let mut buf = Message64::create_message(String::from("one"));
    let before = buf.clone();
    assert!(matches!(node.read_messages(0, &mut buf), Err(NodeError::TcpClosedError)));
    assert_eq!(buf, before);
    let n = buf.len();
    let messages = node.read_messages(n, &mut buf).unwrap();
    assert_eq!(messages, vec![String::from("one")]);
    assert!(buf.is_empty());
}

#[test]
fn peer_greetings_reach_every_known_socket() {
    let node = NodeBuilder::new()
        .address(String::from("127.0.0.1"))
        .port(8090)
        .add_connection(String::from("127.0.0.1:8081"), None)
        .add_connection(String::from("127.0.0.1:8082"), Some(String::from("127.0.0.1:8083")))
        .build();
    let greeting = Message64::create_connect_message("127.0.0.1:8090", Mode::Connection);
    assert_eq!(
        node.peer_greetings(),
        vec![
            (String::from("127.0.0.1:8081"), greeting.clone()),
            (String::from("127.0.0.1:8082"), greeting),
        ]
    );
    assert!(NodeBuilder::new().build().peer_greetings().is_empty());
}

#[test]
fn complete_join_records_the_joined_socket() {
    let mut node = NodeBuilder::new().add_connection(String::from("127.0.0.1:8081"), None).build();
    node.complete_join(String::from("127.0.0.1:8080"));
    let c = node.connections();
    assert_eq!(c.len(), 2);
    assert_eq!(c.socket(1), "127.0.0.1:8080");
    assert_eq!(c.listen_address(1), &None);
}

#[test]
fn connections_only_grow_over_a_life() {
    let mut node = NodeBuilder::new()
        .address(String::from("127.0.0.1"))
        .port(8080)
        .add_connection(String::from("127.0.0.1:8081"), None)
        .build();
    let shared = address_buffer(&Message64::create_connect_message("127.0.0.1:8082", Mode::LastAddress));
    assert_eq!(node.store_shared_address(15, &shared).unwrap(), false);
    node.complete_join(String::from("127.0.0.1:8083"));
    let join = address_buffer(&Message64::create_connect_message("127.0.0.1:8084", Mode::Connection));
    if let Handshake::Accept { listen_address, .. } = node.answer_handshake(15, &join) {
        node.add_connection(String::from("127.0.0.1:50000"), Some(listen_address));
    }
    let bad = address_buffer(&[9, 1, 2]);
    assert!(node.store_shared_address(3, &bad).is_err());
    let c = node.connections();
    let sockets: Vec<String> = (0..c.len()).map(|i| c.socket(i).clone()).collect();
    assert_eq!(
        sockets,
        vec![
            String::from("127.0.0.1:8081"),
            String::from("127.0.0.1:8082"),
            String::from("127.0.0.1:8083"),
            String::from("127.0.0.1:50000"),
        ]
    );
    assert_eq!(c.listen_address(3), &Some(String::from("127.0.0.1:8084")));
}
