use node::errors::NodeError;
use node::message::{Message64, Mode, ADDRESS_PATTERN};

fn framed(text: &str) -> Vec<u8> {
    let mut v = (text.len() as u64).to_ne_bytes().to_vec();
    v.extend_from_slice(text.as_bytes());
    v
}

fn address_buffer(mode: u8, address: &str) -> Vec<u8> {
    let mut buf = vec![0u8; 15];
    buf[0] = mode;
    buf[1..1 + address.len()].copy_from_slice(address.as_bytes());
    buf
}

#[test]
fn mode_numbers_round_trip() {
    for (mode, number) in [
        (Mode::ShareConnection, 0u8),
        (Mode::Connection, 1),
        (Mode::LastAddress, 2),
        (Mode::EmptyConnections, 3),
    ] {
        assert_eq!(mode.value(), number);
        assert_eq!(Mode::from_value(number).unwrap(), mode);
    }
}

#[test]
fn mode_from_unknown_number_is_refused() {
    assert!(matches!(Mode::from_value(4), Err(NodeError::UnexpectedMode)));
    assert!(matches!(Mode::from_value(255), Err(NodeError::UnexpectedMode)));
}

#[test]
fn mode_labels() {
    assert_eq!(Mode::ShareConnection.label(), "ShareConnection 0");
    assert_eq!(Mode::Connection.label(), "Connection 1");
    assert_eq!(Mode::LastAddress.label(), "LastAddress 2");
    assert_eq!(Mode::EmptyConnections.label(), "EmptyConnections 3");
}

#[test]
fn connect_message_is_mode_then_address() {
    let m = Message64::create_connect_message("127.0.0.1:8080", Mode::LastAddress);
    let mut expected = vec![2u8];
    expected.extend_from_slice(b"127.0.0.1:8080");
    assert_eq!(m, expected);
    let m = Message64::create_connect_message("", Mode::ShareConnection);
    assert_eq!(m, vec![0u8]);
}

#[test]
fn framed_message_has_native_length_prefix() {
    let m = Message64::create_message(String::from("hello"));
    assert_eq!(m.len(), 13);
    assert_eq!(&m[..8], &5u64.to_ne_bytes());
    assert_eq!(&m[8..], b"hello");
    let m = Message64::create_message(String::from("é"));
    assert_eq!(&m[..8], &2u64.to_ne_bytes());
    assert_eq!(&m[8..], "é".as_bytes());
}

#[test]
fn frames_stuck_together_are_all_read() {
    let mut buf = Message64::create_message(String::from("first"));
    buf.extend(Message64::create_message(String::from("  second \n")));
    let partial = framed("third");
    buf.extend_from_slice(&partial[..10]);
    let messages = Message64::read_messages(&mut buf);
    assert_eq!(messages, vec![String::from("first"), String::from("second")]);
    assert_eq!(buf, partial[..10].to_vec());
}

#[test]
fn partial_frame_waits_for_the_rest() {
    let whole = framed("waiting");
    for k in 0..whole.len() {
        let mut buf = whole[..k].to_vec();
        let messages = Message64::read_messages(&mut buf);
        assert!(messages.is_empty());
        assert_eq!(buf, whole[..k].to_vec());
    }
    let mut buf = whole.clone();
    assert_eq!(Message64::read_messages(&mut buf), vec![String::from("waiting")]);
    assert!(buf.is_empty());
}

#[test]
fn empty_frame_stops_reading() {
    let mut buf = Message64::create_message(String::new());
    buf.extend(Message64::create_message(String::from("after")));
    let before = buf.clone();
    let messages = Message64::read_messages(&mut buf);
    assert!(messages.is_empty());
    assert_eq!(buf, before);
}

#[test]
fn frame_reading_stops_at_zero_filled_tail() {
    let mut buf = vec![0u8; 2048];
    let m = Message64::create_message(String::from("tick"));
    buf[..m.len()].copy_from_slice(&m);
    let messages = Message64::read_messages(&mut buf);
    assert_eq!(messages, vec![String::from("tick")]);
    assert_eq!(buf.len(), 2048 - m.len());
    assert!(buf.iter().all(|b| *b == 0));
}

#[test]
fn invalid_utf8_payload_is_decoded_lossily() {
    let mut buf = 3u64.to_ne_bytes().to_vec();
    buf.extend_from_slice(&[b'a', 0xff, b'b']);
    let messages = Message64::read_messages(&mut buf);
    assert_eq!(messages, vec![String::from("a\u{fffd}b")]);
}

#[test]
fn unicode_whitespace_is_trimmed() {
    let mut buf = Message64::create_message(String::from("\u{3000}\u{85} text\t\u{2029}"));
    let messages = Message64::read_messages(&mut buf);
    assert_eq!(messages, vec![String::from("text")]);
}

#[test]
fn random_message_text_exact() {
    assert_eq!(
        Message64::random_message(1700000000, "127.0.0.1", 8080),
        "1700000000 - Message from 127.0.0.1:8080"
    );
    assert_eq!(Message64::random_message(0, "a", 0), "0 - Message from a:0");
    assert_eq!(Message64::random_message(-42, "h", 65535), "-42 - Message from h:65535");
    assert_eq!(
        Message64::random_message(i64::MIN, "", 7),
        format!("{} - Message from :7", i64::MIN)
    );
}

#[test]
fn random_message_is_a_framed_timestamped_text() {
    let m = Message64::create_random_message(1712000000, "127.0.0.1", 8081);
    let text = "1712000000 - Message from 127.0.0.1:8081";
    assert_eq!(&m[..8], &(text.len() as u64).to_ne_bytes());
    assert_eq!(&m[8..], text.as_bytes());
    let mut buf = m.clone();
    assert_eq!(Message64::read_messages(&mut buf), vec![String::from(text)]);
    assert!(buf.is_empty());
}

#[test]
fn read_socket_address_closed_connection() {
    let buf = address_buffer(1, "127.0.0.1:8080");
    assert!(matches!(Message64::read_socket_address(0, &buf), Err(NodeError::TcpClosedError)));
}

#[test]
fn read_socket_address_unknown_mode() {
    let buf = address_buffer(9, "127.0.0.1:8080");
    assert!(matches!(Message64::read_socket_address(15, &buf), Err(NodeError::UnexpectedMode)));
}

#[test]
fn read_socket_address_full_buffer() {
    let buf = address_buffer(1, "127.0.0.1:8080");
    let (mode, address) = Message64::read_socket_address(15, &buf).unwrap();
    assert_eq!(mode, Mode::Connection);
    assert_eq!(address, "127.0.0.1:8080");
}

#[test]
fn read_socket_address_reads_connect_message_back() {
    let m = Message64::create_connect_message("10.0.0.1:80", Mode::LastAddress);
    let (mode, address) = Message64::read_socket_address(m.len(), &m).unwrap();
    assert_eq!(mode, Mode::LastAddress);
    assert_eq!(address, "10.0.0.1:80");
}

#[test]
fn read_socket_address_zero_padding_is_not_an_address() {
    let buf = address_buffer(1, "1.2.3.4:5");
    assert!(matches!(Message64::read_socket_address(10, &buf), Err(NodeError::InvalidIpV4)));
}

#[test]
fn read_socket_address_refuses_non_addresses() {
    for text in ["localhost:80", "1.2.3.4", "1.2.3.4:123456", "1234.1.1.1:1", "a1.2.3.4:5"] {
        let m = Message64::create_connect_message(text, Mode::Connection);
        assert!(matches!(
            Message64::read_socket_address(m.len(), &m),
            Err(NodeError::InvalidIpV4)
        ));
    }
}

#[test]
fn read_socket_address_trims_before_matching() {
    let m = Message64::create_connect_message(" 1.2.3.4:5\n", Mode::Connection);
    let (_, address) = Message64::read_socket_address(m.len(), &m).unwrap();
    assert_eq!(address, "1.2.3.4:5");
}

#[test]
fn read_socket_address_unicode_digits_match() {
    let m = Message64::create_connect_message("١٢٧.0.0.1:80", Mode::Connection);
    let (_, address) = Message64::read_socket_address(m.len(), &m).unwrap();
    assert_eq!(address, "١٢٧.0.0.1:80");
}

#[test]
fn accept_socket_address_by_search_result() {
    let ok = Message64::accept_socket_address(Mode::Connection, String::from("x"), Some(true)).unwrap();
    assert_eq!(ok.0, Mode::Connection);
    assert_eq!(ok.1, "x");
    assert!(matches!(
        Message64::accept_socket_address(Mode::Connection, String::from("x"), Some(false)),
        Err(NodeError::InvalidIpV4)
    ));
    assert!(matches!(
        Message64::accept_socket_address(Mode::Connection, String::from("x"), None),
        Err(NodeError::InvalidIpV4)
    ));
}

#[test]
fn address_pattern_text() {
    assert_eq!(ADDRESS_PATTERN, r"^(\d{1,3}\.){3}\d{1,3}:\d{1,5}$");
}

#[test]
fn reading_again_reads_nothing() {
    let mut buf = Message64::create_message(String::from("a"));
    buf.extend(Message64::create_message(String::new()));
    buf.extend(Message64::create_message(String::from("b")));
    assert_eq!(Message64::read_messages(&mut buf), vec![String::from("a")]);
    let left = buf.clone();
    assert!(Message64::read_messages(&mut buf).is_empty());
    assert_eq!(buf, left);
}

#[test]
fn stuck_messages_then_zeros() {
    let mut buf = Message64::create_message(String::from(" x "));
    buf.extend(Message64::create_message(String::from("y")));
    buf.extend(vec![0u8; 20]);
    assert_eq!(Message64::read_messages(&mut buf), vec![String::from("x"), String::from("y")]);
    assert_eq!(buf, vec![0u8; 20]);
}

#[test]
fn ipv4_socket_texts_are_accepted() {
    for text in ["0.0.0.0:0", "255.255.255.255:65535", "999.1.22.333:12345"] {
        let m = Message64::create_connect_message(text, Mode::EmptyConnections);
        let (mode, address) = Message64::read_socket_address(m.len(), &m).unwrap();
        assert_eq!(mode, Mode::EmptyConnections);
        assert_eq!(address, text);
    }
    for text in ["1.2.3:4", "1.2.3.4.5:6", "1.2.3.4:", ".1.2.3:4", "1.2.3.4:5x", "1,2.3.4:5"] {
        let m = Message64::create_connect_message(text, Mode::Connection);
        assert!(matches!(
            Message64::read_socket_address(m.len(), &m),
            Err(NodeError::InvalidIpV4)
        ));
    }
}
