//! The wire formats the nodes speak: framed text messages, and the short
//! messages that share listening addresses while peers connect.
use crate::byte_order::{lemma_native_roundtrip, lemma_native_value_zero, native_bytes, native_value, u64_from_ne_bytes, u64_to_ne_bytes};
use crate::errors::NodeError;
use crate::text::{decimal, trim_chars, trim_end_chars, trim_start_chars, decode_lossy, payload_text, push_char, push_decimal, push_signed_decimal, push_str, signed_decimal, trim_owned};
use vstd::prelude::*;
use vstd::slice::slice_subrange;
use vstd::utf8::*;

verus! {

/// Modes for process messages between nodes.  A connect message starts with
/// the mode's number.
#[derive(Debug, Copy, Clone, PartialEq, Eq, Structural)]
pub enum Mode {
    /// 0 - first connection message, should ask other peers addresses to connect
    ShareConnection,
    /// 1 - connect to rest peers, do not need share with other peers
    Connection,
    /// 2 - last address, need to stop reading shared addresses
    LastAddress,
    /// 3 - do not connect to any addresses, need to stop reading shared addresses
    EmptyConnections,
}

/// The number that stands for a mode on the wire.
pub open spec fn mode_value(m: Mode) -> u8 {
    match m {
        Mode::ShareConnection => 0,
        Mode::Connection => 1,
        Mode::LastAddress => 2,
        Mode::EmptyConnections => 3,
    }
}

/// The mode that a number stands for, if any.
pub open spec fn mode_of(value: u8) -> Option<Mode> {
    if value == 0 {
        Some(Mode::ShareConnection)
    } else if value == 1 {
        Some(Mode::Connection)
    } else if value == 2 {
        Some(Mode::LastAddress)
    } else if value == 3 {
        Some(Mode::EmptyConnections)
    } else {
        None
    }
}

/// The name and number of a mode, as the node prints it.
pub open spec fn mode_label(m: Mode) -> Seq<char> {
    match m {
        Mode::ShareConnection => "ShareConnection 0"@,
        Mode::Connection => "Connection 1"@,
        Mode::LastAddress => "LastAddress 2"@,
        Mode::EmptyConnections => "EmptyConnections 3"@,
    }
}

impl Mode {
    /// The number of the mode.
    pub fn value(&self) -> (r: u8)
        ensures
            r == mode_value(*self),
    {
        match *self {
            Mode::ShareConnection => 0,
            Mode::Connection => 1,
            Mode::LastAddress => 2,
            Mode::EmptyConnections => 3,
        }
    }

    /// The mode a number names; `UnexpectedMode` for any number above 3.
    pub fn from_value(value: u8) -> (r: Result<Mode, NodeError>)
        ensures
            match r {
                Ok(m) => mode_of(value) == Some(m),
                Err(e) => mode_of(value) is None && e is UnexpectedMode,
            },
    {
        match value {
            0 => Ok(Mode::ShareConnection),
            1 => Ok(Mode::Connection),
            2 => Ok(Mode::LastAddress),
            3 => Ok(Mode::EmptyConnections),
            _ => Err(NodeError::UnexpectedMode),
        }
    }

    /// The name and number of the mode, as the node prints it.
    pub fn label(&self) -> (r: &'static str)
        ensures
            r@ == mode_label(*self),
    {
        match *self {
            Mode::ShareConnection => "ShareConnection 0",
            Mode::Connection => "Connection 1",
            Mode::LastAddress => "LastAddress 2",
            Mode::EmptyConnections => "EmptyConnections 3",
        }
    }
}

/// Every mode survives the trip through its number, and every number up to 3
/// survives the trip through its mode.
pub proof fn lemma_mode_value_roundtrip(m: Mode, value: u8)
    ensures
        mode_of(mode_value(m)) == Some(m),
        mode_of(value) is Some <==> value <= 3,
        mode_of(value) matches Some(n) ==> mode_value(n) == value,
{
}

/// A connect message: the mode's number, then the UTF-8 bytes of a socket
/// address.
pub open spec fn connect_message(socket: Seq<char>, mode: Mode) -> Seq<u8> {
    seq![mode_value(mode)] + encode_utf8(socket)
}

/// A framed message: the payload's length as eight native-endian bytes, then
/// the payload.
pub open spec fn frame(payload: Seq<u8>) -> Seq<u8> {
    native_bytes(payload.len() as u64) + payload
}

/// How a buffer splits into complete frames: the payloads of the frames read
/// from its start, and what is left over.  Reading stops at a frame whose
/// length is zero, or whose payload has not fully arrived.
pub open spec fn split_frames(buf: Seq<u8>) -> (Seq<Seq<u8>>, Seq<u8>)
    decreases buf.len(),
{
    if buf.len() < 8 {
        (seq![], buf)
    } else {
        let n = native_value(buf.subrange(0, 8));
        if n == 0 || buf.len() - 8 < n {
            (seq![], buf)
        } else {
            let rest = split_frames(buf.subrange(8 + n, buf.len() as int));
            (seq![buf.subrange(8, 8 + n)] + rest.0, rest.1)
        }
    }
}

/// The text of the message that a node sends every period: the Unix time in
/// seconds, then who sends it.
pub open spec fn random_message_text(timestamp: int, address: Seq<char>, port: u16) -> Seq<char> {
    signed_decimal(timestamp) + " - Message from "@ + address + seq![':'] + decimal(port as nat)
}

/// The pattern a shared socket address must match: an IPv4 address and a
/// port.  As the `regex` crate reads it, `\d` is any Unicode decimal digit.
pub const ADDRESS_PATTERN: &'static str = r"^(\d{1,3}\.){3}\d{1,3}:\d{1,5}$";

/// True for an ASCII decimal digit.
pub open spec fn is_ascii_digit(c: char) -> bool {
    '0' <= c <= '9'
}

/// True when `s` is a run of `min` to `max` ASCII decimal digits.
pub open spec fn digit_run(s: Seq<char>, min: nat, max: nat) -> bool {
    &&& min <= s.len() <= max
    &&& forall|i: int| 0 <= i < s.len() ==> is_ascii_digit(#[trigger] s[i])
}

/// The ASCII texts that [`ADDRESS_PATTERN`] matches: four runs of one to
/// three digits joined by dots, a colon, and one to five digits.
pub open spec fn ipv4_socket_text(s: Seq<char>) -> bool {
    exists|a: Seq<char>, b: Seq<char>, c: Seq<char>, d: Seq<char>, p: Seq<char>|
        #![trigger digit_run(a, 1, 3), digit_run(b, 1, 3), digit_run(c, 1, 3), digit_run(d, 1, 3), digit_run(p, 1, 5)]
        {
            &&& digit_run(a, 1, 3)
            &&& digit_run(b, 1, 3)
            &&& digit_run(c, 1, 3)
            &&& digit_run(d, 1, 3)
            &&& digit_run(p, 1, 5)
            &&& s == a + seq!['.'] + b + seq!['.'] + c + seq!['.'] + d + seq![':'] + p
        }
}

/// What `regex::Regex::new(pattern)` followed by `is_match(haystack)` gives:
/// `None` where the pattern does not compile, else whether the haystack holds
/// a match.
pub uninterp spec fn regex_search(pattern: Seq<char>, haystack: Seq<char>) -> Option<bool>;

/// Compiles `pattern` with `regex::Regex::new` and, where that succeeds,
/// searches `haystack` with `regex::Regex::is_match`.  Both depend on their
/// arguments alone; their result is named [`regex_search`].  For
/// [`ADDRESS_PATTERN`] and an ASCII haystack the `regex` syntax fixes the
/// result: the pattern compiles, `^` and `$` anchor it to the whole haystack,
/// and among ASCII characters `\d` matches the digits `0` to `9` only.  What
/// it gives for other haystacks and patterns is left to the name.
#[verifier::external_body]
fn search_pattern(pattern: &str, haystack: &str) -> (r: Option<bool>)
    ensures
        r == regex_search(pattern@, haystack@),
        pattern@ == ADDRESS_PATTERN@ && is_ascii_chars(haystack@) ==> r == Some(
            ipv4_socket_text(haystack@),
        ),
{
    match regex::Regex::new(pattern) {
        Ok(re) => Some(re.is_match(haystack)),
        Err(_) => None,
    }
}

/// What a node makes of an address message of `n` bytes read into `buf`.
pub open spec fn socket_address_outcome(n: nat, buf: Seq<u8>) -> Result<(Mode, Seq<char>), NodeError> {
    address_message_outcome(n, buf, payload_text(buf.drop_first()))
}

/// What a node makes of an address message of `n` bytes read into `buf`,
/// given the text that the bytes after the mode stand for.
pub open spec fn address_message_outcome(n: nat, buf: Seq<u8>, text: Seq<char>) -> Result<(Mode, Seq<char>), NodeError> {
    outcome_for_match(n, buf, text, regex_search(ADDRESS_PATTERN@, text))
}

/// [`address_message_outcome`] for an ASCII text, where whether the text is
/// an address is [`ipv4_socket_text`].
pub open spec fn ascii_address_message_outcome(n: nat, buf: Seq<u8>, text: Seq<char>) -> Result<(Mode, Seq<char>), NodeError> {
    outcome_for_match(n, buf, text, Some(ipv4_socket_text(text)))
}

/// What a node makes of an address message of `n` bytes read into `buf`,
/// given the text after the mode and what the search for
/// [`ADDRESS_PATTERN`] in it gave.
pub open spec fn outcome_for_match(n: nat, buf: Seq<u8>, text: Seq<char>, matched: Option<bool>) -> Result<(Mode, Seq<char>), NodeError> {
    if n == 0 {
        Err(NodeError::TcpClosedError)
    } else {
        match mode_of(buf[0]) {
            None => Err(NodeError::UnexpectedMode),
            Some(mode) => address_outcome(mode, text, matched),
        }
    }
}

/// What a node makes of a mode and an address text, given whether the text
/// matched [`ADDRESS_PATTERN`].
pub open spec fn address_outcome(mode: Mode, text: Seq<char>, matched: Option<bool>) -> Result<(Mode, Seq<char>), NodeError> {
    if matched == Some(true) {
        Ok((mode, text))
    } else {
        Err(NodeError::InvalidIpV4)
    }
}

/// The view of a parsed address message.
pub open spec fn address_result_view(r: Result<(Mode, String), NodeError>) -> Result<(Mode, Seq<char>), NodeError> {
    match r {
        Ok((m, s)) => Ok((m, s@)),
        Err(e) => Err(e),
    }
}

/// Frames laid one after another.
pub open spec fn frames(payloads: Seq<Seq<u8>>) -> Seq<u8>
    decreases payloads.len(),
{
    if payloads.len() == 0 {
        seq![]
    } else {
        frame(payloads[0]) + frames(payloads.drop_first())
    }
}

/// A payload that a frame can carry and that reading gives back: not empty,
/// and with a length that fits the eight-byte prefix.
pub open spec fn readable_payload(payload: Seq<u8>) -> bool {
    0 < payload.len() <= u64::MAX
}

/// Reading a buffer that starts with a frame of a readable payload gives that
/// payload first, then whatever the rest of the buffer gives.
pub proof fn lemma_read_frame(payload: Seq<u8>, rest: Seq<u8>)
    requires
        readable_payload(payload),
    ensures
        split_frames(frame(payload) + rest) == (
            seq![payload] + split_frames(rest).0,
            split_frames(rest).1,
        ),
{
    let len = payload.len() as u64;
    lemma_native_roundtrip(len);
    let buf = frame(payload) + rest;
    assert(buf.subrange(0, 8) =~= native_bytes(len));
    assert(buf.subrange(8, 8 + len) =~= payload);
    assert(buf.subrange(8 + len, buf.len() as int) =~= rest);
}

/// Messages sent one after another, however they arrive stuck together,
/// are all read back, in order, and nothing of them is left over.
pub proof fn lemma_read_frames(payloads: Seq<Seq<u8>>, rest: Seq<u8>)
    requires
        forall|i: int| 0 <= i < payloads.len() ==> readable_payload(#[trigger] payloads[i]),
    ensures
        split_frames(frames(payloads) + rest) == (
            payloads + split_frames(rest).0,
            split_frames(rest).1,
        ),
    decreases payloads.len(),
{
    if payloads.len() == 0 {
        assert(frames(payloads) + rest =~= rest);
        assert(payloads + split_frames(rest).0 =~= split_frames(rest).0);
    } else {
        let tail = payloads.drop_first();
        assert forall|i: int| 0 <= i < tail.len() implies readable_payload(#[trigger] tail[i]) by {
            assert(tail[i] == payloads[i + 1]);
        }
        lemma_read_frames(tail, rest);
        assert(readable_payload(payloads[0]));
        lemma_read_frame(payloads[0], frames(tail) + rest);
        assert(frames(payloads) + rest =~= frame(payloads[0]) + (frames(tail) + rest));
        assert(seq![payloads[0]] + (tail + split_frames(rest).0) =~= payloads + split_frames(
            rest,
        ).0);
    }
}

/// A frame of length zero stops reading: nothing is read, and the buffer
/// stays as it is.
pub proof fn lemma_empty_frame_stops(rest: Seq<u8>)
    ensures
        split_frames(frame(Seq::<u8>::empty()) + rest) == (
            Seq::<Seq<u8>>::empty(),
            frame(Seq::<u8>::empty()) + rest,
        ),
{
    lemma_native_roundtrip(0);
    let buf = frame(Seq::<u8>::empty()) + rest;
    assert(buf.subrange(0, 8) =~= native_bytes(0));
}

/// A frame that has only partly arrived waits: nothing is read, and the
/// buffer stays as it is.
pub proof fn lemma_partial_frame_waits(payload: Seq<u8>, received: int)
    requires
        readable_payload(payload),
        0 <= received < frame(payload).len(),
    ensures
        split_frames(frame(payload).take(received)) == (
            Seq::<Seq<u8>>::empty(),
            frame(payload).take(received),
        ),
{
    let len = payload.len() as u64;
    lemma_native_roundtrip(len);
    let buf = frame(payload).take(received);
    if received >= 8 {
        assert(buf.subrange(0, 8) =~= native_bytes(len));
    }
}

/// Reading what a read left over reads nothing and leaves it as it is.
pub proof fn lemma_read_again(buf: Seq<u8>)
    ensures
        split_frames(split_frames(buf).1) == (Seq::<Seq<u8>>::empty(), split_frames(buf).1),
    decreases buf.len(),
{
    if buf.len() >= 8 {
        let n = native_value(buf.subrange(0, 8));
        if n != 0 && buf.len() - 8 >= n {
            lemma_read_again(buf.subrange(8 + n, buf.len() as int));
        }
    }
}

/// Zero bytes are no frame: reading them reads nothing and leaves them.
pub proof fn lemma_zeros_stay(count: nat)
    ensures
        split_frames(Seq::new(count, |i: int| 0u8)) == (
            Seq::<Seq<u8>>::empty(),
            Seq::new(count, |i: int| 0u8),
        ),
{
    let zeros = Seq::new(count, |i: int| 0u8);
    if count >= 8 {
        lemma_native_value_zero();
        assert(zeros.subrange(0, 8) =~= Seq::new(8, |i: int| 0u8));
    }
}

/// Messages stuck together and followed by zero bytes, as in a zero-filled
/// read buffer, are all read, in order, and the zero bytes stay.
pub proof fn lemma_frames_then_zeros(payloads: Seq<Seq<u8>>, count: nat)
    requires
        forall|i: int| 0 <= i < payloads.len() ==> readable_payload(#[trigger] payloads[i]),
    ensures
        split_frames(frames(payloads) + Seq::new(count, |i: int| 0u8)) == (
            payloads,
            Seq::new(count, |i: int| 0u8),
        ),
{
    lemma_read_frames(payloads, Seq::new(count, |i: int| 0u8));
    lemma_zeros_stay(count);
    assert(payloads + Seq::<Seq<u8>>::empty() =~= payloads);
}

/// The framed text of a message is read back as that text, trimmed: its
/// bytes are valid UTF-8 and decode to the text.
pub proof fn lemma_message_roundtrip(text: Seq<char>, rest: Seq<u8>)
    requires
        text.len() > 0,
        encode_utf8(text).len() <= u64::MAX,
    ensures
        split_frames(frame(encode_utf8(text)) + rest) == (
            seq![encode_utf8(text)] + split_frames(rest).0,
            split_frames(rest).1,
        ),
        valid_utf8(encode_utf8(text)),
        trim_chars(decode_utf8(encode_utf8(text))) == trim_chars(text),
{
    encode_utf8_valid_utf8(text);
    encode_utf8_decode_utf8(text);
    assert(encode_utf8(text).len() > 0);
    lemma_read_frame(encode_utf8(text), rest);
}

/// A connect message for an address that matches [`ADDRESS_PATTERN`] and has
/// no surrounding whitespace is read back as the same mode and address.
pub proof fn lemma_connect_message_roundtrip(socket: Seq<char>, mode: Mode)
    requires
        regex_search(ADDRESS_PATTERN@, socket) == Some(true),
        trim_chars(socket) == socket,
    ensures
        valid_utf8(connect_message(socket, mode).drop_first()),
        address_message_outcome(
            connect_message(socket, mode).len(),
            connect_message(socket, mode),
            trim_chars(decode_utf8(connect_message(socket, mode).drop_first())),
        ) == Ok::<(Mode, Seq<char>), NodeError>((mode, socket)),
{
    let msg = connect_message(socket, mode);
    assert(msg.drop_first() =~= encode_utf8(socket));
    encode_utf8_valid_utf8(socket);
    encode_utf8_decode_utf8(socket);
}

/// An IPv4 socket text has no surrounding whitespace and is ASCII.
pub proof fn lemma_ipv4_socket_text_plain(socket: Seq<char>)
    requires
        ipv4_socket_text(socket),
    ensures
        trim_chars(socket) == socket,
        is_ascii_chars(socket),
{
    let (a, b, c, d, p) = choose|a: Seq<char>, b: Seq<char>, c: Seq<char>, d: Seq<char>, p: Seq<char>|
        #![trigger digit_run(a, 1, 3), digit_run(b, 1, 3), digit_run(c, 1, 3), digit_run(d, 1, 3), digit_run(p, 1, 5)]
        {
            &&& digit_run(a, 1, 3)
            &&& digit_run(b, 1, 3)
            &&& digit_run(c, 1, 3)
            &&& digit_run(d, 1, 3)
            &&& digit_run(p, 1, 5)
            &&& socket == a + seq!['.'] + b + seq!['.'] + c + seq!['.'] + d + seq![':'] + p
        };
    assert(socket[0] == a[0]);
    assert(is_ascii_digit(a[0]));
    assert(socket.last() == p[p.len() - 1]);
    assert(is_ascii_digit(p[p.len() - 1]));
    assert(trim_start_chars(socket) == socket);
    assert(trim_end_chars(socket) == socket);
    assert forall|i: int| 0 <= i < socket.len() implies '\0' <= #[trigger] socket[i] <= '\u{7f}' by {
        let prefix = a + seq!['.'] + b + seq!['.'] + c + seq!['.'] + d + seq![':'];
        if i >= prefix.len() {
            assert(socket[i] == p[i - prefix.len()]);
            assert(is_ascii_digit(p[i - prefix.len()]));
        } else {
            let p3 = a + seq!['.'] + b + seq!['.'] + c + seq!['.'];
            if i >= p3.len() {
                if i < p3.len() + d.len() {
                    assert(socket[i] == d[i - p3.len()]);
                    assert(is_ascii_digit(d[i - p3.len()]));
                }
            } else {
                let p2 = a + seq!['.'] + b + seq!['.'];
                if i >= p2.len() {
                    if i < p2.len() + c.len() {
                        assert(socket[i] == c[i - p2.len()]);
                        assert(is_ascii_digit(c[i - p2.len()]));
                    }
                } else {
                    let p1 = a + seq!['.'];
                    if i >= p1.len() {
                        if i < p1.len() + b.len() {
                            assert(socket[i] == b[i - p1.len()]);
                            assert(is_ascii_digit(b[i - p1.len()]));
                        }
                    } else if i < a.len() {
                        assert(socket[i] == a[i]);
                        assert(is_ascii_digit(a[i]));
                    }
                }
            }
        }
    }
}

/// A connect message for an IPv4 socket text is read back as the same mode
/// and address, with nothing left to the search.
pub proof fn lemma_ipv4_connect_message_roundtrip(socket: Seq<char>, mode: Mode)
    requires
        ipv4_socket_text(socket),
    ensures
        valid_utf8(connect_message(socket, mode).drop_first()),
        is_ascii_chars(trim_chars(decode_utf8(connect_message(socket, mode).drop_first()))),
        ascii_address_message_outcome(
            connect_message(socket, mode).len(),
            connect_message(socket, mode),
            trim_chars(decode_utf8(connect_message(socket, mode).drop_first())),
        ) == Ok::<(Mode, Seq<char>), NodeError>((mode, socket)),
{
    lemma_ipv4_socket_text_plain(socket);
    let msg = connect_message(socket, mode);
    assert(msg.drop_first() =~= encode_utf8(socket));
    encode_utf8_valid_utf8(socket);
    encode_utf8_decode_utf8(socket);
}

/// Implemented only for 64-bit memory systems and IPv4.
pub struct Message64 {}

impl Message64 {
    /// The message a node sends every period: the Unix time `timestamp`, in
    /// seconds, and the sender's address, framed.
    pub fn create_random_message(timestamp: i64, address: &str, port: u16) -> (r: Vec<u8>)
        ensures
            r@ == frame(encode_utf8(random_message_text(timestamp as int, address@, port))),
    {
        let text = Self::random_message(timestamp, address, port);
        Self::create_message(text)
    }

    /// The text of the periodic message for a given time.
    pub fn random_message(timestamp: i64, address: &str, port: u16) -> (r: String)
        ensures
            r@ == random_message_text(timestamp as int, address@, port),
    {
        let mut s = String::new();
        push_signed_decimal(&mut s, timestamp);
        push_str(&mut s, " - Message from ");
        push_str(&mut s, address);
        push_char(&mut s, ':');
        push_decimal(&mut s, port as u64);
        assert(s@ =~= random_message_text(timestamp as int, address@, port));
        s
    }

    /// First digit in message is mode: modes [`Mode`].
    pub fn create_connect_message(socket: &str, mode: Mode) -> (r: Vec<u8>)
        ensures
            r@ == connect_message(socket@, mode),
    {
        let bytes = socket.as_bytes();
        let mut r: Vec<u8> = Vec::new();
        r.push(mode.value());
        let mut i: usize = 0;
        while i < bytes.len()
            invariant
                i <= bytes@.len(),
                r@ == seq![mode_value(mode)] + bytes@.subrange(0, i as int),
            decreases bytes@.len() - i,
        {
            r.push(bytes[i]);
            i = i + 1;
            assert(r@ =~= seq![mode_value(mode)] + bytes@.subrange(0, i as int));
        }
        assert(bytes@.subrange(0, i as int) =~= bytes@);
        r
    }

    /// Create message with len at the start to read stuck one.
    pub fn create_message(str_message: String) -> (r: Vec<u8>)
        ensures
            r@ == frame(encode_utf8(str_message@)),
    {
        let message: &[u8] = str_message.as_str().as_bytes();
        let length: [u8; 8] = u64_to_ne_bytes(message.len() as u64);
        proof {
            lemma_native_roundtrip(message@.len() as u64);
        }
        let mut r: Vec<u8> = Vec::new();
        let mut i: usize = 0;
        while i < 8
            invariant
                i <= 8,
                length@.len() == 8,
                r@ == length@.subrange(0, i as int),
            decreases 8 - i,
        {
            r.push(length[i]);
            i = i + 1;
            assert(r@ =~= length@.subrange(0, i as int));
        }
        let mut j: usize = 0;
        while j < message.len()
            invariant
                j <= message@.len(),
                length@.len() == 8,
                r@ == length@ + message@.subrange(0, j as int),
            decreases message@.len() - j,
        {
            r.push(message[j]);
            j = j + 1;
            assert(r@ =~= length@ + message@.subrange(0, j as int));
        }
        assert(message@.subrange(0, j as int) =~= message@);
        r
    }

    /// Read message len and then payload, for every complete frame at the
    /// start of `buf`.  The frames read are removed from `buf`, and their
    /// payloads come back as trimmed text, in order; a frame of length zero,
    /// or one whose payload has not fully arrived, stays in `buf`.
    pub fn read_messages(buf: &mut Vec<u8>) -> (messages: Vec<String>)
        ensures
            final(buf)@ == split_frames(old(buf)@).1,
            messages@.len() == split_frames(old(buf)@).0.len(),
            forall|i: int|
                0 <= i < messages@.len() ==> #[trigger] messages@[i]@ == payload_text(
                    split_frames(old(buf)@).0[i],
                ),
            forall|i: int|
                0 <= i < messages@.len() && valid_utf8(split_frames(old(buf)@).0[i])
                    ==> #[trigger] messages@[i]@ == trim_chars(
                    decode_utf8(split_frames(old(buf)@).0[i]),
                ),
    {
        let ghost whole = buf@;
        let ghost mut done: Seq<Seq<u8>> = seq![];
        let mut messages: Vec<String> = Vec::new();
        let mut offset: usize = 0;
        assert(whole.subrange(0, whole.len() as int) =~= whole);
        assert(done + split_frames(whole).0 =~= split_frames(whole).0);
        loop
            invariant
                buf@ == whole,
                offset <= whole.len(),
                split_frames(whole) == (
                    done + split_frames(whole.subrange(offset as int, whole.len() as int)).0,
                    split_frames(whole.subrange(offset as int, whole.len() as int)).1,
                ),
                messages@.len() == done.len(),
                forall|i: int|
                    0 <= i < messages@.len() ==> #[trigger] messages@[i]@ == payload_text(done[i]),
                forall|i: int|
                    0 <= i < messages@.len() && valid_utf8(done[i]) ==> #[trigger] messages@[i]@
                        == trim_chars(decode_utf8(done[i])),
            ensures
                buf@ == whole,
                offset <= whole.len(),
                split_frames(whole) == (done, whole.subrange(offset as int, whole.len() as int)),
                messages@.len() == done.len(),
                forall|i: int|
                    0 <= i < messages@.len() ==> #[trigger] messages@[i]@ == payload_text(done[i]),
                forall|i: int|
                    0 <= i < messages@.len() && valid_utf8(done[i]) ==> #[trigger] messages@[i]@
                        == trim_chars(decode_utf8(done[i])),
            decreases whole.len() - offset,
        {
            let ghost rest = whole.subrange(offset as int, whole.len() as int);
            if buf.len() - offset < 8 {
                assert(split_frames(rest) == (Seq::<Seq<u8>>::empty(), rest));
                assert(done + Seq::<Seq<u8>>::empty() =~= done);
                break;
            }
            let header: [u8; 8] = [
                buf[offset],
                buf[offset + 1],
                buf[offset + 2],
                buf[offset + 3],
                buf[offset + 4],
                buf[offset + 5],
                buf[offset + 6],
                buf[offset + 7],
            ];
            assert(header@ =~= rest.subrange(0, 8));
            let msg_len: u64 = u64_from_ne_bytes(header);
            let available: usize = buf.len() - offset - 8;
            if msg_len == 0 || (available as u64) < msg_len {
                assert(split_frames(rest) == (Seq::<Seq<u8>>::empty(), rest));
                assert(done + Seq::<Seq<u8>>::empty() =~= done);
                break;
            }
            let len: usize = msg_len as usize;
            let start: usize = offset + 8;
            let end: usize = start + len;
            let payload: &[u8] = slice_subrange(buf.as_slice(), start, end);
            let decoded: String = decode_lossy(payload);
            let message: String = trim_owned(decoded.as_str());
            messages.push(message);
            proof {
                let next = whole.subrange(end as int, whole.len() as int);
                assert(rest.subrange(8 + len, rest.len() as int) =~= next);
                assert(payload@ =~= rest.subrange(8, 8 + len));
                assert(split_frames(rest) == (
                    seq![payload@] + split_frames(next).0,
                    split_frames(next).1,
                ));
                assert(done + (seq![payload@] + split_frames(next).0) =~= done.push(payload@)
                    + split_frames(next).0);
                done = done.push(payload@);
            }
            offset = end;
        }
        let remaining: Vec<u8> = buf.split_off(offset);
        *buf = remaining;
        messages
    }

    /// The mode and socket address that a peer sent in a message of `n` bytes
    /// read into `buf`.  A read of no bytes means the peer closed the
    /// connection; the first byte must name a mode; the rest, decoded and
    /// trimmed, must match [`ADDRESS_PATTERN`] (an address is refused, too,
    /// should the pattern not compile).  All of `buf` after the mode counts,
    /// not only the `n` bytes read.
    pub fn read_socket_address(n: usize, buf: &Vec<u8>) -> (r: Result<(Mode, String), NodeError>)
        requires
            n == 0 || buf@.len() > 0,
        ensures
            address_result_view(r) == socket_address_outcome(n as nat, buf@),
            valid_utf8(buf@.drop_first()) ==> address_result_view(r) == address_message_outcome(
                n as nat,
                buf@,
                trim_chars(decode_utf8(buf@.drop_first())),
            ),
            valid_utf8(buf@.drop_first()) && is_ascii_chars(trim_chars(decode_utf8(buf@.drop_first())))
                ==> address_result_view(r) == ascii_address_message_outcome(
                n as nat,
                buf@,
                trim_chars(decode_utf8(buf@.drop_first())),
            ),
    {
        if n == 0 {
            return Err(NodeError::TcpClosedError);
        }
        let mode = match Mode::from_value(buf[0]) {
            Ok(mode) => mode,
            Err(e) => {
                return Err(e);
            },
        };
        let rest: &[u8] = slice_subrange(buf.as_slice(), 1, buf.len());
        assert(rest@ =~= buf@.drop_first());
        let decoded: String = decode_lossy(rest);
        let message: String = trim_owned(decoded.as_str());
        let matched: Option<bool> = search_pattern(ADDRESS_PATTERN, message.as_str());
        Self::accept_socket_address(mode, message, matched)
    }

    /// Accepts an address text that matched [`ADDRESS_PATTERN`] (`matched`
    /// is what the search gave), and refuses any other as not an IPv4 socket
    /// address.
    pub fn accept_socket_address(mode: Mode, message: String, matched: Option<bool>) -> (r: Result<(Mode, String), NodeError>)
        ensures
            address_result_view(r) == address_outcome(mode, message@, matched),
    {
        match matched {
            Some(true) => Ok((mode, message)),
            _ => Err(NodeError::InvalidIpV4),
        }
    }
}

} // verus!
