use sentinel::address::Address;
use sentinel::config::{allows_address, allows_pair, Config, Node, Root};
use sentinel::handshake::{
    parse_handshake, validate, ByteRead, LineReader, LineStep, Rejection, NEWLINE,
};

const A: Address = Address::V4(0x0A00_0001);
const B: Address = Address::V4(0x0A00_0002);
const C: Address = Address::V4(0x0A00_0003);

fn allow_list() -> Vec<Node> {
    vec![Node { id: 1, ip: A }, Node { id: 2, ip: B }]
}

fn read_line(reads: &[ByteRead]) -> (Option<String>, usize) {
    let mut reader = LineReader::new();
    let mut used = 0;
    for read in reads {
        used += 1;
        match reader.feed(*read) {
            LineStep::More(next) => reader = next,
            LineStep::Done(line) => return (line, used),
        }
    }
    panic!("the reads ended before the line did");
}

fn bytes(data: &[u8]) -> Vec<ByteRead> {
    data.iter().map(|b| ByteRead::Byte(*b)).collect()
}

#[test]
fn handshake_line_gives_the_id() {
    assert_eq!(parse_handshake("HELLO 1"), Ok(1));
    assert_eq!(parse_handshake("HELLO 0"), Ok(0));
    assert_eq!(parse_handshake("HELLO 4294967295"), Ok(u32::MAX));
    assert_eq!(parse_handshake("HELLO 42\r"), Ok(42));
    assert_eq!(parse_handshake("  HELLO \t 42  "), Ok(42));
    assert_eq!(parse_handshake("HELLO 007"), Ok(7));
    assert_eq!(parse_handshake("HELLO +7"), Ok(7));
}

#[test]
fn handshake_line_as_a_node_writes_it() {
    for id in [0u32, 1, 2, 9, 10, 99, 100, 65535, 65536, 1_000_000_007, u32::MAX - 1, u32::MAX] {
        let line = format!("HELLO {}", id);
        assert_eq!(parse_handshake(&line), Ok(id));
    }
}

#[test]
fn wrong_token_count_is_malformed() {
    assert_eq!(parse_handshake(""), Err(Rejection::Malformed));
    assert_eq!(parse_handshake("   "), Err(Rejection::Malformed));
    assert_eq!(parse_handshake("HELLO"), Err(Rejection::Malformed));
    assert_eq!(parse_handshake("HELLO 1 2"), Err(Rejection::Malformed));
    assert_eq!(parse_handshake("HELLO 1 extra"), Err(Rejection::Malformed));
    assert_eq!(parse_handshake("1"), Err(Rejection::Malformed));
    assert_eq!(parse_handshake("HELLO1"), Err(Rejection::Malformed));
}

#[test]
fn wrong_greeting_is_malformed() {
    assert_eq!(parse_handshake("hello 1"), Err(Rejection::Malformed));
    assert_eq!(parse_handshake("HELO 1"), Err(Rejection::Malformed));
    assert_eq!(parse_handshake("HELLOO 1"), Err(Rejection::Malformed));
    assert_eq!(parse_handshake("1 HELLO"), Err(Rejection::Malformed));
    assert_eq!(parse_handshake("GET /"), Err(Rejection::Malformed));
}

#[test]
fn id_that_is_no_32_bit_number_is_invalid() {
    assert_eq!(parse_handshake("HELLO abc"), Err(Rejection::InvalidId));
    assert_eq!(parse_handshake("HELLO -1"), Err(Rejection::InvalidId));
    assert_eq!(parse_handshake("HELLO 1.5"), Err(Rejection::InvalidId));
    assert_eq!(parse_handshake("HELLO 4294967296"), Err(Rejection::InvalidId));
    assert_eq!(parse_handshake("HELLO 12x"), Err(Rejection::InvalidId));
    assert_eq!(parse_handshake("HELLO +"), Err(Rejection::InvalidId));
    assert_eq!(parse_handshake("HELLO HELLO"), Err(Rejection::InvalidId));
}

#[test]
fn line_reader_stops_at_the_newline() {
    let (line, used) = read_line(&bytes(b"HELLO 7\nfollowing data"));
    assert_eq!(line, Some("HELLO 7".to_string()));
    assert_eq!(used, 8);
}

#[test]
fn line_reader_takes_an_empty_line() {
    let (line, used) = read_line(&bytes(b"\nHELLO 7\n"));
    assert_eq!(line, Some(String::new()));
    assert_eq!(used, 1);
}

#[test]
fn line_reader_decodes_utf8() {
    let (line, _) = read_line(&bytes("HELLO — ünï\n".as_bytes()));
    assert_eq!(line, Some("HELLO — ünï".to_string()));
}

#[test]
fn line_reader_gives_no_line_for_bytes_that_are_not_utf8() {
    let (line, used) = read_line(&bytes(&[b'H', 0xFF, 0xFE, NEWLINE, b'x']));
    assert_eq!(line, None);
    assert_eq!(used, 4);
    let (line, _) = read_line(&bytes(&[0xC3, NEWLINE]));
    assert_eq!(line, None);
}

#[test]
fn line_reader_gives_no_line_when_the_peer_closes_first() {
    let mut reads = bytes(b"HELLO 7");
    reads.push(ByteRead::Closed);
    reads.push(ByteRead::Byte(NEWLINE));
    let (line, used) = read_line(&reads);
    assert_eq!(line, None);
    assert_eq!(used, 8);
    assert_eq!(read_line(&[ByteRead::Closed]), (None, 1));
}

#[test]
fn line_reader_gives_no_line_when_a_read_fails() {
    let mut reads = bytes(b"HEL");
    reads.push(ByteRead::Failed);
    let (line, used) = read_line(&reads);
    assert_eq!(line, None);
    assert_eq!(used, 4);
}

#[test]
fn allow_list_lookups() {
    let nodes = allow_list();
    assert!(allows_address(&nodes, &A));
    assert!(allows_address(&nodes, &B));
    assert!(!allows_address(&nodes, &C));
    assert!(!allows_address(&Vec::new(), &A));
    assert!(allows_pair(&nodes, 1, &A));
    assert!(allows_pair(&nodes, 2, &B));
    assert!(!allows_pair(&nodes, 2, &A));
    assert!(!allows_pair(&nodes, 1, &B));
    assert!(!allows_pair(&nodes, 3, &A));
    assert!(!allows_pair(&nodes, 1, &C));
}

#[test]
fn addresses_of_different_families_differ() {
    let nodes = vec![Node { id: 1, ip: Address::V4(1) }, Node { id: 2, ip: Address::V6(2) }];
    assert!(allows_address(&nodes, &Address::V4(1)));
    assert!(!allows_address(&nodes, &Address::V6(1)));
    assert!(allows_address(&nodes, &Address::V6(2)));
    assert!(!allows_address(&nodes, &Address::V4(2)));
    assert!(!allows_pair(&nodes, 1, &Address::V6(1)));
}

#[test]
fn config_answers_for_its_allow_list() {
    let config = Config { root: Root { ip: Address::V4(0x7F00_0001), port: 19090 }, nodes: allow_list() };
    assert!(config.allows_address(&A));
    assert!(!config.allows_address(&C));
    assert!(config.allows_pair(1, &A));
    assert!(!config.allows_pair(1, &B));
    assert_eq!(config.root.port, 19090);
}

#[test]
fn listed_pair_is_let_in() {
    let nodes = allow_list();
    assert_eq!(validate(&nodes, &A, Some("HELLO 1")), Ok(1));
    assert_eq!(validate(&nodes, &B, Some("HELLO 2")), Ok(2));
}

#[test]
fn unknown_address_is_rejected_whatever_the_id() {
    let nodes = allow_list();
    assert_eq!(validate(&nodes, &C, Some("HELLO 1")), Err(Rejection::UnknownAddress));
    assert_eq!(validate(&nodes, &C, Some("HELLO 2")), Err(Rejection::UnknownAddress));
    assert_eq!(validate(&nodes, &C, Some("HELLO 3")), Err(Rejection::UnknownAddress));
    assert_eq!(validate(&Vec::new(), &A, Some("HELLO 1")), Err(Rejection::UnknownAddress));
}

#[test]
fn known_address_with_a_foreign_id_is_rejected() {
    let nodes = allow_list();
    assert_eq!(validate(&nodes, &A, Some("HELLO 2")), Err(Rejection::UnlistedPair));
    assert_eq!(validate(&nodes, &B, Some("HELLO 1")), Err(Rejection::UnlistedPair));
    assert_eq!(validate(&nodes, &A, Some("HELLO 99")), Err(Rejection::UnlistedPair));
}

#[test]
fn bad_line_is_rejected_before_the_address_is_looked_at() {
    let nodes = allow_list();
    assert_eq!(validate(&nodes, &A, None), Err(Rejection::NoLine));
    assert_eq!(validate(&nodes, &C, None), Err(Rejection::NoLine));
    assert_eq!(validate(&nodes, &A, Some("HELLO")), Err(Rejection::Malformed));
    assert_eq!(validate(&nodes, &C, Some("HELLO")), Err(Rejection::Malformed));
    assert_eq!(validate(&nodes, &A, Some("HELLO one")), Err(Rejection::InvalidId));
    assert_eq!(validate(&nodes, &C, Some("HELLO one")), Err(Rejection::InvalidId));
}
