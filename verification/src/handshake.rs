//! The handshake that opens every node connection: one line, `HELLO <id>`,
//! checked against the allow-list.

use crate::address::Address;
use crate::config::{address_listed, allows_address, allows_pair, pair_listed, Node};
use crate::text::{
    chars_of, decimal, lemma_decimal_spells, lemma_parse_reads_decimal,
    lemma_tokens_then_space, lemma_tokens_then_word, parse_decimal, parse_u32, spells,
    split_tokens, tokens, words_view,
};
use vstd::prelude::*;
use vstd::utf8::{decode_utf8, valid_utf8};

verus! {

/// Why a connection was turned away.
#[derive(Clone, Copy, Debug, PartialEq, Eq, Structural)]
pub enum Rejection {
    /// No line arrived: the peer closed the connection or the read failed
    /// before a newline, or the line was not UTF-8.
    NoLine,
    /// The line is not two tokens of which the first is `HELLO`.
    Malformed,
    /// The second token is not a number that fits in 32 bits.
    InvalidId,
    /// No entry of the allow-list has the peer's address.
    UnknownAddress,
    /// The allow-list has the peer's address, but not with the id it claims.
    UnlistedPair,
}

/// The byte that ends the handshake line.
pub const NEWLINE: u8 = 0x0A;

/// What became of one attempt to read a single byte from a connection.
#[derive(Clone, Copy, Debug, PartialEq, Eq, Structural)]
pub enum ByteRead {
    /// The byte that was read.
    Byte(u8),
    /// The peer has closed the connection.
    Closed,
    /// The read failed.
    Failed,
}

/// The bytes of a handshake line read so far.
pub struct LineReader {
    bytes: Vec<u8>,
}

/// Where reading the handshake line stands after one more read.
pub enum LineStep {
    /// The line is not complete: read one more byte and feed it to the
    /// reader held here.
    More(LineReader),
    /// Reading is over: with the line, the newline left out, or with nothing
    /// where none arrived. No further byte is to be read for the handshake.
    Done(Option<String>),
}

/// The text that `bytes` encode in UTF-8, if they encode any.
pub open spec fn text_of(bytes: Seq<u8>) -> Option<Seq<char>> {
    if valid_utf8(bytes) {
        Some(decode_utf8(bytes))
    } else {
        None
    }
}

/// The view of a line that may be missing.
pub open spec fn line_view(line: Option<String>) -> Option<Seq<char>> {
    match line {
        Some(text) => Some(text@),
        None => None,
    }
}

/// What one read does to the line read so far: `Err` holds the bytes to go
/// on with, `Ok` the outcome where reading is over.
pub open spec fn line_step(sofar: Seq<u8>, read: ByteRead) -> Result<Option<Seq<char>>, Seq<u8>> {
    match read {
        ByteRead::Byte(b) => if b == NEWLINE {
            Ok(text_of(sofar))
        } else {
            Err(sofar.push(b))
        },
        ByteRead::Closed => Ok(None),
        ByteRead::Failed => Ok(None),
    }
}

/// Where reading stands once each of `reads` has been fed in order, starting
/// from the bytes `sofar`; reads after the one that ends the line are never
/// looked at.
pub open spec fn line_after(sofar: Seq<u8>, reads: Seq<ByteRead>) -> Result<
    Option<Seq<char>>,
    Seq<u8>,
>
    decreases reads.len(),
{
    if reads.len() == 0 {
        Err(sofar)
    } else {
        match line_step(sofar, reads[0]) {
            Ok(line) => Ok(line),
            Err(longer) => line_after(longer, reads.drop_first()),
        }
    }
}

/// The reads that bring `bytes` one by one.
pub open spec fn byte_reads(bytes: Seq<u8>) -> Seq<ByteRead> {
    Seq::new(bytes.len(), |i: int| ByteRead::Byte(bytes[i]))
}

/// Turns bytes into the text they encode.
///
/// Trusted: the body calls std's `String::from_utf8`, which returns the text
/// exactly when the bytes are valid UTF-8, and then holds the characters
/// they encode.
#[verifier::external_body]
fn utf8_text(bytes: Vec<u8>) -> (text: Option<String>)
    ensures
        line_view(text) == text_of(bytes@),
{
    String::from_utf8(bytes).ok()
}

impl LineReader {
    /// The bytes read so far.
    pub closed spec fn view(&self) -> Seq<u8> {
        self.bytes@
    }

    /// A reader that has read nothing yet.
    pub fn new() -> (reader: LineReader)
        ensures
            reader@ == Seq::<u8>::empty(),
    {
        LineReader { bytes: Vec::new() }
    }

    /// Takes in the outcome of reading one byte. A newline ends the line and
    /// is left out of it; any other byte is kept; a closed connection or a
    /// failed read ends the reading without a line.
    pub fn feed(self, read: ByteRead) -> (step: LineStep)
        ensures
            match line_step(self@, read) {
                Ok(line) => step matches LineStep::Done(got) && line_view(got) == line,
                Err(longer) => step matches LineStep::More(reader) && reader@ == longer,
            },
    {
        let mut bytes = self.bytes;
        match read {
            ByteRead::Byte(b) => {
                if b == NEWLINE {
                    LineStep::Done(utf8_text(bytes))
                } else {
                    bytes.push(b);
                    LineStep::More(LineReader { bytes })
                }
            },
            ByteRead::Closed => LineStep::Done(None),
            ByteRead::Failed => LineStep::Done(None),
        }
    }
}

/// The id that a handshake line announces: the line must consist of two
/// tokens, `HELLO` and a number that fits in 32 bits.
pub open spec fn handshake_id(line: Seq<char>) -> Result<u32, Rejection> {
    let parts = tokens(line);
    if parts.len() != 2 || parts[0] != "HELLO"@ {
        Err(Rejection::Malformed)
    } else {
        match parse_u32(parts[1]) {
            Some(id) => Ok(id),
            None => Err(Rejection::InvalidId),
        }
    }
}

/// Reads the node id out of a handshake line.
pub fn parse_handshake(line: &str) -> (id: Result<u32, Rejection>)
    ensures
        id == handshake_id(line@),
{
    let chars = chars_of(line);
    let parts = split_tokens(&chars);
    assert(words_view(parts@).len() == parts@.len());
    if parts.len() != 2 {
        return Err(Rejection::Malformed);
    }
    assert(words_view(parts@)[0] == parts@[0]@);
    assert(words_view(parts@)[1] == parts@[1]@);
    if !spells(&parts[0], "HELLO") {
        return Err(Rejection::Malformed);
    }
    match parse_decimal(&parts[1]) {
        Some(id) => Ok(id),
        None => Err(Rejection::InvalidId),
    }
}

/// Only a line of the two tokens `HELLO` and a 32-bit number passes: any
/// other number of tokens, another first token or another second token is
/// turned away.
pub proof fn lemma_only_hello_lines_pass(line: Seq<char>)
    ensures
        tokens(line).len() != 2 ==> handshake_id(line) == Err::<u32, Rejection>(
            Rejection::Malformed,
        ),
        tokens(line).len() == 2 && tokens(line)[0] != "HELLO"@ ==> handshake_id(line) == Err::<
            u32,
            Rejection,
        >(Rejection::Malformed),
        tokens(line).len() == 2 && tokens(line)[0] == "HELLO"@ && parse_u32(tokens(line)[1])
            is None ==> handshake_id(line) == Err::<u32, Rejection>(Rejection::InvalidId),
        forall|id: u32|
            handshake_id(line) == Ok::<u32, Rejection>(id) <==> tokens(line).len() == 2 && tokens(
                line,
            )[0] == "HELLO"@ && parse_u32(tokens(line)[1]) == Some(id),
{
}

/// The line that a node sends for itself, `HELLO`, one space and its id in
/// base ten, announces that id.
pub proof fn lemma_hello_announces_id(id: u32)
    ensures
        handshake_id("HELLO "@ + decimal(id as nat)) == Ok::<u32, Rejection>(id),
{
    reveal_strlit("HELLO ");
    reveal_strlit("HELLO");
    let hello = "HELLO"@;
    let number = decimal(id as nat);
    lemma_decimal_spells(id as nat);
    lemma_parse_reads_decimal(id);
    assert(Seq::<char>::empty() + hello == hello);
    lemma_tokens_then_word(Seq::empty(), hello);
    assert(tokens(Seq::<char>::empty()) == Seq::<Seq<char>>::empty());
    lemma_tokens_then_space(hello, ' ');
    assert("HELLO "@ == hello.push(' '));
    lemma_tokens_then_word("HELLO "@, number);
    let parts = tokens("HELLO "@ + number);
    assert(parts == Seq::<Seq<char>>::empty().push(hello).push(number));
    assert(parts.len() == 2);
    assert(parts[0] == hello);
    assert(parts[1] == number);
}

/// Feeding a reader the bytes of `bytes`, none of them a newline, and then
/// one more read `end` leaves it where that read leaves a reader that holds
/// all of `bytes`: a newline completes the line, and a closed connection or
/// a failed read ends the reading without one.
pub proof fn lemma_line_after_bytes(sofar: Seq<u8>, bytes: Seq<u8>, end: ByteRead)
    requires
        forall|i: int| 0 <= i < bytes.len() ==> bytes[i] != NEWLINE,
    ensures
        line_after(sofar, byte_reads(bytes).push(end)) == line_step(sofar + bytes, end),
    decreases bytes.len(),
{
    let reads = byte_reads(bytes).push(end);
    if bytes.len() == 0 {
        assert(sofar + bytes == sofar);
        assert(reads[0] == end);
        assert(reads.drop_first() == Seq::<ByteRead>::empty());
        match line_step(sofar, end) {
            Ok(_) => {},
            Err(longer) => {
                assert(line_after(longer, reads.drop_first()) == Err::<
                    Option<Seq<char>>,
                    Seq<u8>,
                >(longer));
            },
        }
    } else {
        let rest = bytes.drop_first();
        assert(reads[0] == ByteRead::Byte(bytes[0]));
        assert(reads.drop_first() == byte_reads(rest).push(end));
        lemma_line_after_bytes(sofar.push(bytes[0]), rest, end);
        assert(sofar.push(bytes[0]) + rest == sofar + bytes);
    }
}

/// A connection without a well-formed handshake line is turned away, from
/// whatever address it comes and whatever the allow-list holds.
pub proof fn lemma_bad_line_rejected(nodes: Seq<Node>, peer: Address, line: Option<Seq<char>>)
    requires
        line matches Some(text) ==> handshake_id(text) is Err,
    ensures
        admission(nodes, peer, line) is Err,
        line is None ==> admission(nodes, peer, line) == Err::<u32, Rejection>(Rejection::NoLine),
        line matches Some(text) ==> admission(nodes, peer, line) == handshake_id(text),
{
}

/// An address that the allow-list does not have is turned away, whatever id
/// the line offers.
pub proof fn lemma_unknown_address_rejected(
    nodes: Seq<Node>,
    peer: Address,
    line: Option<Seq<char>>,
)
    requires
        !address_listed(nodes, peer),
    ensures
        admission(nodes, peer, line) is Err,
        line matches Some(text) && handshake_id(text) is Ok ==> admission(nodes, peer, line)
            == Err::<u32, Rejection>(Rejection::UnknownAddress),
{
}

/// An address that the allow-list has is still turned away when it claims
/// an id that the list does not pair it with.
pub proof fn lemma_foreign_id_rejected(nodes: Seq<Node>, peer: Address, line: Seq<char>, id: u32)
    requires
        address_listed(nodes, peer),
        handshake_id(line) == Ok::<u32, Rejection>(id),
        !pair_listed(nodes, id, peer),
    ensures
        admission(nodes, peer, Some(line)) == Err::<u32, Rejection>(Rejection::UnlistedPair),
{
}

/// A connection is let in as node `id` exactly when its line announces `id`
/// and the allow-list pairs `id` with its address.
pub proof fn lemma_admitted_iff_listed(
    nodes: Seq<Node>,
    peer: Address,
    line: Option<Seq<char>>,
    id: u32,
)
    ensures
        admission(nodes, peer, line) == Ok::<u32, Rejection>(id) <==> (line matches Some(text)
            && handshake_id(text) == Ok::<u32, Rejection>(id) && pair_listed(nodes, id, peer)),
{
    if pair_listed(nodes, id, peer) {
        let i = choose|i: int| 0 <= i < nodes.len() && #[trigger] nodes[i] == (Node { id, ip: peer });
        assert(nodes[i].ip == peer);
    }
}

/// Whether a connection is let in, and as which node. The line comes first:
/// a connection without a well-formed line is turned away whatever its
/// address. Then the peer's address must be on the allow-list under some id,
/// and last under the very id that the line claims.
pub open spec fn admission(nodes: Seq<Node>, peer: Address, line: Option<Seq<char>>) -> Result<
    u32,
    Rejection,
> {
    match line {
        None => Err(Rejection::NoLine),
        Some(text) => match handshake_id(text) {
            Err(reason) => Err(reason),
            Ok(id) => if !address_listed(nodes, peer) {
                Err(Rejection::UnknownAddress)
            } else if !pair_listed(nodes, id, peer) {
                Err(Rejection::UnlistedPair)
            } else {
                Ok(id)
            },
        },
    }
}

/// The view of a borrowed line that may be missing.
pub open spec fn str_view(line: Option<&str>) -> Option<Seq<char>> {
    match line {
        Some(text) => Some(text@),
        None => None,
    }
}

/// Decides whether the connection from `peer` that sent `line` is let in.
pub fn validate(nodes: &Vec<Node>, peer: &Address, line: Option<&str>) -> (verdict: Result<
    u32,
    Rejection,
>)
    ensures
        verdict == admission(nodes@, *peer, str_view(line)),
{
    match line {
        None => Err(Rejection::NoLine),
        Some(text) => match parse_handshake(text) {
            Err(reason) => Err(reason),
            Ok(id) => {
                if !allows_address(nodes, peer) {
                    Err(Rejection::UnknownAddress)
                } else if !allows_pair(nodes, id, peer) {
                    Err(Rejection::UnlistedPair)
                } else {
                    Ok(id)
                }
            },
        },
    }
}

} // verus!
