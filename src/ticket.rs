use vstd::prelude::*;
use vstd::string::*;

use crate::error::ShareError;

verus! {

/// Whether the content behind a ticket is one blob or a manifest of files.
#[derive(Debug, Clone, Copy, PartialEq, Eq, Structural)]
pub enum ContentKind {
    Blob,
    Manifest,
}

/// What a receiver needs to fetch content: the sending node's public key,
/// the content identifier and the kind of content.
#[derive(Debug, Clone, Copy, PartialEq, Eq)]
pub struct Ticket {
    pub node: [u8; 32],
    pub hash: [u8; 32],
    pub kind: ContentKind,
}

pub struct TicketView {
    pub node: Seq<u8>,
    pub hash: Seq<u8>,
    pub kind: ContentKind,
}

impl View for Ticket {
    type V = TicketView;

    open spec fn view(&self) -> TicketView {
        TicketView { node: self.node@, hash: self.hash@, kind: self.kind }
    }
}

/// Whether 32 bytes are the public key of a node: a valid Ed25519 point.
pub uninterp spec fn is_node_key(b: Seq<u8>) -> bool;

/// Relies on `iroh_base::PublicKey::from_bytes`, which accepts exactly the
/// bytes of a valid Ed25519 public key.
#[verifier::external_body]
fn node_key_valid(b: &[u8; 32]) -> (r: bool)
    ensures
        r == is_node_key(b@),
{
    iroh_base::PublicKey::from_bytes(b).is_ok()
}

/// Bytes of content identifier and node key, the kind byte, two checksum bytes.
pub const TICKET_BYTES: usize = 67;

/// The text: four letters of prefix, then two hex digits per byte.
pub const TICKET_TEXT_LEN: usize = 138;

pub open spec fn prefix() -> Seq<char> {
    seq!['b', 'l', 'o', 'b']
}

pub open spec fn hex_char(d: u8) -> char {
    seq!['0', '1', '2', '3', '4', '5', '6', '7', '8', '9', 'a', 'b', 'c', 'd', 'e', 'f'][d as int]
}

pub open spec fn hex_value(c: char) -> Option<u8> {
    if c == '0' { Some(0u8) }
    else if c == '1' { Some(1u8) }
    else if c == '2' { Some(2u8) }
    else if c == '3' { Some(3u8) }
    else if c == '4' { Some(4u8) }
    else if c == '5' { Some(5u8) }
    else if c == '6' { Some(6u8) }
    else if c == '7' { Some(7u8) }
    else if c == '8' { Some(8u8) }
    else if c == '9' { Some(9u8) }
    else if c == 'a' { Some(10u8) }
    else if c == 'b' { Some(11u8) }
    else if c == 'c' { Some(12u8) }
    else if c == 'd' { Some(13u8) }
    else if c == 'e' { Some(14u8) }
    else if c == 'f' { Some(15u8) }
    else { None }
}

/// Two lower-case hex digits per byte, high nibble first.
pub open spec fn hex_encode(b: Seq<u8>) -> Seq<char> {
    Seq::new(
        2 * b.len(),
        |i: int|
            if i % 2 == 0 {
                hex_char(b[i / 2] / 16)
            } else {
                hex_char(b[i / 2] % 16)
            },
    )
}

pub open spec fn hex_decode(cs: Seq<char>) -> Seq<u8> {
    Seq::new(
        cs.len() / 2,
        |i: int| (hex_value(cs[2 * i])->0 * 16 + hex_value(cs[2 * i + 1])->0) as u8,
    )
}

pub open spec fn all_hex(cs: Seq<char>) -> bool {
    forall|i: int| 0 <= i < cs.len() ==> hex_value(#[trigger] cs[i]) is Some
}

pub open spec fn byte_sum(b: Seq<u8>) -> nat
    decreases b.len(),
{
    if b.len() == 0 {
        0
    } else {
        byte_sum(b.drop_last()) + b.last() as nat
    }
}

/// The sum of the bytes, as two bytes, high first.
pub open spec fn checksum(b: Seq<u8>) -> Seq<u8> {
    seq![(byte_sum(b) / 256 % 256) as u8, (byte_sum(b) % 256) as u8]
}

pub open spec fn kind_byte(k: ContentKind) -> u8 {
    match k {
        ContentKind::Blob => 0,
        ContentKind::Manifest => 1,
    }
}

pub open spec fn payload(t: TicketView) -> Seq<u8> {
    t.node + t.hash + seq![kind_byte(t.kind)]
}

/// The text of a ticket.
pub open spec fn ticket_text(t: TicketView) -> Seq<char> {
    prefix() + hex_encode(payload(t) + checksum(payload(t)))
}

/// The ticket that a text stands for, if it is well-formed: the prefix, hex
/// digits only, a matching checksum, a known kind and a valid node key.
pub open spec fn parse_ticket(s: Seq<char>) -> Option<TicketView> {
    if s.len() == TICKET_TEXT_LEN && s.take(4) == prefix() && all_hex(s.skip(4)) {
        let b = hex_decode(s.skip(4));
        let p = b.take(65);
        if b.skip(65) == checksum(p) && p[64] <= 1 && is_node_key(p.take(32)) {
            Some(
                TicketView {
                    node: p.take(32),
                    hash: p.subrange(32, 64),
                    kind: if p[64] == 0 {
                        ContentKind::Blob
                    } else {
                        ContentKind::Manifest
                    },
                },
            )
        } else {
            None
        }
    } else {
        None
    }
}

fn hex_str(d: u8) -> (r: &'static str)
    requires
        d < 16,
    ensures
        r@ == seq![hex_char(d)],
{
    proof {
        reveal_strlit("0"); reveal_strlit("1"); reveal_strlit("2"); reveal_strlit("3");
        reveal_strlit("4"); reveal_strlit("5"); reveal_strlit("6"); reveal_strlit("7");
        reveal_strlit("8"); reveal_strlit("9"); reveal_strlit("a"); reveal_strlit("b");
        reveal_strlit("c"); reveal_strlit("d"); reveal_strlit("e"); reveal_strlit("f");
    }
    match d {
        0 => "0", 1 => "1", 2 => "2", 3 => "3", 4 => "4", 5 => "5", 6 => "6", 7 => "7",
        8 => "8", 9 => "9", 10 => "a", 11 => "b", 12 => "c", 13 => "d", 14 => "e", _ => "f",
    }
}

fn hex_val(c: char) -> (r: Option<u8>)
    ensures
        r == hex_value(c),
{
    match c {
        '0' => Some(0), '1' => Some(1), '2' => Some(2), '3' => Some(3), '4' => Some(4),
        '5' => Some(5), '6' => Some(6), '7' => Some(7), '8' => Some(8), '9' => Some(9),
        'a' => Some(10), 'b' => Some(11), 'c' => Some(12), 'd' => Some(13), 'e' => Some(14),
        'f' => Some(15), _ => None,
    }
}

fn ticket_bytes(t: &Ticket) -> (r: Vec<u8>)
    ensures
        r@ == payload(t@) + checksum(payload(t@)),
{
    let mut out: Vec<u8> = Vec::new();
    let mut sum: u32 = 0;
    let mut i: usize = 0;
    while i < 32
        invariant
            i <= 32,
            out@ == t.node@.take(i as int),
            sum == byte_sum(out@),
            sum <= 255 * i,
        decreases 32 - i,
    {
        assert((out@.push(t.node[i as int])).drop_last() =~= out@);
        out.push(t.node[i]);
        sum = sum + t.node[i] as u32;
        assert(out@ =~= t.node@.take(i + 1));
        i += 1;
    }
    let mut i: usize = 0;
    while i < 32
        invariant
            i <= 32,
            out@ == t.node@ + t.hash@.take(i as int),
            sum == byte_sum(out@),
            sum <= 255 * (32 + i),
        decreases 32 - i,
    {
        assert((out@.push(t.hash[i as int])).drop_last() =~= out@);
        out.push(t.hash[i]);
        sum = sum + t.hash[i] as u32;
        assert(out@ =~= t.node@ + t.hash@.take(i + 1));
        i += 1;
    }
    let k: u8 = match t.kind {
        ContentKind::Blob => 0,
        ContentKind::Manifest => 1,
    };
    assert((out@.push(k)).drop_last() =~= out@);
    out.push(k);
    sum = sum + k as u32;
    assert(out@ =~= payload(t@));
    out.push((sum / 256 % 256) as u8);
    out.push((sum % 256) as u8);
    assert(out@ =~= payload(t@) + checksum(payload(t@)));
    out
}

impl Ticket {
    /// A ticket for `hash` served by the node whose public key is `node`;
    /// fails with `MalformedTicket` where `node` is not a valid key.
    pub fn new(node: [u8; 32], hash: [u8; 32], kind: ContentKind) -> (r: Result<Ticket, ShareError>)
        ensures
            r is Ok <==> is_node_key(node@),
            r matches Ok(t) ==> t.node == node && t.hash == hash && t.kind == kind,
            r matches Err(e) ==> e == ShareError::MalformedTicket,
    {
        if node_key_valid(&node) {
            Ok(Ticket { node, hash, kind })
        } else {
            Err(ShareError::MalformedTicket)
        }
    }

    /// The ticket as text: `blob`, then the node key, the identifier, the
    /// kind byte and a checksum, in lower-case hex.
    pub fn encode(&self) -> (r: String)
        ensures
            r@ == ticket_text(self@),
    {
        let bytes = ticket_bytes(self);
        let ghost b = bytes@;
        proof {
            reveal_strlit("blob");
        }
        let mut out = String::from_str("blob");
        let mut i: usize = 0;
        while i < bytes.len()
            invariant
                bytes@ == b,
                i <= b.len(),
                b.len() == TICKET_BYTES,
                out@ == prefix() + hex_encode(b.take(i as int)),
            decreases b.len() - i,
        {
            let x = bytes[i];
            out.append(hex_str(x / 16));
            out.append(hex_str(x % 16));
            assert(out@ =~= prefix() + hex_encode(b.take(i + 1)));
            i += 1;
        }
        assert(b.take(b.len() as int) =~= b);
        out
    }

    /// Reads a ticket back from its text; fails with `MalformedTicket` on
    /// any other text.
    pub fn decode(s: &str) -> (r: Result<Ticket, ShareError>)
        ensures
            match parse_ticket(s@) {
                Some(v) => r matches Ok(t) && t@ == v,
                None => r == Err::<Ticket, ShareError>(ShareError::MalformedTicket),
            },
    {
        let n = s.unicode_len();
        if n != TICKET_TEXT_LEN {
            return Err(ShareError::MalformedTicket);
        }
        proof {
            reveal_strlit("blob");
        }
        let mut i: usize = 0;
        while i < 4
            invariant
                i <= 4,
                n == s@.len() == TICKET_TEXT_LEN,
                forall|j: int| 0 <= j < i ==> s@[j] == prefix()[j],
            decreases 4 - i,
        {
            let c = s.get_char(i);
            let want: char = if i == 0 { 'b' } else if i == 1 { 'l' } else if i == 2 { 'o' } else { 'b' };
            if c != want {
                assert(s@.take(4)[i as int] != prefix()[i as int]);
                return Err(ShareError::MalformedTicket);
            }
            i += 1;
        }
        assert(s@.take(4) =~= prefix());
        let ghost body = s@.skip(4);
        let mut bytes: Vec<u8> = Vec::new();
        let mut k: usize = 0;
        while k < TICKET_BYTES
            invariant
                k <= TICKET_BYTES,
                n == s@.len() == TICKET_TEXT_LEN,
                body == s@.skip(4),
                bytes@.len() == k,
                forall|j: int| 0 <= j < 2 * k ==> hex_value(#[trigger] body[j]) is Some,
                forall|j: int| 0 <= j < k ==> bytes@[j] == hex_decode(body)[j],
            decreases TICKET_BYTES - k,
        {
            let hi = hex_val(s.get_char(4 + 2 * k));
            let lo = hex_val(s.get_char(5 + 2 * k));
            assert(body[2 * k as int] == s@[4 + 2 * k]);
            assert(body[2 * k + 1] == s@[5 + 2 * k]);
            match (hi, lo) {
                (Some(h), Some(l)) => {
                    bytes.push(h * 16 + l);
                },
                _ => {
                    assert(!all_hex(body));
                    return Err(ShareError::MalformedTicket);
                },
            }
            k += 1;
        }
        assert(all_hex(body));
        let ghost b = hex_decode(body);
        assert(bytes@ =~= b);
        let mut sum: u32 = 0;
        let mut i: usize = 0;
        while i < 65
            invariant
                i <= 65,
                bytes@ == b,
                b.len() == TICKET_BYTES,
                sum == byte_sum(b.take(i as int)),
                sum <= 255 * i,
            decreases 65 - i,
        {
            assert(b.take(i + 1).drop_last() =~= b.take(i as int));
            sum = sum + bytes[i] as u32;
            i += 1;
        }
        let ghost p = b.take(65);
        let ghost c = checksum(p);
        if bytes[65] != (sum / 256 % 256) as u8 || bytes[66] != (sum % 256) as u8 {
            assert(b.skip(65)[0] != c[0] || b.skip(65)[1] != c[1]);
            return Err(ShareError::MalformedTicket);
        }
        assert(b.skip(65) =~= c);
        if bytes[64] > 1 {
            return Err(ShareError::MalformedTicket);
        }
        let mut node = [0u8; 32];
        let mut hash = [0u8; 32];
        let mut i: usize = 0;
        while i < 32
            invariant
                i <= 32,
                bytes@ == b,
                b.len() == TICKET_BYTES,
                node@.len() == 32,
                hash@.len() == 32,
                forall|j: int| 0 <= j < i ==> node@[j] == b[j] && hash@[j] == b[32 + j],
            decreases 32 - i,
        {
            node[i] = bytes[i];
            hash[i] = bytes[32 + i];
            i += 1;
        }
        assert(node@ =~= p.take(32));
        assert(hash@ =~= p.subrange(32, 64));
        if !node_key_valid(&node) {
            return Err(ShareError::MalformedTicket);
        }
        let kind = if bytes[64] == 0 {
            ContentKind::Blob
        } else {
            ContentKind::Manifest
        };
        Ok(Ticket { node, hash, kind })
    }
}

proof fn lemma_hex_digit(d: u8)
    requires
        d < 16,
    ensures
        hex_value(hex_char(d)) == Some(d),
{
    let h = seq!['0', '1', '2', '3', '4', '5', '6', '7', '8', '9', 'a', 'b', 'c', 'd', 'e', 'f'];
    assert(hex_char(d) == h[d as int]);
}

proof fn lemma_hex_round_trip(b: Seq<u8>)
    ensures
        all_hex(hex_encode(b)),
        hex_decode(hex_encode(b)) =~= b,
{
    let e = hex_encode(b);
    assert forall|i: int| 0 <= i < e.len() implies hex_value(#[trigger] e[i]) is Some by {
        if i % 2 == 0 {
            lemma_hex_digit(b[i / 2] / 16);
        } else {
            lemma_hex_digit(b[i / 2] % 16);
        }
    }
    assert forall|i: int| 0 <= i < b.len() implies hex_decode(e)[i] == b[i] by {
        assert((2 * i) / 2 == i);
        assert((2 * i + 1) / 2 == i);
        assert((2 * i) % 2 == 0);
        assert((2 * i + 1) % 2 == 1);
        lemma_hex_digit(b[i] / 16);
        lemma_hex_digit(b[i] % 16);
    }
}

/// Decoding the text of a ticket whose node key is valid gives back that
/// ticket.
pub proof fn lemma_ticket_round_trip(t: Ticket)
    requires
        is_node_key(t.node@),
    ensures
        parse_ticket(ticket_text(t@)) == Some(t@),
{
    let v = t@;
    let b = payload(v) + checksum(payload(v));
    let s = ticket_text(v);
    lemma_hex_round_trip(b);
    assert(s.take(4) =~= prefix());
    assert(s.skip(4) =~= hex_encode(b));
    assert(b.take(65) =~= payload(v));
    assert(b.skip(65) =~= checksum(payload(v)));
    assert(payload(v).take(32) =~= v.node);
    assert(payload(v).subrange(32, 64) =~= v.hash);
}

} // verus!
