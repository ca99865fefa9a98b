//! Fixed binary wire format for game-event messages: item spawns, state
//! queries and their responses.
//!
//! Every union is written as one discriminant byte followed by the active
//! case's fields in declared order. Scalars are fixed width and little-endian;
//! a 32-bit float travels as its IEEE-754 bit pattern. There are no length
//! prefixes: a decoder learns each value's size from its discriminants.
use vstd::prelude::*;

pub mod error;
pub mod packets;
pub mod wire;

pub use error::{DecodeError, UnionKind};
pub use packets::{ItemSpawn, SpawnKind, StateQuery, StateQueryResponse};

use error::decimal;
use wire::{lemma_framed, lemma_parse_u8, lemma_window, parse_tag, read_tag, with_int_pos, write_u8};

verus! {

/// The kind of message a packet carries.
#[derive(Clone, Copy, Debug, PartialEq, Eq, Structural)]
pub enum PacketTag {
    ItemSpawn,
    StateQuery,
    StateQueryResponse,
}

impl PacketTag {
    /// The discriminant byte of the kind.
    pub open spec fn code(self) -> u8 {
        match self {
            PacketTag::ItemSpawn => 0,
            PacketTag::StateQuery => 1,
            PacketTag::StateQueryResponse => 2,
        }
    }

    pub open spec fn wire(self) -> Seq<u8> {
        seq![self.code()]
    }

    pub open spec fn parse(s: Seq<u8>, p: int) -> Result<(PacketTag, int), DecodeError> {
        match parse_tag(s, p, 3, UnionKind::PacketTag) {
            Err(e) => Err(e),
            Ok((t, q)) => if t == 0 {
                Ok((PacketTag::ItemSpawn, q))
            } else if t == 1 {
                Ok((PacketTag::StateQuery, q))
            } else {
                Ok((PacketTag::StateQueryResponse, q))
            },
        }
    }

    pub proof fn lemma_parse_at(self, s: Seq<u8>, p: int)
        requires
            0 <= p,
            p + 1 <= s.len(),
            s.subrange(p, p + 1) == self.wire(),
        ensures
            PacketTag::parse(s, p) == Ok::<(PacketTag, int), DecodeError>((self, p + 1)),
    {
        lemma_parse_u8(s, p, self.code());
    }

    /// Decoding the encoding of a tag gives it back, whatever bytes surround
    /// it.
    pub proof fn lemma_round_trip(self, pre: Seq<u8>, post: Seq<u8>)
        ensures
            PacketTag::parse(pre + self.wire() + post, pre.len() as int) == Ok::<
                (PacketTag, int),
                DecodeError,
            >((self, pre.len() + 1int)),
    {
        lemma_framed(pre, self.wire(), post);
        self.lemma_parse_at(pre + self.wire() + post, pre.len() as int);
    }

    pub fn encode(&self, out: &mut Vec<u8>)
        ensures
            final(out)@ == old(out)@ + self.wire(),
    {
        match self {
            PacketTag::ItemSpawn => write_u8(out, 0),
            PacketTag::StateQuery => write_u8(out, 1),
            PacketTag::StateQueryResponse => write_u8(out, 2),
        }
    }

    /// Reads a tag at `pos`; on success also returns the position just after
    /// it.
    pub fn decode(input: &[u8], pos: usize) -> (r: Result<(PacketTag, usize), DecodeError>)
        ensures
            with_int_pos(r) == PacketTag::parse(input@, pos as int),
    {
        match read_tag(input, pos, 3, UnionKind::PacketTag) {
            Err(e) => Err(e),
            Ok((t, q)) => if t == 0 {
                Ok((PacketTag::ItemSpawn, q))
            } else if t == 1 {
                Ok((PacketTag::StateQuery, q))
            } else {
                Ok((PacketTag::StateQueryResponse, q))
            },
        }
    }
}

/// A message: its tag on the wire, then its payload.
#[derive(Clone, Copy, Debug, PartialEq, Eq, Structural)]
pub enum Packet {
    ItemSpawn(ItemSpawn),
    StateQuery(StateQuery),
    StateQueryResponse(StateQueryResponse),
}

impl Packet {
    pub open spec fn tag(self) -> PacketTag {
        match self {
            Packet::ItemSpawn(_) => PacketTag::ItemSpawn,
            Packet::StateQuery(_) => PacketTag::StateQuery,
            Packet::StateQueryResponse(_) => PacketTag::StateQueryResponse,
        }
    }

    pub open spec fn payload_wire(self) -> Seq<u8> {
        match self {
            Packet::ItemSpawn(item_spawn) => item_spawn.wire(),
            Packet::StateQuery(query) => query.wire(),
            Packet::StateQueryResponse(response) => response.wire(),
        }
    }

    /// The tag's byte, then the payload's encoding.
    pub open spec fn wire(self) -> Seq<u8> {
        self.tag().wire() + self.payload_wire()
    }

    pub open spec fn parse(s: Seq<u8>, p: int) -> Result<(Packet, int), DecodeError> {
        match PacketTag::parse(s, p) {
            Err(e) => Err(e),
            Ok((PacketTag::ItemSpawn, q)) => match ItemSpawn::parse(s, q) {
                Ok((v, q1)) => Ok((Packet::ItemSpawn(v), q1)),
                Err(e) => Err(e),
            },
            Ok((PacketTag::StateQuery, q)) => match StateQuery::parse(s, q) {
                Ok((v, q1)) => Ok((Packet::StateQuery(v), q1)),
                Err(e) => Err(e),
            },
            Ok((PacketTag::StateQueryResponse, q)) => match StateQueryResponse::parse(s, q) {
                Ok((v, q1)) => Ok((Packet::StateQueryResponse(v), q1)),
                Err(e) => Err(e),
            },
        }
    }

    /// The encoded size of each case, nested unions included.
    pub open spec fn case_len(self) -> nat {
        match self {
            Packet::ItemSpawn(ItemSpawn { kind: SpawnKind::Player(_), .. }) => 1 + 8 + 1 + 4,
            Packet::ItemSpawn(ItemSpawn { kind: SpawnKind::Location(_, _), .. }) => 1 + 8 + 1 + 4
                + 4,
            Packet::StateQuery(StateQuery::LastSummonFrame) => 1 + 1,
            Packet::StateQuery(StateQuery::IsFighterExist(_)) => 1 + 1 + 4,
            Packet::StateQueryResponse(StateQueryResponse::LastSummonFrame(_)) => 1 + 1 + 4,
            Packet::StateQueryResponse(StateQueryResponse::IsFighterExist(_)) => 1 + 1 + 1,
        }
    }

    pub proof fn lemma_parse_at(self, s: Seq<u8>, p: int)
        requires
            0 <= p,
            p + self.wire().len() <= s.len(),
            s.subrange(p, p + self.wire().len()) == self.wire(),
        ensures
            Packet::parse(s, p) == Ok::<(Packet, int), DecodeError>((self, p + self.wire().len())),
    {
        let w = self.wire();
        let n = w.len() as int;
        let k = self.payload_wire().len() as int;
        lemma_window(s, p, n, 0, 1);
        lemma_window(s, p, n, 1, k);
        assert(w.subrange(0, 1) =~= self.tag().wire());
        assert(w.subrange(1, 1 + k) =~= self.payload_wire());
        self.tag().lemma_parse_at(s, p);
        match self {
            Packet::ItemSpawn(v) => v.lemma_parse_at(s, p + 1),
            Packet::StateQuery(v) => v.lemma_parse_at(s, p + 1),
            Packet::StateQueryResponse(v) => v.lemma_parse_at(s, p + 1),
        }
    }

    /// Decoding the encoding of a packet gives it back, field for field,
    /// whatever bytes surround it; the decoder stops right after it.
    pub proof fn lemma_round_trip(self, pre: Seq<u8>, post: Seq<u8>)
        ensures
            Packet::parse(pre + self.wire() + post, pre.len() as int) == Ok::<
                (Packet, int),
                DecodeError,
            >((self, (pre.len() + self.wire().len()) as int)),
    {
        lemma_framed(pre, self.wire(), post);
        self.lemma_parse_at(pre + self.wire() + post, pre.len() as int);
    }

    /// The encoding starts with the tag byte, not a length, and its size
    /// depends on the case alone.
    pub proof fn lemma_fixed_layout(self)
        ensures
            self.wire()[0] == self.tag().code(),
            self.wire().len() == self.case_len(),
    {
    }

    pub fn encode(&self, out: &mut Vec<u8>)
        ensures
            final(out)@ == old(out)@ + self.wire(),
    {
        match self {
            Packet::ItemSpawn(item_spawn) => {
                PacketTag::ItemSpawn.encode(out);
                item_spawn.encode(out);
            },
            Packet::StateQuery(query) => {
                PacketTag::StateQuery.encode(out);
                query.encode(out);
            },
            Packet::StateQueryResponse(response) => {
                PacketTag::StateQueryResponse.encode(out);
                response.encode(out);
            },
        }
        assert(out@ =~= old(out)@ + self.wire());
    }

    /// Reads a packet at `pos`; on success also returns the position just
    /// after it.
    pub fn decode(input: &[u8], pos: usize) -> (r: Result<(Packet, usize), DecodeError>)
        ensures
            with_int_pos(r) == Packet::parse(input@, pos as int),
    {
        match PacketTag::decode(input, pos) {
            Err(e) => Err(e),
            Ok((PacketTag::ItemSpawn, q)) => match ItemSpawn::decode(input, q) {
                Ok((v, q1)) => Ok((Packet::ItemSpawn(v), q1)),
                Err(e) => Err(e),
            },
            Ok((PacketTag::StateQuery, q)) => match StateQuery::decode(input, q) {
                Ok((v, q1)) => Ok((Packet::StateQuery(v), q1)),
                Err(e) => Err(e),
            },
            Ok((PacketTag::StateQueryResponse, q)) => match StateQueryResponse::decode(input, q) {
                Ok((v, q1)) => Ok((Packet::StateQueryResponse(v), q1)),
                Err(e) => Err(e),
            },
        }
    }
}

/// A byte outside 0..=2 where a packet tag is expected is refused as a
/// packet tag and as a packet, whatever follows it, and the error's message
/// holds the byte in decimal.
pub proof fn lemma_unknown_packet_tag_rejected(s: Seq<u8>, p: int)
    requires
        0 <= p < s.len(),
        s[p] > 2,
    ensures
        PacketTag::parse(s, p) == Err::<(PacketTag, int), DecodeError>(
            (DecodeError::InvalidTag { union_kind: UnionKind::PacketTag, value: s[p] }),
        ),
        Packet::parse(s, p) == Err::<(Packet, int), DecodeError>(
            (DecodeError::InvalidTag { union_kind: UnionKind::PacketTag, value: s[p] }),
        ),
        (DecodeError::InvalidTag { union_kind: UnionKind::PacketTag, value: s[p] }).message_contains(
            decimal(s[p] as nat),
        ),
{
    let e = DecodeError::InvalidTag { union_kind: UnionKind::PacketTag, value: s[p] };
    e.lemma_message_names_value();
}

/// A byte outside 0..=1 where the discriminant of a spawn kind, a query or a
/// response is expected is refused, whatever follows it, and the error's
/// message holds the byte in decimal.
pub proof fn lemma_unknown_payload_tag_rejected(s: Seq<u8>, p: int)
    requires
        0 <= p < s.len(),
        s[p] > 1,
    ensures
        SpawnKind::parse(s, p) == Err::<(SpawnKind, int), DecodeError>(
            (DecodeError::InvalidTag { union_kind: UnionKind::SpawnKind, value: s[p] }),
        ),
        StateQuery::parse(s, p) == Err::<(StateQuery, int), DecodeError>(
            (DecodeError::InvalidTag { union_kind: UnionKind::StateQuery, value: s[p] }),
        ),
        StateQueryResponse::parse(s, p) == Err::<(StateQueryResponse, int), DecodeError>(
            (DecodeError::InvalidTag { union_kind: UnionKind::StateQueryResponse, value: s[p] }),
        ),
        forall|k: UnionKind|
            #[trigger] (DecodeError::InvalidTag { union_kind: k, value: s[p] }).message_contains(
                decimal(s[p] as nat),
            ),
{
    assert forall|k: UnionKind|
        #[trigger] (DecodeError::InvalidTag { union_kind: k, value: s[p] }).message_contains(
            decimal(s[p] as nat),
        ) by {
        (DecodeError::InvalidTag { union_kind: k, value: s[p] }).lemma_message_names_value();
    }
}

} // verus!
