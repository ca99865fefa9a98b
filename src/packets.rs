//! The payloads carried by packets: an item spawn with its nested spawn
//! location, and the state query / response pair.
use vstd::prelude::*;

use crate::error::{DecodeError, UnionKind};
use crate::wire::{
    bool_byte, le_i32, le_u32, le_u64, lemma_framed, lemma_window, lemma_parse_bool, lemma_parse_i32,
    lemma_parse_u32, lemma_parse_u64, lemma_parse_u8, parse_bool, parse_i32, parse_tag, parse_u32,
    parse_u64, read_bool, read_i32, read_tag, read_u32, read_u64, with_int_pos, write_bool,
    write_i32, write_u32, write_u64, write_u8,
};

verus! {

/// Where an item appears: at a player (by index), or at a location whose
/// coordinates are kept as the IEEE-754 bit patterns of two 32-bit floats.
#[derive(Clone, Copy, Debug, PartialEq, Eq, Structural)]
pub enum SpawnKind {
    Player(i32),
    Location(u32, u32),
}

impl SpawnKind {
    /// Discriminant 0, then the index; or discriminant 1, then x and y.
    pub open spec fn wire(self) -> Seq<u8> {
        match self {
            SpawnKind::Player(idx) => seq![0u8] + le_i32(idx),
            SpawnKind::Location(x, y) => seq![1u8] + le_u32(x) + le_u32(y),
        }
    }

    pub open spec fn parse(s: Seq<u8>, p: int) -> Result<(SpawnKind, int), DecodeError> {
        match parse_tag(s, p, 2, UnionKind::SpawnKind) {
            Err(e) => Err(e),
            Ok((t, q)) => if t == 0 {
                match parse_i32(s, q) {
                    Ok((idx, q1)) => Ok((SpawnKind::Player(idx), q1)),
                    Err(e) => Err(e),
                }
            } else {
                match parse_u32(s, q) {
                    Err(e) => Err(e),
                    Ok((x, q1)) => match parse_u32(s, q1) {
                        Ok((y, q2)) => Ok((SpawnKind::Location(x, y), q2)),
                        Err(e) => Err(e),
                    },
                }
            },
        }
    }

    pub proof fn lemma_parse_at(self, s: Seq<u8>, p: int)
        requires
            0 <= p,
            p + self.wire().len() <= s.len(),
            s.subrange(p, p + self.wire().len()) == self.wire(),
        ensures
            SpawnKind::parse(s, p) == Ok::<(SpawnKind, int), DecodeError>(
                (self, p + self.wire().len()),
            ),
    {
        let w = self.wire();
        let n = w.len() as int;
        lemma_window(s, p, n, 0, 1);
        lemma_window(s, p, n, 1, 4);
        match self {
            SpawnKind::Player(idx) => {
                assert(w.subrange(0, 1) =~= seq![0u8]);
                assert(w.subrange(1, 5) =~= le_i32(idx));
                lemma_parse_u8(s, p, 0);
                lemma_parse_i32(s, p + 1, idx);
            },
            SpawnKind::Location(x, y) => {
                lemma_window(s, p, n, 5, 4);
                assert(w.subrange(0, 1) =~= seq![1u8]);
                assert(w.subrange(1, 5) =~= le_u32(x));
                assert(w.subrange(5, 9) =~= le_u32(y));
                lemma_parse_u8(s, p, 1);
                lemma_parse_u32(s, p + 1, x);
                lemma_parse_u32(s, p + 5, y);
            },
        }
    }

    /// Decoding the encoding of a spawn kind gives it back, whatever bytes
    /// surround it.
    pub proof fn lemma_round_trip(self, pre: Seq<u8>, post: Seq<u8>)
        ensures
            SpawnKind::parse(pre + self.wire() + post, pre.len() as int) == Ok::<
                (SpawnKind, int),
                DecodeError,
            >((self, (pre.len() + self.wire().len()) as int)),
    {
        lemma_framed(pre, self.wire(), post);
        self.lemma_parse_at(pre + self.wire() + post, pre.len() as int);
    }

    pub fn encode(&self, out: &mut Vec<u8>)
        ensures
            final(out)@ == old(out)@ + self.wire(),
    {
        match self {
            SpawnKind::Player(idx) => {
                write_u8(out, 0);
                write_i32(out, *idx);
            },
            SpawnKind::Location(x, y) => {
                write_u8(out, 1);
                write_u32(out, *x);
                write_u32(out, *y);
            },
        }
        assert(out@ =~= old(out)@ + self.wire());
    }

    /// Reads a spawn kind at `pos`; on success also returns the position
    /// just after it.
    pub fn decode(input: &[u8], pos: usize) -> (r: Result<(SpawnKind, usize), DecodeError>)
        ensures
            with_int_pos(r) == SpawnKind::parse(input@, pos as int),
    {
        let (t, q) = match read_tag(input, pos, 2, UnionKind::SpawnKind) {
            Ok(v) => v,
            Err(e) => return Err(e),
        };
        if t == 0 {
            match read_i32(input, q) {
                Ok((idx, q1)) => Ok((SpawnKind::Player(idx), q1)),
                Err(e) => Err(e),
            }
        } else {
            let (x, q1) = match read_u32(input, q) {
                Ok(v) => v,
                Err(e) => return Err(e),
            };
            match read_u32(input, q1) {
                Ok((y, q2)) => Ok((SpawnKind::Location(x, y), q2)),
                Err(e) => Err(e),
            }
        }
    }
}

/// An item of kind `item_kind_hash` appears where `kind` says.
#[derive(Clone, Copy, Debug, PartialEq, Eq, Structural)]
pub struct ItemSpawn {
    pub item_kind_hash: u64,
    pub kind: SpawnKind,
}

impl ItemSpawn {
    /// The hash, then the spawn kind.
    pub open spec fn wire(self) -> Seq<u8> {
        le_u64(self.item_kind_hash) + self.kind.wire()
    }

    pub open spec fn parse(s: Seq<u8>, p: int) -> Result<(ItemSpawn, int), DecodeError> {
        match parse_u64(s, p) {
            Err(e) => Err(e),
            Ok((item_kind_hash, q)) => match SpawnKind::parse(s, q) {
                Ok((kind, q1)) => Ok((ItemSpawn { item_kind_hash, kind }, q1)),
                Err(e) => Err(e),
            },
        }
    }

    pub proof fn lemma_parse_at(self, s: Seq<u8>, p: int)
        requires
            0 <= p,
            p + self.wire().len() <= s.len(),
            s.subrange(p, p + self.wire().len()) == self.wire(),
        ensures
            ItemSpawn::parse(s, p) == Ok::<(ItemSpawn, int), DecodeError>(
                (self, p + self.wire().len()),
            ),
    {
        let w = self.wire();
        let n = w.len() as int;
        let k = self.kind.wire().len() as int;
        lemma_window(s, p, n, 0, 8);
        lemma_window(s, p, n, 8, k);
        assert(w.subrange(0, 8) =~= le_u64(self.item_kind_hash));
        assert(w.subrange(8, 8 + k) =~= self.kind.wire());
        lemma_parse_u64(s, p, self.item_kind_hash);
        self.kind.lemma_parse_at(s, p + 8);
    }

    /// Decoding the encoding of an item spawn gives it back, whatever bytes
    /// surround it.
    pub proof fn lemma_round_trip(self, pre: Seq<u8>, post: Seq<u8>)
        ensures
            ItemSpawn::parse(pre + self.wire() + post, pre.len() as int) == Ok::<
                (ItemSpawn, int),
                DecodeError,
            >((self, (pre.len() + self.wire().len()) as int)),
    {
        lemma_framed(pre, self.wire(), post);
        self.lemma_parse_at(pre + self.wire() + post, pre.len() as int);
    }

    pub fn encode(&self, out: &mut Vec<u8>)
        ensures
            final(out)@ == old(out)@ + self.wire(),
    {
        write_u64(out, self.item_kind_hash);
        self.kind.encode(out);
        assert(out@ =~= old(out)@ + self.wire());
    }

    /// Reads an item spawn at `pos`; on success also returns the position
    /// just after it.
    pub fn decode(input: &[u8], pos: usize) -> (r: Result<(ItemSpawn, usize), DecodeError>)
        ensures
            with_int_pos(r) == ItemSpawn::parse(input@, pos as int),
    {
        let (item_kind_hash, q) = match read_u64(input, pos) {
            Ok(v) => v,
            Err(e) => return Err(e),
        };
        match SpawnKind::decode(input, q) {
            Ok((kind, q1)) => Ok((ItemSpawn { item_kind_hash, kind }, q1)),
            Err(e) => Err(e),
        }
    }
}

/// A question about the game state.
#[derive(Clone, Copy, Debug, PartialEq, Eq, Structural)]
pub enum StateQuery {
    LastSummonFrame,
    IsFighterExist(i32),
}

impl StateQuery {
    /// Discriminant 0 alone; or discriminant 1, then the fighter index.
    pub open spec fn wire(self) -> Seq<u8> {
        match self {
            StateQuery::LastSummonFrame => seq![0u8],
            StateQuery::IsFighterExist(idx) => seq![1u8] + le_i32(idx),
        }
    }

    pub open spec fn parse(s: Seq<u8>, p: int) -> Result<(StateQuery, int), DecodeError> {
        match parse_tag(s, p, 2, UnionKind::StateQuery) {
            Err(e) => Err(e),
            Ok((t, q)) => if t == 0 {
                Ok((StateQuery::LastSummonFrame, q))
            } else {
                match parse_i32(s, q) {
                    Ok((idx, q1)) => Ok((StateQuery::IsFighterExist(idx), q1)),
                    Err(e) => Err(e),
                }
            },
        }
    }

    pub proof fn lemma_parse_at(self, s: Seq<u8>, p: int)
        requires
            0 <= p,
            p + self.wire().len() <= s.len(),
            s.subrange(p, p + self.wire().len()) == self.wire(),
        ensures
            StateQuery::parse(s, p) == Ok::<(StateQuery, int), DecodeError>(
                (self, p + self.wire().len()),
            ),
    {
        let w = self.wire();
        let n = w.len() as int;
        lemma_window(s, p, n, 0, 1);
        match self {
            StateQuery::LastSummonFrame => {
                assert(w.subrange(0, 1) =~= seq![0u8]);
                lemma_parse_u8(s, p, 0);
            },
            StateQuery::IsFighterExist(idx) => {
                lemma_window(s, p, n, 1, 4);
                assert(w.subrange(0, 1) =~= seq![1u8]);
                assert(w.subrange(1, 5) =~= le_i32(idx));
                lemma_parse_u8(s, p, 1);
                lemma_parse_i32(s, p + 1, idx);
            },
        }
    }

    /// Decoding the encoding of a query gives it back, whatever bytes
    /// surround it.
    pub proof fn lemma_round_trip(self, pre: Seq<u8>, post: Seq<u8>)
        ensures
            StateQuery::parse(pre + self.wire() + post, pre.len() as int) == Ok::<
                (StateQuery, int),
                DecodeError,
            >((self, (pre.len() + self.wire().len()) as int)),
    {
        lemma_framed(pre, self.wire(), post);
        self.lemma_parse_at(pre + self.wire() + post, pre.len() as int);
    }

    pub fn encode(&self, out: &mut Vec<u8>)
        ensures
            final(out)@ == old(out)@ + self.wire(),
    {
        match self {
            StateQuery::LastSummonFrame => {
                write_u8(out, 0);
            },
            StateQuery::IsFighterExist(idx) => {
                write_u8(out, 1);
                write_i32(out, *idx);
            },
        }
        assert(out@ =~= old(out)@ + self.wire());
    }

    /// Reads a query at `pos`; on success also returns the position just
    /// after it.
    pub fn decode(input: &[u8], pos: usize) -> (r: Result<(StateQuery, usize), DecodeError>)
        ensures
            with_int_pos(r) == StateQuery::parse(input@, pos as int),
    {
        let (t, q) = match read_tag(input, pos, 2, UnionKind::StateQuery) {
            Ok(v) => v,
            Err(e) => return Err(e),
        };
        if t == 0 {
            Ok((StateQuery::LastSummonFrame, q))
        } else {
            match read_i32(input, q) {
                Ok((idx, q1)) => Ok((StateQuery::IsFighterExist(idx), q1)),
                Err(e) => Err(e),
            }
        }
    }
}

/// The answer to a `StateQuery`: the frame of the last summon, or whether
/// the fighter exists.
#[derive(Clone, Copy, Debug, PartialEq, Eq, Structural)]
pub enum StateQueryResponse {
    LastSummonFrame(u32),
    IsFighterExist(bool),
}

impl StateQueryResponse {
    /// Discriminant 0, then the frame; or discriminant 1, then the flag.
    pub open spec fn wire(self) -> Seq<u8> {
        match self {
            StateQueryResponse::LastSummonFrame(frame) => seq![0u8] + le_u32(frame),
            StateQueryResponse::IsFighterExist(exists) => seq![1u8, bool_byte(exists)],
        }
    }

    pub open spec fn parse(s: Seq<u8>, p: int) -> Result<(StateQueryResponse, int), DecodeError> {
        match parse_tag(s, p, 2, UnionKind::StateQueryResponse) {
            Err(e) => Err(e),
            Ok((t, q)) => if t == 0 {
                match parse_u32(s, q) {
                    Ok((frame, q1)) => Ok((StateQueryResponse::LastSummonFrame(frame), q1)),
                    Err(e) => Err(e),
                }
            } else {
                match parse_bool(s, q) {
                    Ok((exists, q1)) => Ok((StateQueryResponse::IsFighterExist(exists), q1)),
                    Err(e) => Err(e),
                }
            },
        }
    }

    pub proof fn lemma_parse_at(self, s: Seq<u8>, p: int)
        requires
            0 <= p,
            p + self.wire().len() <= s.len(),
            s.subrange(p, p + self.wire().len()) == self.wire(),
        ensures
            StateQueryResponse::parse(s, p) == Ok::<(StateQueryResponse, int), DecodeError>(
                (self, p + self.wire().len()),
            ),
    {
        let w = self.wire();
        let n = w.len() as int;
        lemma_window(s, p, n, 0, 1);
        match self {
            StateQueryResponse::LastSummonFrame(frame) => {
                lemma_window(s, p, n, 1, 4);
                assert(w.subrange(0, 1) =~= seq![0u8]);
                assert(w.subrange(1, 5) =~= le_u32(frame));
                lemma_parse_u8(s, p, 0);
                lemma_parse_u32(s, p + 1, frame);
            },
            StateQueryResponse::IsFighterExist(exists) => {
                lemma_window(s, p, n, 1, 1);
                assert(w.subrange(0, 1) =~= seq![1u8]);
                assert(w.subrange(1, 2) =~= seq![bool_byte(exists)]);
                lemma_parse_u8(s, p, 1);
                lemma_parse_bool(s, p + 1, exists);
            },
        }
    }

    /// Decoding the encoding of a response gives it back, whatever bytes
    /// surround it.
    pub proof fn lemma_round_trip(self, pre: Seq<u8>, post: Seq<u8>)
        ensures
            StateQueryResponse::parse(pre + self.wire() + post, pre.len() as int) == Ok::<
                (StateQueryResponse, int),
                DecodeError,
            >((self, (pre.len() + self.wire().len()) as int)),
    {
        lemma_framed(pre, self.wire(), post);
        self.lemma_parse_at(pre + self.wire() + post, pre.len() as int);
    }

    pub fn encode(&self, out: &mut Vec<u8>)
        ensures
            final(out)@ == old(out)@ + self.wire(),
    {
        match self {
            StateQueryResponse::LastSummonFrame(frame) => {
                write_u8(out, 0);
                write_u32(out, *frame);
            },
            StateQueryResponse::IsFighterExist(exists) => {
                write_u8(out, 1);
                write_bool(out, *exists);
            },
        }
        assert(out@ =~= old(out)@ + self.wire());
    }

    /// Reads a response at `pos`; on success also returns the position just
    /// after it.
    pub fn decode(input: &[u8], pos: usize) -> (r: Result<(StateQueryResponse, usize), DecodeError>)
        ensures
            with_int_pos(r) == StateQueryResponse::parse(input@, pos as int),
    {
        let (t, q) = match read_tag(input, pos, 2, UnionKind::StateQueryResponse) {
            Ok(v) => v,
            Err(e) => return Err(e),
        };
        if t == 0 {
            match read_u32(input, q) {
                Ok((frame, q1)) => Ok((StateQueryResponse::LastSummonFrame(frame), q1)),
                Err(e) => Err(e),
            }
        } else {
            match read_bool(input, q) {
                Ok((exists, q1)) => Ok((StateQueryResponse::IsFighterExist(exists), q1)),
                Err(e) => Err(e),
            }
        }
    }
}

} // verus!
