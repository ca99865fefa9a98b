//! Decoding failures and their human-readable messages.
use vstd::prelude::*;

verus! {

/// The unions of the wire format, each with its own discriminant space.
#[derive(Clone, Copy, Debug, PartialEq, Eq, Structural)]
pub enum UnionKind {
    PacketTag,
    SpawnKind,
    StateQuery,
    StateQueryResponse,
}

/// Why a byte sequence could not be decoded.
#[derive(Clone, Copy, Debug, PartialEq, Eq, Structural)]
pub enum DecodeError {
    /// The source ended before the value was complete.
    UnexpectedEnd,
    /// A discriminant byte names no case of its union.
    InvalidTag { union_kind: UnionKind, value: u8 },
}

/// The character of a decimal digit.
pub open spec fn digit_char(d: nat) -> char {
    seq!['0', '1', '2', '3', '4', '5', '6', '7', '8', '9'][(d % 10) as int]
}

/// Decimal notation of `n`, without leading zeros.
pub open spec fn decimal(n: nat) -> Seq<char>
    decreases n,
{
    if n < 10 {
        seq![digit_char(n)]
    } else {
        decimal(n / 10).push(digit_char(n % 10))
    }
}

pub open spec fn union_name(k: UnionKind) -> Seq<char> {
    match k {
        UnionKind::PacketTag => "PacketTag"@,
        UnionKind::SpawnKind => "SpawnKind"@,
        UnionKind::StateQuery => "StateQuery"@,
        UnionKind::StateQueryResponse => "StateQueryResponse"@,
    }
}

impl DecodeError {
    pub open spec fn spec_message(self) -> Seq<char> {
        match self {
            DecodeError::UnexpectedEnd => "input ended before the value was complete"@,
            DecodeError::InvalidTag { union_kind, value } => union_name(union_kind) + " tag '"@
                + decimal(value as nat) + "' is out of range"@,
        }
    }

    /// The message holds `t` as a contiguous run of characters.
    pub open spec fn message_contains(self, t: Seq<char>) -> bool {
        exists|i: int|
            0 <= i && i + t.len() <= self.spec_message().len() && #[trigger] self.spec_message().subrange(
                i,
                i + t.len(),
            ) == t
    }

    /// The message of a bad discriminant holds the byte in decimal.
    pub proof fn lemma_message_names_value(self)
        requires
            self is InvalidTag,
        ensures
            self.message_contains(decimal(self->value as nat)),
    {
        let m = self.spec_message();
        let head = union_name(self->union_kind) + " tag '"@;
        let d = decimal(self->value as nat);
        let i = head.len() as int;
        assert(m.subrange(i, i + d.len()) =~= d);
    }

    /// A description of the failure; for a bad discriminant it names the
    /// union and the offending byte in decimal.
    pub fn message(&self) -> (r: String)
        ensures
            r@ == self.spec_message(),
    {
        match self {
            DecodeError::UnexpectedEnd => String::from_str("input ended before the value was complete"),
            DecodeError::InvalidTag { union_kind, value } => {
                let mut s = String::from_str(union_name_str(*union_kind));
                s.append(" tag '");
                append_decimal(&mut s, *value);
                s.append("' is out of range");
                s
            },
        }
    }
}

fn union_name_str(k: UnionKind) -> (r: &'static str)
    ensures
        r@ == union_name(k),
{
    match k {
        UnionKind::PacketTag => "PacketTag",
        UnionKind::SpawnKind => "SpawnKind",
        UnionKind::StateQuery => "StateQuery",
        UnionKind::StateQueryResponse => "StateQueryResponse",
    }
}

fn digit_str(d: u8) -> (r: &'static str)
    requires
        d < 10,
    ensures
        r@ == seq![digit_char(d as nat)],
{
    let r = match d {
        0 => "0",
        1 => "1",
        2 => "2",
        3 => "3",
        4 => "4",
        5 => "5",
        6 => "6",
        7 => "7",
        8 => "8",
        _ => "9",
    };
    proof {
        reveal_strlit("0");
        reveal_strlit("1");
        reveal_strlit("2");
        reveal_strlit("3");
        reveal_strlit("4");
        reveal_strlit("5");
        reveal_strlit("6");
        reveal_strlit("7");
        reveal_strlit("8");
        reveal_strlit("9");
    }
    assert(r@ =~= seq![digit_char(d as nat)]);
    r
}

fn append_decimal(s: &mut String, n: u8)
    ensures
        final(s)@ == old(s)@ + decimal(n as nat),
{
    let ghost n0 = n as nat;
    if n >= 100 {
        s.append(digit_str(n / 100));
        s.append(digit_str((n / 10) % 10));
        s.append(digit_str(n % 10));
        assert(decimal(n0) =~= seq![digit_char(n0 / 100), digit_char((n0 / 10) % 10), digit_char(n0 % 10)]) by {
            assert(decimal(n0 / 100) == seq![digit_char(n0 / 100)]);
            assert(n0 / 10 / 10 == n0 / 100);
            assert(decimal(n0 / 10) == decimal(n0 / 100).push(digit_char((n0 / 10) % 10)));
        }
    } else if n >= 10 {
        s.append(digit_str(n / 10));
        s.append(digit_str(n % 10));
        assert(decimal(n0) =~= seq![digit_char(n0 / 10), digit_char(n0 % 10)]) by {
            assert(decimal(n0 / 10) == seq![digit_char(n0 / 10)]);
        }
    } else {
        s.append(digit_str(n));
    }
    assert(s@ =~= old(s)@ + decimal(n0));
}

} // verus!
