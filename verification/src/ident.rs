use crate::text::{
    all_dec_digits, dec_str, dec_val, dec_value, digit_char, is_dec_digit,
    lemma_dec_str_digits, lemma_dec_value_prefix_le, push_char, push_dec,
};
use vstd::prelude::*;
use vstd::string::StrSliceExecFns;

verus! {

/// A typed reference to one participant of the cluster: a client or a
/// node, each carrying a numeric index.
#[derive(Clone, Copy, Debug, PartialEq, Eq, Structural)]
pub enum EntityId {
    Client(usize),
    Node(usize),
}

/// Why an identifier string was rejected.
#[derive(Clone, Copy, Debug, PartialEq, Eq, Structural)]
pub enum ParseError {
    /// Shorter than a prefix letter plus one digit.
    TooShort,
    /// The first character is neither `c` nor `n`.
    UnknownPrefix,
    /// The characters after the prefix are not digits, or denote a number
    /// too large for an index.
    InvalidIndex,
}

/// The numeric index carried by an identifier.
pub open spec fn spec_index(id: EntityId) -> nat {
    match id {
        EntityId::Client(i) => i as nat,
        EntityId::Node(i) => i as nat,
    }
}

/// The prefix letter of an identifier's text form.
pub open spec fn prefix_char(id: EntityId) -> char {
    match id {
        EntityId::Client(_) => 'c',
        EntityId::Node(_) => 'n',
    }
}

/// The canonical text of an identifier: prefix letter, then the decimal index.
pub open spec fn spec_format(id: EntityId) -> Seq<char> {
    seq![prefix_char(id)] + dec_str(spec_index(id))
}

/// What parsing an identifier string yields: the string must be at least
/// two characters, everything after the first must be a decimal number
/// that fits an index, and the first must be `c` or `n`.  The number is
/// examined before the prefix, so a bad prefix beside a bad number is
/// reported as the bad number.
pub open spec fn spec_parse(s: Seq<char>) -> Result<EntityId, ParseError> {
    if s.len() < 2 {
        Err(ParseError::TooShort)
    } else {
        let digits = s.subrange(1, s.len() as int);
        if !all_dec_digits(digits) || dec_value(digits) > usize::MAX as nat {
            Err(ParseError::InvalidIndex)
        } else if s[0] == 'c' {
            Ok(EntityId::Client(dec_value(digits) as usize))
        } else if s[0] == 'n' {
            Ok(EntityId::Node(dec_value(digits) as usize))
        } else {
            Err(ParseError::UnknownPrefix)
        }
    }
}

impl EntityId {
    /// The index as executable code.
    pub fn index(&self) -> (r: usize)
        ensures
            r as nat == spec_index(*self),
    {
        match self {
            EntityId::Client(i) => *i,
            EntityId::Node(i) => *i,
        }
    }

    /// Formats the identifier as its canonical text.
    pub fn format(&self) -> (r: String)
        ensures
            r@ == spec_format(*self),
    {
        let mut out = String::new();
        match self {
            EntityId::Client(_) => push_char(&mut out, 'c'),
            EntityId::Node(_) => push_char(&mut out, 'n'),
        }
        let i = self.index();
        push_dec(&mut out, i as u64);
        proof {
            assert(Seq::<char>::empty().push(prefix_char(*self)) =~= seq![prefix_char(*self)]);
        }
        out
    }

    /// Parses an identifier from text; exact inverse of `format` on
    /// every identifier, and rejects everything else with the fitting error.
    pub fn parse(s: &str) -> (r: Result<EntityId, ParseError>)
        ensures
            r == spec_parse(s@),
    {
        let n = s.unicode_len();
        if n < 2 {
            return Err(ParseError::TooShort);
        }
        let ghost digits = s@.subrange(1, s@.len() as int);
        let mut i: usize = 1;
        let mut acc: usize = 0;
        while i < n
            invariant
                1 <= i <= n,
                n == s@.len(),
                digits == s@.subrange(1, s@.len() as int),
                all_dec_digits(s@.subrange(1, i as int)),
                acc as nat == dec_value(s@.subrange(1, i as int)),
            decreases n - i,
        {
            let c = s.get_char(i);
            let u = c as u32;
            if u < 48 || u > 57 {
                proof {
                    assert(digits[i - 1] == c);
                    assert(!is_dec_digit(c));
                }
                return Err(ParseError::InvalidIndex);
            }
            let d = (u - 48) as usize;
            let ghost prev = s@.subrange(1, i as int);
            let ghost cur = s@.subrange(1, i as int + 1);
            proof {
                assert(cur.drop_last() =~= prev);
                assert(cur.last() == c);
                assert(dec_value(cur) == dec_value(prev) * 10 + dec_val(c));
            }
            let step = match acc.checked_mul(10) {
                Some(m) => m.checked_add(d),
                None => None,
            };
            match step {
                Some(v) => {
                    acc = v;
                },
                None => {
                    proof {
                        assert(dec_value(cur) > usize::MAX as nat);
                        assert(cur =~= digits.subrange(0, i as int));
                        lemma_dec_value_prefix_le(digits, i as int);
                    }
                    return Err(ParseError::InvalidIndex);
                },
            }
            i += 1;
        }
        proof {
            assert(s@.subrange(1, n as int) =~= digits);
        }
        let c0 = s.get_char(0);
        if c0 == 'c' {
            Ok(EntityId::Client(acc))
        } else if c0 == 'n' {
            Ok(EntityId::Node(acc))
        } else {
            Err(ParseError::UnknownPrefix)
        }
    }
}

impl PartialOrd for EntityId {
    /// Identifiers order by variant first, clients before nodes, and by
    /// index within a variant.
    fn partial_cmp(&self, other: &EntityId) -> (r: Option<core::cmp::Ordering>) {
        match (self, other) {
            (EntityId::Client(a), EntityId::Client(b)) => {
                if a < b {
                    Some(core::cmp::Ordering::Less)
                } else if a == b {
                    Some(core::cmp::Ordering::Equal)
                } else {
                    Some(core::cmp::Ordering::Greater)
                }
            },
            (EntityId::Client(_), EntityId::Node(_)) => Some(core::cmp::Ordering::Less),
            (EntityId::Node(_), EntityId::Client(_)) => Some(core::cmp::Ordering::Greater),
            (EntityId::Node(a), EntityId::Node(b)) => {
                if a < b {
                    Some(core::cmp::Ordering::Less)
                } else if a == b {
                    Some(core::cmp::Ordering::Equal)
                } else {
                    Some(core::cmp::Ordering::Greater)
                }
            },
        }
    }
}

impl vstd::std_specs::cmp::PartialOrdSpecImpl for EntityId {
    open spec fn obeys_partial_cmp_spec() -> bool {
        true
    }

    open spec fn partial_cmp_spec(&self, other: &EntityId) -> Option<core::cmp::Ordering> {
        match (self, other) {
            (EntityId::Client(a), EntityId::Client(b)) => {
                if *a < *b {
                    Some(core::cmp::Ordering::Less)
                } else if *a == *b {
                    Some(core::cmp::Ordering::Equal)
                } else {
                    Some(core::cmp::Ordering::Greater)
                }
            },
            (EntityId::Client(_), EntityId::Node(_)) => Some(core::cmp::Ordering::Less),
            (EntityId::Node(_), EntityId::Client(_)) => Some(core::cmp::Ordering::Greater),
            (EntityId::Node(a), EntityId::Node(b)) => {
                if *a < *b {
                    Some(core::cmp::Ordering::Less)
                } else if *a == *b {
                    Some(core::cmp::Ordering::Equal)
                } else {
                    Some(core::cmp::Ordering::Greater)
                }
            },
        }
    }
}

impl From<EntityId> for u64 {
    /// The bare numeric index, with the client/node distinction dropped.
    fn from(entity_id: EntityId) -> (r: u64) {
        match entity_id {
            EntityId::Client(id) => id as u64,
            EntityId::Node(id) => id as u64,
        }
    }
}

impl vstd::std_specs::convert::FromSpecImpl<EntityId> for u64 {
    open spec fn obeys_from_spec() -> bool {
        true
    }

    open spec fn from_spec(e: EntityId) -> u64 {
        spec_index(e) as u64
    }
}

/// Law: formatting an identifier and parsing the text back yields the
/// identifier again, for every identifier.
pub proof fn lemma_entity_round_trip(id: EntityId)
    ensures
        spec_parse(spec_format(id)) == Ok::<EntityId, ParseError>(id),
{
    let n = spec_index(id);
    lemma_dec_str_digits(n);
    let s = spec_format(id);
    assert(s.len() >= 2);
    assert(s.subrange(1, s.len() as int) =~= dec_str(n));
    assert(!(dec_value(dec_str(n)) > usize::MAX as nat));
    assert(s[0] == prefix_char(id));
}

} // verus!
