use vstd::prelude::*;

verus! {

/// Record and query types; any other code is kept as a number.
#[derive(Clone, Copy, Debug, PartialEq, Eq, Structural)]
pub enum QueryType {
    UNKNOWN(u16),
    A,
    NS,
    CNAME,
    MX,
    AAAA,
}

/// The wire code of a type.
pub open spec fn type_code(t: QueryType) -> u16 {
    match t {
        QueryType::UNKNOWN(x) => x,
        QueryType::A => 1,
        QueryType::NS => 2,
        QueryType::CNAME => 5,
        QueryType::MX => 15,
        QueryType::AAAA => 28,
    }
}

/// The type of a wire code.
pub open spec fn type_of_code(n: u16) -> QueryType {
    if n == 1 {
        QueryType::A
    } else if n == 2 {
        QueryType::NS
    } else if n == 5 {
        QueryType::CNAME
    } else if n == 15 {
        QueryType::MX
    } else if n == 28 {
        QueryType::AAAA
    } else {
        QueryType::UNKNOWN(n)
    }
}

/// A type that reads back as itself: a named type, or a number that names none.
pub open spec fn canonical_type(t: QueryType) -> bool {
    match t {
        QueryType::UNKNOWN(x) => x != 1 && x != 2 && x != 5 && x != 15 && x != 28,
        _ => true,
    }
}

impl QueryType {
    pub fn to_num(&self) -> (r: u16)
        ensures
            r == type_code(*self),
    {
        match *self {
            QueryType::UNKNOWN(x) => x,
            QueryType::A => 1,
            QueryType::NS => 2,
            QueryType::CNAME => 5,
            QueryType::MX => 15,
            QueryType::AAAA => 28,
        }
    }

    pub fn from_num(num: u16) -> (r: Self)
        ensures
            r == type_of_code(num),
    {
        match num {
            1 => QueryType::A,
            2 => QueryType::NS,
            5 => QueryType::CNAME,
            15 => QueryType::MX,
            28 => QueryType::AAAA,
            _ => QueryType::UNKNOWN(num),
        }
    }
}

/// A code maps to a type that maps back to the code; a canonical type maps to a code
/// that maps back to the type.
pub proof fn lemma_type_code_round_trip(n: u16, t: QueryType)
    ensures
        type_code(type_of_code(n)) == n,
        canonical_type(type_of_code(n)),
        canonical_type(t) ==> type_of_code(type_code(t)) == t,
{
}

} // verus!
