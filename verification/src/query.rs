use vstd::prelude::*;

verus! {

/// The record types the codec understands, plus a catch-all that keeps the
/// raw numeric type code so unsupported types still round-trip.
#[derive(PartialEq, Eq, Debug, Clone, Hash, Copy, Structural)]
pub enum Query {
    UNKNOWN(u16),
    A,
    NS,
    CNAME,
    MX,
    AAAA,
}

/// The numeric type code of each query type.
pub open spec fn query_num(q: Query) -> u16 {
    match q {
        Query::UNKNOWN(x) => x,
        Query::A => 1,
        Query::NS => 2,
        Query::CNAME => 5,
        Query::MX => 15,
        Query::AAAA => 28,
    }
}

/// The query type denoted by a numeric type code; codes without a known
/// type map to `UNKNOWN`.
pub open spec fn query_of(num: u16) -> Query {
    if num == 1 {
        Query::A
    } else if num == 2 {
        Query::NS
    } else if num == 5 {
        Query::CNAME
    } else if num == 15 {
        Query::MX
    } else if num == 28 {
        Query::AAAA
    } else {
        Query::UNKNOWN(num)
    }
}

impl Query {
    pub fn to_num(&self) -> (r: u16)
        ensures
            r == query_num(*self),
    {
        match *self {
            Query::UNKNOWN(x) => x,
            Query::A => 1,
            Query::NS => 2,
            Query::CNAME => 5,
            Query::MX => 15,
            Query::AAAA => 28,
        }
    }

    pub fn from_num(num: u16) -> (r: Query)
        ensures
            r == query_of(num),
    {
        match num {
            1 => Query::A,
            2 => Query::NS,
            5 => Query::CNAME,
            15 => Query::MX,
            28 => Query::AAAA,
            _ => Query::UNKNOWN(num),
        }
    }
}

/// Mapping a known type's code back through `query_of` recovers the type,
/// so known record types survive a trip over the wire unchanged.
pub proof fn lemma_query_num_round_trip(q: Query)
    requires
        !(q matches Query::UNKNOWN(_)),
    ensures
        query_of(query_num(q)) == q,
{
}

} // verus!
