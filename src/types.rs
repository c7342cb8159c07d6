use vstd::prelude::*;

verus! {

/// The record types this server knows, and a catch-all for the others that
/// keeps the numeric code.
#[derive(PartialEq, Eq, Structural, Debug, Clone, Copy, Hash)]
pub enum QueryType {
    UNKNOWN(u16),
    CNAME,
    AAAA,
    MX,
    NS,
    A,
}

impl QueryType {
    /// The type that the numeric code `num` stands for.
    pub open spec fn spec_from(num: u16) -> QueryType {
        if num == 0x1c {
            QueryType::AAAA
        } else if num == 0x0f {
            QueryType::MX
        } else if num == 0x05 {
            QueryType::CNAME
        } else if num == 0x02 {
            QueryType::NS
        } else if num == 0x01 {
            QueryType::A
        } else {
            QueryType::UNKNOWN(num)
        }
    }

    /// The numeric code of the type.
    pub open spec fn code(self) -> u16 {
        match self {
            QueryType::AAAA => 0x1c,
            QueryType::MX => 0x0f,
            QueryType::CNAME => 0x05,
            QueryType::NS => 0x02,
            QueryType::A => 0x01,
            QueryType::UNKNOWN(num) => num,
        }
    }

    /// Whether the value is what decoding its own code gives: an `UNKNOWN`
    /// never carries the code of a known type.
    pub open spec fn is_canonical(self) -> bool {
        QueryType::spec_from(self.code()) == self
    }

    pub fn from(num: u16) -> (r: Self)
        ensures
            r == QueryType::spec_from(num),
            r.code() == num,
    {
        match num {
            0x1c => QueryType::AAAA,
            0x0f => QueryType::MX,
            0x05 => QueryType::CNAME,
            0x02 => QueryType::NS,
            0x01 => QueryType::A,
            _ => QueryType::UNKNOWN(num),
        }
    }

    pub fn to_u16(self) -> (r: u16)
        ensures
            r == self.code(),
    {
        match self {
            QueryType::AAAA => 0x1c,
            QueryType::MX => 0x0f,
            QueryType::CNAME => 0x05,
            QueryType::NS => 0x02,
            QueryType::A => 0x01,
            QueryType::UNKNOWN(num) => num,
        }
    }
}

/// A type decoded from a code gives that code back, and a canonical type
/// survives the trip through its code.
pub proof fn lemma_query_type_code(num: u16, t: QueryType)
    ensures
        QueryType::spec_from(num).code() == num,
        QueryType::spec_from(num).is_canonical(),
        t.is_canonical() ==> QueryType::spec_from(t.code()) == t,
{
}

/// The response codes of a DNS header.
#[derive(PartialEq, Eq, Structural, Debug, Clone, Copy)]
pub enum ResultCode {
    NoError,
    FormError,
    ServerFail,
    NxDomain,
    NoTimp,
    Refused,
}

impl ResultCode {
    /// The response code that the number `num` stands for; unknown numbers fold to `NoError`.
    pub open spec fn spec_from(num: u8) -> ResultCode {
        if num == 1 {
            ResultCode::FormError
        } else if num == 2 {
            ResultCode::ServerFail
        } else if num == 3 {
            ResultCode::NxDomain
        } else if num == 4 {
            ResultCode::NoTimp
        } else if num == 5 {
            ResultCode::Refused
        } else {
            ResultCode::NoError
        }
    }

    /// The number of the response code.
    pub open spec fn code(self) -> u8 {
        match self {
            ResultCode::NoError => 0,
            ResultCode::FormError => 1,
            ResultCode::ServerFail => 2,
            ResultCode::NxDomain => 3,
            ResultCode::NoTimp => 4,
            ResultCode::Refused => 5,
        }
    }

    pub fn from(num: u8) -> (r: Self)
        ensures
            r == ResultCode::spec_from(num),
    {
        match num {
            1 => ResultCode::FormError,
            2 => ResultCode::ServerFail,
            3 => ResultCode::NxDomain,
            4 => ResultCode::NoTimp,
            5 => ResultCode::Refused,
            _ => ResultCode::NoError,
        }
    }

    pub fn to_u8(self) -> (r: u8)
        ensures
            r == self.code(),
    {
        match self {
            ResultCode::NoError => 0,
            ResultCode::FormError => 1,
            ResultCode::ServerFail => 2,
            ResultCode::NxDomain => 3,
            ResultCode::NoTimp => 4,
            ResultCode::Refused => 5,
        }
    }
}

} // verus!
