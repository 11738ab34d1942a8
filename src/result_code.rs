use vstd::prelude::*;

verus! {

/// Response codes; any other value is kept as a number.
#[derive(Clone, Copy, Debug, PartialEq, Eq, Structural)]
pub enum ResultCode {
    NOERROR,
    FORMERR,
    SERVFAIL,
    NXDOMAIN,
    NOTIMP,
    REFUSED,
    UNKNOWN(u8),
}

pub open spec fn rcode_num(c: ResultCode) -> u8 {
    match c {
        ResultCode::NOERROR => 0,
        ResultCode::FORMERR => 1,
        ResultCode::SERVFAIL => 2,
        ResultCode::NXDOMAIN => 3,
        ResultCode::NOTIMP => 4,
        ResultCode::REFUSED => 5,
        ResultCode::UNKNOWN(x) => x,
    }
}

pub open spec fn rcode_of(n: u8) -> ResultCode {
    if n == 0 {
        ResultCode::NOERROR
    } else if n == 1 {
        ResultCode::FORMERR
    } else if n == 2 {
        ResultCode::SERVFAIL
    } else if n == 3 {
        ResultCode::NXDOMAIN
    } else if n == 4 {
        ResultCode::NOTIMP
    } else if n == 5 {
        ResultCode::REFUSED
    } else {
        ResultCode::UNKNOWN(n)
    }
}

/// A code that fits the header's four bits and reads back as itself.
pub open spec fn canonical_rcode(c: ResultCode) -> bool {
    match c {
        ResultCode::UNKNOWN(x) => 5 < x < 16,
        _ => true,
    }
}

impl ResultCode {
    pub fn to_num(&self) -> (r: u8)
        ensures
            r == rcode_num(*self),
    {
        match *self {
            ResultCode::NOERROR => 0,
            ResultCode::FORMERR => 1,
            ResultCode::SERVFAIL => 2,
            ResultCode::NXDOMAIN => 3,
            ResultCode::NOTIMP => 4,
            ResultCode::REFUSED => 5,
            ResultCode::UNKNOWN(x) => x,
        }
    }

    pub fn from_num(num: u8) -> (r: Self)
        ensures
            r == rcode_of(num),
    {
        match num {
            0 => ResultCode::NOERROR,
            1 => ResultCode::FORMERR,
            2 => ResultCode::SERVFAIL,
            3 => ResultCode::NXDOMAIN,
            4 => ResultCode::NOTIMP,
            5 => ResultCode::REFUSED,
            _ => ResultCode::UNKNOWN(num),
        }
    }
}

} // verus!
