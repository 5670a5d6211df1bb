use vstd::prelude::*;

verus! {

/// The semantic kind of the value carried by a record.
///
/// The codec never interprets a tag beyond writing and validating its wire
/// discriminant; whether a record's bytes actually match its tag is the
/// producer's responsibility.  By producer/consumer convention the 64-bit
/// and wider numeric kinds carry their value as a string-encoded number,
/// a convention this codec does not enforce.
#[derive(Clone, Copy, Debug, PartialEq, Eq, Structural)]
pub enum MsgType {
    InkString,
    InkU8,
    InkU16,
    InkU32,
    InkU64,
    InkU128,
    InkI8,
    InkI16,
    InkI32,
    InkI64,
    InkI128,
    UserData,
}

/// The fixed wire discriminant of each tag, part of the wire contract:
/// the variants number 0 through 11 in declaration order.
pub open spec fn tag_code(t: MsgType) -> u8 {
    match t {
        MsgType::InkString => 0,
        MsgType::InkU8 => 1,
        MsgType::InkU16 => 2,
        MsgType::InkU32 => 3,
        MsgType::InkU64 => 4,
        MsgType::InkU128 => 5,
        MsgType::InkI8 => 6,
        MsgType::InkI16 => 7,
        MsgType::InkI32 => 8,
        MsgType::InkI64 => 9,
        MsgType::InkI128 => 10,
        MsgType::UserData => 11,
    }
}

/// The tag a wire discriminant stands for; `None` for a byte outside the
/// closed set 0 through 11.
pub open spec fn tag_from_code(b: u8) -> Option<MsgType> {
    if b == 0 {
        Some(MsgType::InkString)
    } else if b == 1 {
        Some(MsgType::InkU8)
    } else if b == 2 {
        Some(MsgType::InkU16)
    } else if b == 3 {
        Some(MsgType::InkU32)
    } else if b == 4 {
        Some(MsgType::InkU64)
    } else if b == 5 {
        Some(MsgType::InkU128)
    } else if b == 6 {
        Some(MsgType::InkI8)
    } else if b == 7 {
        Some(MsgType::InkI16)
    } else if b == 8 {
        Some(MsgType::InkI32)
    } else if b == 9 {
        Some(MsgType::InkI64)
    } else if b == 10 {
        Some(MsgType::InkI128)
    } else if b == 11 {
        Some(MsgType::UserData)
    } else {
        None
    }
}

impl MsgType {
    /// The discriminant byte written for this tag.
    pub fn code(&self) -> (r: u8)
        ensures
            r == tag_code(*self),
    {
        match self {
            MsgType::InkString => 0,
            MsgType::InkU8 => 1,
            MsgType::InkU16 => 2,
            MsgType::InkU32 => 3,
            MsgType::InkU64 => 4,
            MsgType::InkU128 => 5,
            MsgType::InkI8 => 6,
            MsgType::InkI16 => 7,
            MsgType::InkI32 => 8,
            MsgType::InkI64 => 9,
            MsgType::InkI128 => 10,
            MsgType::UserData => 11,
        }
    }

    /// The tag a discriminant byte stands for, or `None` if the byte is
    /// outside the closed set.
    pub fn from_code(b: u8) -> (r: Option<MsgType>)
        ensures
            r == tag_from_code(b),
    {
        if b == 0 {
            Some(MsgType::InkString)
        } else if b == 1 {
            Some(MsgType::InkU8)
        } else if b == 2 {
            Some(MsgType::InkU16)
        } else if b == 3 {
            Some(MsgType::InkU32)
        } else if b == 4 {
            Some(MsgType::InkU64)
        } else if b == 5 {
            Some(MsgType::InkU128)
        } else if b == 6 {
            Some(MsgType::InkI8)
        } else if b == 7 {
            Some(MsgType::InkI16)
        } else if b == 8 {
            Some(MsgType::InkI32)
        } else if b == 9 {
            Some(MsgType::InkI64)
        } else if b == 10 {
            Some(MsgType::InkI128)
        } else if b == 11 {
            Some(MsgType::UserData)
        } else {
            None
        }
    }
}

/// Reading back a tag's own discriminant always yields the tag: the
/// discriminant map is injective over the closed set.
pub proof fn lemma_tag_code_round_trip(t: MsgType)
    ensures
        tag_from_code(tag_code(t)) == Some(t),
{
}

} // verus!
