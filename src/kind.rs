use vstd::prelude::*;

verus! {

/// The shape of a tag; `List` carries the numeric id of its element kind.
#[derive(Debug, Clone, Copy, PartialEq, Eq, Structural)]
pub enum Kind {
    End,
    Byte,
    Short,
    Int,
    Long,
    Float,
    Double,
    ByteArray,
    String,
    List(u8),
    Compound,
    IntArray,
    LongArray,
}

pub open spec fn kind_id(k: Kind) -> u8 {
    match k {
        Kind::End => 0,
        Kind::Byte => 1,
        Kind::Short => 2,
        Kind::Int => 3,
        Kind::Long => 4,
        Kind::Float => 5,
        Kind::Double => 6,
        Kind::ByteArray => 7,
        Kind::String => 8,
        Kind::List(_) => 9,
        Kind::Compound => 10,
        Kind::IntArray => 11,
        Kind::LongArray => 12,
    }
}

impl Kind {
    /// The wire id of this kind.
    pub fn id(&self) -> (r: u8)
        ensures
            r == kind_id(*self),
            r <= 12,
    {
        match self {
            Kind::End => 0,
            Kind::Byte => 1,
            Kind::Short => 2,
            Kind::Int => 3,
            Kind::Long => 4,
            Kind::Float => 5,
            Kind::Double => 6,
            Kind::ByteArray => 7,
            Kind::String => 8,
            Kind::List(_) => 9,
            Kind::Compound => 10,
            Kind::IntArray => 11,
            Kind::LongArray => 12,
        }
    }
}

} // verus!
