use vstd::prelude::*;

verus! {

/// The kind of a resource record, as carried in its 16-bit type field.
#[derive(Debug, Clone, Copy, PartialEq, Eq, Structural)]
pub enum Type {
    A,
    NS,
    CNAME,
    AAAA,
    /// Any code without a variant of its own, kept as it came.
    Other(u16),
}

/// The variant that a 16-bit type code stands for.
pub open spec fn type_of_code(code: u16) -> Type {
    if code == 1 {
        Type::A
    } else if code == 2 {
        Type::NS
    } else if code == 5 {
        Type::CNAME
    } else if code == 28 {
        Type::AAAA
    } else {
        Type::Other(code)
    }
}

/// The 16-bit code that a type is written as.
pub open spec fn code_of_type(t: Type) -> u16 {
    match t {
        Type::A => 1,
        Type::NS => 2,
        Type::CNAME => 5,
        Type::AAAA => 28,
        Type::Other(n) => n,
    }
}

pub proof fn lemma_type_code(code: u16)
    ensures
        code_of_type(type_of_code(code)) == code,
{
}

impl Type {
    pub fn parse(code: u16) -> (r: Type)
        ensures
            r == type_of_code(code),
    {
        match code {
            1 => Type::A,
            2 => Type::NS,
            5 => Type::CNAME,
            28 => Type::AAAA,
            n => Type::Other(n),
        }
    }

    pub fn to_u16(self) -> (r: u16)
        ensures
            r == code_of_type(self),
    {
        match self {
            Type::A => 1,
            Type::NS => 2,
            Type::CNAME => 5,
            Type::AAAA => 28,
            Type::Other(n) => n,
        }
    }
}

} // verus!
