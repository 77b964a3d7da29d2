use vstd::prelude::*;

verus! {

/// The class of a question or record, as carried in its 16-bit class field.
#[derive(Debug, Clone, Copy, PartialEq, Eq, Structural)]
pub enum Class {
    /// The Internet class, code 1.
    IN,
    /// Any other code, kept as it came.
    Other(u16),
}

/// The variant that a 16-bit class code stands for.
pub open spec fn class_of_code(code: u16) -> Class {
    if code == 1 {
        Class::IN
    } else {
        Class::Other(code)
    }
}

/// The 16-bit code that a class is written as.
pub open spec fn code_of_class(c: Class) -> u16 {
    match c {
        Class::IN => 1,
        Class::Other(n) => n,
    }
}

pub proof fn lemma_class_code(code: u16)
    ensures
        code_of_class(class_of_code(code)) == code,
{
}

impl Class {
    pub fn parse(code: u16) -> (r: Class)
        ensures
            r == class_of_code(code),
    {
        if code == 1 {
            Class::IN
        } else {
            Class::Other(code)
        }
    }

    pub fn to_u16(self) -> (r: u16)
        ensures
            r == code_of_class(self),
    {
        match self {
            Class::IN => 1,
            Class::Other(n) => n,
        }
    }
}

} // verus!
