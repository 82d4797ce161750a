use vstd::prelude::*;

verus! {

/// The types of values of the BrainCrab language.
#[derive(Debug, Eq)]
pub enum Type {
    U8,
    Bool,
    Array { element_type: Box<Type>, len: u8 },
}

impl Clone for Type {
    fn clone(&self) -> (r: Self)
        ensures
            r == *self,
        decreases self,
    {
        match self {
            Type::U8 => Type::U8,
            Type::Bool => Type::Bool,
            Type::Array { element_type, len } => Type::Array {
                element_type: Box::new((**element_type).clone()),
                len: *len,
            },
        }
    }
}

impl PartialEq for Type {
    fn eq(&self, other: &Self) -> (r: bool)
        decreases self,
    {
        match (self, other) {
            (Type::U8, Type::U8) => true,
            (Type::Bool, Type::Bool) => true,
            (Type::Array { element_type: e1, len: l1 }, Type::Array { element_type: e2, len: l2 }) => {
                if *l1 != *l2 {
                    false
                } else {
                    (**e1).eq(&**e2)
                }
            },
            _ => false,
        }
    }
}

impl vstd::std_specs::cmp::PartialEqSpecImpl for Type {
    open spec fn obeys_eq_spec() -> bool {
        true
    }

    open spec fn eq_spec(&self, other: &Self) -> bool {
        *self == *other
    }
}

impl Type {
    /// Number of tape cells a value of this type occupies.
    pub open spec fn spec_size(self) -> nat
        decreases self,
    {
        match self {
            Type::U8 => 1,
            Type::Bool => 1,
            Type::Array { element_type, len } => element_type.spec_size() * (len as nat),
        }
    }

    /// Every nested size fits in a `u16`.
    pub open spec fn size_fits(self) -> bool
        decreases self,
    {
        match self {
            Type::U8 => true,
            Type::Bool => true,
            Type::Array { element_type, len } => element_type.size_fits() && self.spec_size() <= u16::MAX,
        }
    }

    pub fn size(&self) -> (r: u16)
        requires
            self.size_fits(),
        ensures
            r as nat == self.spec_size(),
        decreases self,
    {
        match self {
            Type::U8 => 1,
            Type::Bool => 1,
            Type::Array { element_type, len } => {
                let s = element_type.size();
                s * (*len as u16)
            },
        }
    }
}

}
