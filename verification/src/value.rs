use vstd::prelude::*;

use crate::compiler_error::{CompileResult, CompilerError};
use crate::constant_value::{constant_data, constant_type, no_empty_arrays, ConstantValue, SpecConstant};
use crate::types::Type;

verus! {

/// A run of tape cells: `len` cells from `address` on.
#[derive(Debug, Clone, Copy, PartialEq, Eq, Structural)]
pub struct MemorySlice {
    pub address: u16,
    pub len: u16,
}

impl MemorySlice {
    pub fn new(address: u16, len: u16) -> (r: Self)
        ensures
            r.address == address,
            r.len == len,
    {
        Self { address, len }
    }

    /// The addresses of the cells.
    pub fn range(&self) -> (r: core::ops::Range<u16>)
        requires
            self.address + self.len <= u16::MAX,
        ensures
            r.start == self.address,
            r.end == self.address + self.len,
    {
        self.address..self.address + self.len
    }
}

/// A value stored on the tape from `address` on. An owned value's cells are released by whoever
/// owns it; a borrowed one only refers to cells owned elsewhere.
#[derive(Debug)]
pub struct LValue {
    pub address: u16,
    pub value_type: Type,
    pub mutable: bool,
    pub owned: bool,
}

impl LValue {
    pub fn is_owned(&self) -> (r: bool)
        ensures
            r == self.owned,
    {
        self.owned
    }

    pub fn is_borrowed(&self) -> (r: bool)
        ensures
            r == !self.owned,
    {
        !self.is_owned()
    }

    /// The same cells, borrowed.
    pub fn borrow(&self) -> (r: Self)
        ensures
            r.address == self.address,
            r.value_type == self.value_type,
            r.mutable == self.mutable,
            !r.owned,
    {
        Self {
            address: self.address,
            value_type: self.value_type.clone(),
            mutable: self.mutable,
            owned: false,
        }
    }

    /// `Ok` exactly when the value has the expected type.
    pub fn type_check<'a>(&self, expected: &Type) -> (r: CompileResult<'a, ()>)
        ensures
            self.value_type == *expected ==> r is Ok,
            self.value_type != *expected ==> r == Err::<(), CompilerError<'a>>(
                CompilerError::TypeError { expected: *expected, actual: self.value_type },
            ),
    {
        let actual = &self.value_type;
        if *actual == *expected {
            Ok(())
        } else {
            Err(CompilerError::TypeError { expected: expected.clone(), actual: actual.clone() })
        }
    }

    /// The cells the value occupies.
    pub fn memory_slice(&self) -> (r: MemorySlice)
        requires
            self.value_type.size_fits(),
        ensures
            r.address == self.address,
            r.len == self.value_type.spec_size(),
    {
        MemorySlice { address: self.address, len: self.value_type.size() }
    }

    /// One borrowed `u8` per cell of the value, in order.
    pub fn data(&self) -> (r: Vec<LValue>)
        requires
            self.value_type.size_fits(),
            self.address + self.value_type.spec_size() <= u16::MAX,
        ensures
            r@.len() == self.value_type.spec_size(),
            forall|i: int|
                0 <= i < r@.len() ==> {
                    &&& (#[trigger] r@[i]).address == self.address + i
                    &&& r@[i].value_type == Type::U8
                    &&& r@[i].mutable == self.mutable
                    &&& !r@[i].owned
                },
    {
        let mut result: Vec<LValue> = Vec::new();
        let slice = self.memory_slice();
        let mut address = slice.address;
        let end = slice.address + slice.len;
        while address < end
            invariant
                slice.address <= address <= end,
                end == self.address + self.value_type.spec_size(),
                slice.address == self.address,
                result@.len() == address - slice.address,
                forall|i: int|
                    0 <= i < result@.len() ==> {
                        &&& (#[trigger] result@[i]).address == self.address + i
                        &&& result@[i].value_type == Type::U8
                        &&& result@[i].mutable == self.mutable
                        &&& !result@[i].owned
                    },
            decreases end - address,
        {
            result.push(LValue { address, value_type: Type::U8, mutable: self.mutable, owned: false });
            address = address + 1;
        }
        result
    }
}

/// A value of the BrainCrab compiler: a constant, or cells on the tape.
#[derive(Debug)]
pub enum Value {
    Constant(ConstantValue),
    LValue(LValue),
}

impl Value {
    /// A borrowed, immutable value at `address`.
    pub fn new_borrow(address: u16, value_type: Type) -> (r: Self)
        ensures
            r matches Value::LValue(l) && l.address == address && l.value_type == value_type
                && !l.mutable && !l.owned,
    {
        Self::LValue(LValue { address, value_type, mutable: false, owned: false })
    }

    /// The same value, borrowed: a copy of a constant, or the same cells, not owned.
    pub fn borrow(&self) -> (r: Self)
        ensures
            match (*self, r) {
                (Value::Constant(a), Value::Constant(b)) => a@ == b@,
                (Value::LValue(a), Value::LValue(b)) => a.address == b.address && a.value_type
                    == b.value_type && a.mutable == b.mutable && !b.owned,
                _ => false,
            },
    {
        match self {
            Value::Constant(x) => Value::Constant(x.clone()),
            Value::LValue(lvalue) => Value::LValue(lvalue.borrow()),
        }
    }

    pub fn is_owned(&self) -> (r: bool)
        ensures
            r == (self matches Value::LValue(l) && l.owned),
    {
        if let Value::LValue(x) = self {
            x.is_owned()
        } else {
            false
        }
    }

    /// A mutable borrow of the value; an error for a constant or an immutable value.
    pub fn mutable<'a>(&self) -> (r: CompileResult<'a, LValue>)
        ensures
            match r {
                Ok(l) => self matches Value::LValue(v) && v.mutable && l.address == v.address
                    && l.value_type == v.value_type && l.mutable && !l.owned,
                Err(e) => e is MutableBorrowOfImmutableVariable && !(self matches Value::LValue(v)
                    && v.mutable),
            },
    {
        match self {
            Value::Constant(_) => Err(CompilerError::MutableBorrowOfImmutableVariable(self.borrow())),
            Value::LValue(variable) => {
                if variable.mutable {
                    Ok(variable.borrow())
                } else {
                    Err(CompilerError::MutableBorrowOfImmutableVariable(self.borrow()))
                }
            },
        }
    }

    /// The value's bytes, one value per cell: `u8` constants for a constant, borrowed cells for
    /// cells on the tape.
    pub fn data(&self) -> (r: Vec<Value>)
        requires
            self matches Value::LValue(l) ==> l.value_type.size_fits() && l.address
                + l.value_type.spec_size() <= u16::MAX,
        ensures
            match *self {
                Value::Constant(c) => r@.len() == constant_data(c@).len() && forall|i: int|
                    0 <= i < r@.len() ==> ((#[trigger] r@[i]) matches Value::Constant(x) && x@
                        == SpecConstant::U8(constant_data(c@)[i])),
                Value::LValue(l) => r@.len() == l.value_type.spec_size() && forall|i: int|
                    0 <= i < r@.len() ==> ((#[trigger] r@[i]) matches Value::LValue(x) && x.address
                        == l.address + i && x.value_type == Type::U8 && x.mutable == l.mutable
                        && !x.owned),
            },
    {
        match self {
            Value::Constant(constant_value) => {
                let bytes = constant_value.data();
                let mut result: Vec<Value> = Vec::new();
                let mut i: usize = 0;
                while i < bytes.len()
                    invariant
                        i <= bytes@.len(),
                        bytes@ == constant_data(constant_value@),
                        result@.len() == i,
                        forall|k: int|
                            0 <= k < i ==> ((#[trigger] result@[k]) matches Value::Constant(x) && x@
                                == SpecConstant::U8(bytes@[k])),
                    decreases bytes@.len() - i,
                {
                    result.push(Value::Constant(ConstantValue::U8(bytes[i])));
                    i = i + 1;
                }
                result
            },
            Value::LValue(lvalue) => {
                let cells = lvalue.data();
                let mut result: Vec<Value> = Vec::new();
                let mut i: usize = 0;
                while i < cells.len()
                    invariant
                        i <= cells@.len(),
                        cells@.len() == lvalue.value_type.spec_size(),
                        forall|k: int|
                            0 <= k < cells@.len() ==> {
                                &&& (#[trigger] cells@[k]).address == lvalue.address + k
                                &&& cells@[k].value_type == Type::U8
                                &&& cells@[k].mutable == lvalue.mutable
                                &&& !cells@[k].owned
                            },
                        result@.len() == i,
                        forall|k: int|
                            0 <= k < i ==> ((#[trigger] result@[k]) matches Value::LValue(x)
                                && x.address == lvalue.address + k && x.value_type == Type::U8
                                && x.mutable == lvalue.mutable && !x.owned),
                    decreases cells@.len() - i,
                {
                    result.push(Value::LValue(cells[i].borrow()));
                    i = i + 1;
                }
                result
            },
        }
    }

    /// The type of the value; an error for a constant array that mixes types.
    pub fn value_type<'a>(&self) -> (r: CompileResult<'a, Type>)
        requires
            self matches Value::Constant(c) ==> no_empty_arrays(c@),
        ensures
            match *self {
                Value::Constant(c) => match r {
                    Ok(t) => constant_type(c@) == Some(t),
                    Err(_) => constant_type(c@) is None,
                },
                Value::LValue(l) => r == Ok::<Type, CompilerError<'a>>(l.value_type),
            },
    {
        match self {
            Value::Constant(value) => value.value_type(),
            Value::LValue(variable) => Ok(variable.value_type.clone()),
        }
    }

    /// `Ok` exactly when the value has the expected type.
    pub fn type_check<'a>(&self, expected: Type) -> (r: CompileResult<'a, ()>)
        requires
            self matches Value::Constant(c) ==> no_empty_arrays(c@),
        ensures
            r is Ok <==> match *self {
                Value::Constant(c) => constant_type(c@) == Some(expected),
                Value::LValue(l) => l.value_type == expected,
            },
            match *self {
                Value::LValue(l) => l.value_type != expected ==> r == Err::<(), CompilerError<'a>>(
                    CompilerError::TypeError { expected, actual: l.value_type },
                ),
                Value::Constant(c) => constant_type(c@) is Some && constant_type(c@) != Some(
                    expected,
                ) ==> r == Err::<(), CompilerError<'a>>(
                    CompilerError::TypeError { expected, actual: constant_type(c@)->Some_0 },
                ),
            },
    {
        let actual = self.value_type()?;
        if actual == expected {
            Ok(())
        } else {
            Err(CompilerError::TypeError { expected, actual })
        }
    }
}

impl From<LValue> for Value {
    fn from(lvalue: LValue) -> (r: Self) {
        Self::LValue(lvalue)
    }
}

impl vstd::std_specs::convert::FromSpecImpl<LValue> for Value {
    open spec fn obeys_from_spec() -> bool {
        true
    }

    open spec fn from_spec(lvalue: LValue) -> Self {
        Value::LValue(lvalue)
    }
}

} // verus!
