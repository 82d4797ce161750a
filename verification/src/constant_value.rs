use vstd::prelude::*;

use crate::compiler_error::{CompileResult, CompilerError};
use crate::types::Type;

verus! {

/// A value known when compiling.
#[derive(Debug)]
pub enum ConstantValue {
    U8(u8),
    Bool(bool),
    Array(Vec<ConstantValue>),
}

/// The mathematical model of a [`ConstantValue`].
pub enum SpecConstant {
    U8(u8),
    Bool(bool),
    Array(Seq<SpecConstant>),
}

impl View for ConstantValue {
    type V = SpecConstant;

    open spec fn view(&self) -> SpecConstant
        decreases self,
    {
        match self {
            ConstantValue::U8(v) => SpecConstant::U8(*v),
            ConstantValue::Bool(v) => SpecConstant::Bool(*v),
            ConstantValue::Array(vec) => SpecConstant::Array(constants_view(vec@)),
        }
    }
}

/// The models of a sequence of constants.
pub open spec fn constants_view(s: Seq<ConstantValue>) -> Seq<SpecConstant>
    decreases s,
{
    Seq::new(
        s.len(),
        |i: int|
            if 0 <= i < s.len() {
                s[i]@
            } else {
                SpecConstant::U8(0)
            },
    )
}

/// The bytes that store a constant on the tape: a byte per `u8`, `1` or `0` per `bool`,
/// the elements of an array one after another.
pub open spec fn constant_data(c: SpecConstant) -> Seq<u8>
    decreases c,
{
    match c {
        SpecConstant::U8(v) => seq![v],
        SpecConstant::Bool(b) => seq![if b { 1u8 } else { 0u8 }],
        SpecConstant::Array(s) => constants_data(s),
    }
}

/// The bytes of a sequence of constants, one after another.
pub open spec fn constants_data(s: Seq<SpecConstant>) -> Seq<u8>
    decreases s,
{
    if s.len() == 0 {
        Seq::empty()
    } else {
        constants_data(s.drop_last()) + constant_data(s.last())
    }
}

/// The type of a constant; `None` where an array holds elements of different types.
pub open spec fn constant_type(c: SpecConstant) -> Option<Type>
    decreases c,
{
    match c {
        SpecConstant::U8(_) => Some(Type::U8),
        SpecConstant::Bool(_) => Some(Type::Bool),
        SpecConstant::Array(s) => if s.len() > 0 && constants_same_type(s, constant_type(s[0])) {
            Some(Type::Array { element_type: Box::new(constant_type(s[0])->Some_0), len: s.len() as u8 })
        } else {
            None
        },
    }
}

/// Every constant of the sequence has the type `t`, which is known.
pub open spec fn constants_same_type(s: Seq<SpecConstant>, t: Option<Type>) -> bool
    decreases s,
{
    if s.len() == 0 {
        t is Some
    } else {
        constants_same_type(s.drop_last(), t) && constant_type(s.last()) == t
    }
}

/// No array in the constant is empty.
pub open spec fn no_empty_arrays(c: SpecConstant) -> bool
    decreases c,
{
    match c {
        SpecConstant::Array(s) => s.len() > 0 && all_no_empty_arrays(s),
        _ => true,
    }
}

/// No array in any constant of the sequence is empty.
pub open spec fn all_no_empty_arrays(s: Seq<SpecConstant>) -> bool
    decreases s,
{
    if s.len() == 0 {
        true
    } else {
        all_no_empty_arrays(s.drop_last()) && no_empty_arrays(s.last())
    }
}

/// Every array in the constant has fewer than 256 elements.
pub open spec fn arrays_short(c: SpecConstant) -> bool
    decreases c,
{
    match c {
        SpecConstant::Array(s) => s.len() < 256 && all_arrays_short(s),
        _ => true,
    }
}

/// Every array in any constant of the sequence has fewer than 256 elements.
pub open spec fn all_arrays_short(s: Seq<SpecConstant>) -> bool
    decreases s,
{
    if s.len() == 0 {
        true
    } else {
        all_arrays_short(s.drop_last()) && arrays_short(s.last())
    }
}

/// The bytes that store a typed constant are as many as its type's size, where no array in it
/// has 256 elements or more (an array type holds its length in a byte).
pub proof fn lemma_data_len(c: SpecConstant)
    requires
        constant_type(c) is Some,
        arrays_short(c),
    ensures
        constant_data(c).len() == constant_type(c)->Some_0.spec_size(),
    decreases c, 1int,
{
    match c {
        SpecConstant::Array(s) => {
            lemma_same_type_some(s, constant_type(s[0]));
            let te = constant_type(s[0])->Some_0;
            lemma_all_data_len(c, s, te);
            assert((s.len() as u8) as nat == s.len());
        },
        _ => {},
    }
}

/// The bytes of constants that all have the type `te` are `te`'s size for each of them.
proof fn lemma_all_data_len(c: SpecConstant, s: Seq<SpecConstant>, te: Type)
    requires
        c is Array,
        s.len() <= c->Array_0.len(),
        forall|j: int| 0 <= j < s.len() ==> s[j] == c->Array_0[j],
        constants_same_type(s, Some(te)),
        all_arrays_short(s),
    ensures
        constants_data(s).len() == te.spec_size() * s.len(),
    decreases c, 0int, s.len(),
{
    if s.len() > 0 {
        let p = s.drop_last();
        assert forall|j: int| 0 <= j < p.len() implies p[j] == c->Array_0[j] by {
            assert(p[j] == s[j]);
        }
        lemma_all_data_len(c, p, te);
        assert(s.last() == c->Array_0[s.len() - 1]);
        assert(decreases_to!(c => c->Array_0));
        assert(decreases_to!(c->Array_0 => c->Array_0[s.len() - 1]));
        lemma_data_len(s.last());
        let k = s.len() as int;
        assert(te.spec_size() * (k - 1) + te.spec_size() == te.spec_size() * k) by (nonlinear_arith);
    }
}

/// Element `j` of an array breaks its typing: it has no type, or not the type of the first.
pub open spec fn breaks_typing(s: Seq<SpecConstant>, j: int) -> bool {
    constant_type(s[j]) is None || constant_type(s[j]) != constant_type(s[0])
}

/// The first element that breaks the typing of an array.
pub open spec fn first_break(s: Seq<SpecConstant>) -> int {
    choose|j: int| 0 <= j < s.len() && breaks_typing(s, j) && forall|i: int| 0 <= i < j ==> !breaks_typing(s, i)
}

/// What makes an untyped constant untyped: the type expected in the innermost array, the
/// index of the first element there that breaks it, and that element's type.
pub open spec fn type_mismatch(c: SpecConstant) -> (Type, int, Type)
    decreases c,
{
    match c {
        SpecConstant::Array(s) => {
            let j = first_break(s);
            if 0 <= j < s.len() {
                if constant_type(s[j]) is None {
                    type_mismatch(s[j])
                } else {
                    (constant_type(s[0])->Some_0, j, constant_type(s[j])->Some_0)
                }
            } else {
                (Type::U8, 0, Type::U8)
            }
        },
        _ => (Type::U8, 0, Type::U8),
    }
}

/// An element that breaks the typing, after none that does, is the first to.
proof fn lemma_first_break(s: Seq<SpecConstant>, j: int)
    requires
        0 <= j < s.len(),
        breaks_typing(s, j),
        forall|i: int| 0 <= i < j ==> !breaks_typing(s, i),
    ensures
        first_break(s) == j,
{
    let k = first_break(s);
    assert(0 <= k < s.len() && breaks_typing(s, k) && forall|i: int| 0 <= i < k ==> !breaks_typing(s, i));
    if k < j {
        assert(!breaks_typing(s, k));
    } else if k > j {
        assert(!breaks_typing(s, j));
    }
}

proof fn lemma_all_no_empty_index(s: Seq<SpecConstant>, i: int)
    requires
        all_no_empty_arrays(s),
        0 <= i < s.len(),
    ensures
        no_empty_arrays(s[i]),
    decreases s.len(),
{
    if i < s.len() - 1 {
        lemma_all_no_empty_index(s.drop_last(), i);
    }
}

proof fn lemma_same_type_index(s: Seq<SpecConstant>, t: Option<Type>, i: int)
    requires
        constants_same_type(s, t),
        0 <= i < s.len(),
    ensures
        constant_type(s[i]) == t,
    decreases s.len(),
{
    if i < s.len() - 1 {
        lemma_same_type_index(s.drop_last(), t, i);
    }
}

proof fn lemma_same_type_some(s: Seq<SpecConstant>, t: Option<Type>)
    requires
        constants_same_type(s, t),
    ensures
        t is Some,
    decreases s.len(),
{
    if s.len() > 0 {
        lemma_same_type_some(s.drop_last(), t);
    }
}

proof fn lemma_same_type_take(s: Seq<SpecConstant>, t: Option<Type>, i: int)
    requires
        0 <= i < s.len(),
        constants_same_type(s.take(i), t),
        constant_type(s[i]) == t,
    ensures
        constants_same_type(s.take(i + 1), t),
{
    assert(s.take(i + 1).drop_last() =~= s.take(i));
}

impl From<u8> for ConstantValue {
    fn from(value: u8) -> (r: Self) {
        ConstantValue::U8(value)
    }
}

impl vstd::std_specs::convert::FromSpecImpl<u8> for ConstantValue {
    open spec fn obeys_from_spec() -> bool {
        true
    }

    open spec fn from_spec(value: u8) -> Self {
        ConstantValue::U8(value)
    }
}

impl From<bool> for ConstantValue {
    fn from(value: bool) -> (r: Self) {
        ConstantValue::Bool(value)
    }
}

impl vstd::std_specs::convert::FromSpecImpl<bool> for ConstantValue {
    open spec fn obeys_from_spec() -> bool {
        true
    }

    open spec fn from_spec(value: bool) -> Self {
        ConstantValue::Bool(value)
    }
}

impl Clone for ConstantValue {
    fn clone(&self) -> (r: Self)
        ensures
            r@ == self@,
        decreases self,
    {
        match self {
            ConstantValue::U8(v) => ConstantValue::U8(*v),
            ConstantValue::Bool(v) => ConstantValue::Bool(*v),
            ConstantValue::Array(vec) => {
                let mut result: Vec<ConstantValue> = Vec::new();
                let mut i: usize = 0;
                while i < vec.len()
                    invariant
                        i <= vec@.len(),
                        *self == ConstantValue::Array(*vec),
                        result@.len() == i,
                        forall|k: int| 0 <= k < i ==> (#[trigger] result@[k])@ == vec@[k]@,
                    decreases vec@.len() - i,
                {
                    proof {
                        broadcast use vstd::std_specs::vec::axiom_vec_index_decreases;

                        assert(decreases_to!(*vec => vec[i as int]));
                        assert(decreases_to!(*self => self->Array_0));
                    }
                    result.push(vec[i].clone());
                    i = i + 1;
                }
                assert(constants_view(result@) =~= constants_view(vec@));
                ConstantValue::Array(result)
            },
        }
    }
}

impl ConstantValue {
    fn data_impl(source: &ConstantValue, result: &mut Vec<u8>)
        ensures
            final(result)@ == old(result)@ + constant_data(source@),
        decreases source,
    {
        match source {
            ConstantValue::U8(value) => result.push(*value),
            ConstantValue::Bool(value) => result.push(if *value { 1 } else { 0 }),
            ConstantValue::Array(vec) => {
                let ghost start = result@;
                let ghost s = constants_view(vec@);
                let mut i: usize = 0;
                while i < vec.len()
                    invariant
                        i <= vec@.len(),
                        s == constants_view(vec@),
                        *source == ConstantValue::Array(*vec),
                        result@ == start + constants_data(s.take(i as int)),
                    decreases vec@.len() - i,
                {
                    proof {
                        assert(s.take(i + 1).drop_last() =~= s.take(i as int));
                        broadcast use vstd::std_specs::vec::axiom_vec_index_decreases;

                        assert(decreases_to!(*vec => vec[i as int]));
                        assert(decreases_to!(*source => source->Array_0));
                    }
                    Self::data_impl(&vec[i], result);
                    i = i + 1;
                }
                assert(s.take(i as int) =~= s);
            },
        }
    }

    /// The bytes that store the constant on the tape.
    pub fn data(&self) -> (r: Vec<u8>)
        ensures
            r@ == constant_data(self@),
    {
        let mut result = Vec::new();
        Self::data_impl(self, &mut result);
        result
    }

    /// Whether no array in the constant is empty.
    pub fn has_no_empty_arrays(&self) -> (r: bool)
        ensures
            r == no_empty_arrays(self@),
        decreases self,
    {
        match self {
            ConstantValue::Array(vec) => {
                let ghost s = constants_view(vec@);
                if vec.len() == 0 {
                    return false;
                }
                let mut i: usize = 0;
                proof {
                    assert(s.take(0) =~= Seq::<SpecConstant>::empty());
                }
                while i < vec.len()
                    invariant
                        i <= vec@.len(),
                        s == constants_view(vec@),
                        *self == ConstantValue::Array(*vec),
                        all_no_empty_arrays(s.take(i as int)),
                    decreases vec@.len() - i,
                {
                    proof {
                        broadcast use vstd::std_specs::vec::axiom_vec_index_decreases;

                        assert(decreases_to!(*vec => vec[i as int]));
                        assert(decreases_to!(*self => self->Array_0));
                        assert(s.take(i + 1).drop_last() =~= s.take(i as int));
                        assert(s.take(i + 1).last() == vec[i as int]@);
                    }
                    if !vec[i].has_no_empty_arrays() {
                        proof {
                            if all_no_empty_arrays(s) {
                                lemma_all_no_empty_index(s, i as int);
                            }
                        }
                        return false;
                    }
                    i = i + 1;
                }
                assert(s.take(i as int) =~= s);
                true
            },
            _ => true,
        }
    }

    /// Whether the compiler can place the constant: no array in it is empty and its type is
    /// known.
    pub fn is_placeable(&self) -> (r: bool)
        ensures
            r == (no_empty_arrays(self@) && constant_type(self@) is Some),
    {
        if !self.has_no_empty_arrays() {
            return false;
        }
        self.value_type().is_ok()
    }

    /// The type of the constant; an error where an array mixes types.
    pub fn value_type<'a>(&self) -> (r: CompileResult<'a, Type>)
        requires
            no_empty_arrays(self@),
        ensures
            match r {
                Ok(t) => constant_type(self@) == Some(t),
                Err(_) => constant_type(self@) is None,
            },
            r is Err ==> (r matches Err(CompilerError::ArrayHasDifferentTypes { expected, index, actual }) && expected
                == type_mismatch(self@).0 && index == type_mismatch(self@).1 as u16 && actual == type_mismatch(self@).2),
        decreases self,
    {
        match self {
            ConstantValue::U8(_) => Ok(Type::U8),
            ConstantValue::Bool(_) => Ok(Type::Bool),
            ConstantValue::Array(vec) => {
                let ghost s = constants_view(vec@);
                proof {
                    lemma_all_no_empty_index(s, 0);
                    broadcast use vstd::std_specs::vec::axiom_vec_index_decreases;

                    assert(decreases_to!(*vec => vec[0]));
                    assert(decreases_to!(*self => self->Array_0));
                }
                let expected = match vec[0].value_type() {
                    Ok(t) => t,
                    Err(e) => {
                        proof {
                            if constants_same_type(s, constant_type(s[0])) {
                                lemma_same_type_some(s, constant_type(s[0]));
                            }
                            lemma_first_break(s, 0);
                        }
                        return Err(e);
                    },
                };
                let mut index: usize = 0;
                while index < vec.len()
                    invariant
                        index <= vec@.len(),
                        vec@.len() > 0,
                        s == constants_view(vec@),
                        all_no_empty_arrays(s),
                        *self == ConstantValue::Array(*vec),
                        constant_type(s[0]) == Some(expected),
                        constants_same_type(s.take(index as int), Some(expected)),
                        forall|i: int| 0 <= i < index ==> constant_type(#[trigger] s[i]) == Some(expected),
                    decreases vec@.len() - index,
                {
                    proof {
                        lemma_all_no_empty_index(s, index as int);
                        broadcast use vstd::std_specs::vec::axiom_vec_index_decreases;

                        assert(decreases_to!(*vec => vec[index as int]));
                        assert(decreases_to!(*self => self->Array_0));
                    }
                    let actual = match vec[index].value_type() {
                        Ok(t) => t,
                        Err(e) => {
                            proof {
                                if constants_same_type(s, constant_type(s[0])) {
                                    lemma_same_type_index(s, constant_type(s[0]), index as int);
                                }
                                lemma_first_break(s, index as int);
                            }
                            return Err(e);
                        },
                    };
                    if actual != expected {
                        proof {
                            if constants_same_type(s, constant_type(s[0])) {
                                lemma_same_type_index(s, constant_type(s[0]), index as int);
                            }
                            lemma_first_break(s, index as int);
                        }
                        return Err(
                            CompilerError::ArrayHasDifferentTypes {
                                expected,
                                index: #[verifier::truncate] (index as u16),
                                actual,
                            },
                        );
                    }
                    proof {
                        lemma_same_type_take(s, Some(expected), index as int);
                    }
                    index = index + 1;
                }
                assert(s.take(index as int) =~= s);
                let element_type = match vec[0].value_type() {
                    Ok(t) => t,
                    Err(e) => {
                        return Err(e);
                    },
                };
                Ok(Type::Array { element_type: Box::new(element_type), len: #[verifier::truncate] (vec.len() as u8) })
            },
        }
    }

    /// The byte of a `u8` constant; a type error for any other constant.
    pub fn get_u8<'a>(&self) -> (r: CompileResult<'a, u8>)
        requires
            no_empty_arrays(self@),
        ensures
            match self@ {
                SpecConstant::U8(v) => r == Ok::<u8, CompilerError<'a>>(v),
                _ => match r {
                    Ok(_) => false,
                    Err(e) => constant_type(self@) is None || e == (CompilerError::TypeError {
                        expected: Type::U8,
                        actual: constant_type(self@)->Some_0,
                    }),
                },
            },
    {
        match self {
            ConstantValue::U8(value) => Ok(*value),
            _ => {
                let actual = self.value_type()?;
                Err(CompilerError::TypeError { expected: Type::U8, actual })
            },
        }
    }

    /// The truth value of a `bool` constant; a type error for any other constant.
    pub fn get_bool<'a>(&self) -> (r: CompileResult<'a, bool>)
        requires
            no_empty_arrays(self@),
        ensures
            match self@ {
                SpecConstant::Bool(v) => r == Ok::<bool, CompilerError<'a>>(v),
                _ => match r {
                    Ok(_) => false,
                    Err(e) => constant_type(self@) is None || e == (CompilerError::TypeError {
                        expected: Type::Bool,
                        actual: constant_type(self@)->Some_0,
                    }),
                },
            },
    {
        match self {
            ConstantValue::Bool(value) => Ok(*value),
            _ => {
                let actual = self.value_type()?;
                Err(CompilerError::TypeError { expected: Type::Bool, actual })
            },
        }
    }
}

} // verus!
