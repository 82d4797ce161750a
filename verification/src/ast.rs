use vstd::prelude::*;

use crate::constant_value::{constant_type, no_empty_arrays, ConstantValue};
use crate::types::Type;

verus! {

/// Something that can be assigned to: a variable, or an element of an array variable.
#[derive(Debug)]
pub enum LValueExpression<'a> {
    Variable(&'a str),
    Index(&'a str, Vec<Expression<'a>>),
}

/// Every constant of the expression is a non-empty, well-typed value: the compiler places only
/// such constants.
pub open spec fn expression_ok<'a>(e: Expression<'a>) -> bool
    decreases e,
{
    match e {
        Expression::Constant(c) => no_empty_arrays(c@) && constant_type(c@) is Some,
        Expression::LValue(l) => lvalue_ok(l),
        Expression::Read => true,
        Expression::Not(a) => expression_ok(*a),
        Expression::Add(a, b) => expression_ok(*a) && expression_ok(*b),
        Expression::Sub(a, b) => expression_ok(*a) && expression_ok(*b),
        Expression::Mul(a, b) => expression_ok(*a) && expression_ok(*b),
        Expression::Div(a, b) => expression_ok(*a) && expression_ok(*b),
        Expression::Mod(a, b) => expression_ok(*a) && expression_ok(*b),
        Expression::And(a, b) => expression_ok(*a) && expression_ok(*b),
        Expression::Or(a, b) => expression_ok(*a) && expression_ok(*b),
        Expression::Equals(a, b) => expression_ok(*a) && expression_ok(*b),
        Expression::NotEquals(a, b) => expression_ok(*a) && expression_ok(*b),
        Expression::LessThanEquals(a, b) => expression_ok(*a) && expression_ok(*b),
        Expression::GreaterThanEquals(a, b) => expression_ok(*a) && expression_ok(*b),
        Expression::LessThan(a, b) => expression_ok(*a) && expression_ok(*b),
        Expression::GreaterThan(a, b) => expression_ok(*a) && expression_ok(*b),
    }
}

/// Every constant of the indices is non-empty and well typed.
pub open spec fn lvalue_ok<'a>(l: LValueExpression<'a>) -> bool
    decreases l,
{
    match l {
        LValueExpression::Variable(_) => true,
        LValueExpression::Index(_, indices) => expressions_ok(indices@),
    }
}

/// Every constant of the expressions is non-empty and well typed.
pub open spec fn expressions_ok<'a>(s: Seq<Expression<'a>>) -> bool
    decreases s,
{
    if s.len() == 0 {
        true
    } else {
        expressions_ok(s.drop_last()) && expression_ok(s.last())
    }
}

/// Every constant of the instruction is non-empty and well typed.
pub open spec fn instruction_ok<'a>(i: Instruction<'a>) -> bool
    decreases i,
{
    match i {
        Instruction::Define { value, .. } => expression_ok(value),
        Instruction::Assign { name, value } => lvalue_ok(name) && expression_ok(value),
        Instruction::AddAssign { value, .. } => expression_ok(value),
        Instruction::SubAssign { value, .. } => expression_ok(value),
        Instruction::Write { expression } => expression_ok(expression),
        Instruction::Print { .. } => true,
        Instruction::Scope { body } => instructions_ok(body@),
        Instruction::While { predicate, body } => expression_ok(predicate) && instructions_ok(body@),
        Instruction::IfThenElse { predicate, if_body, else_body } => expression_ok(predicate) && instructions_ok(if_body@)
            && instructions_ok(else_body@),
        Instruction::ForEach { array, body, .. } => expression_ok(array) && instructions_ok(body@),
    }
}

/// Every constant of the instructions is non-empty and well typed.
pub open spec fn instructions_ok<'a>(s: Seq<Instruction<'a>>) -> bool
    decreases s,
{
    if s.len() == 0 {
        true
    } else {
        instructions_ok(s.drop_last()) && instruction_ok(s.last())
    }
}

/// The expressions of a well-formed sequence are well formed.
pub proof fn lemma_expressions_ok_index<'a>(s: Seq<Expression<'a>>, i: int)
    requires
        expressions_ok(s),
        0 <= i < s.len(),
    ensures
        expression_ok(s[i]),
    decreases s.len(),
{
    if i < s.len() - 1 {
        lemma_expressions_ok_index(s.drop_last(), i);
    }
}

/// The instructions of a well-formed sequence are well formed.
pub proof fn lemma_instructions_ok_index<'a>(s: Seq<Instruction<'a>>, i: int)
    requires
        instructions_ok(s),
        0 <= i < s.len(),
    ensures
        instruction_ok(s[i]),
    decreases s.len(),
{
    if i < s.len() - 1 {
        lemma_instructions_ok_index(s.drop_last(), i);
    }
}

impl<'a> LValueExpression<'a> {
    pub fn variable(name: &'a str) -> (r: Self)
        ensures
            r == LValueExpression::Variable(name),
    {
        Self::Variable(name)
    }
}

impl<'a> From<&'a str> for LValueExpression<'a> {
    fn from(value: &'a str) -> (r: Self) {
        LValueExpression::variable(value)
    }
}

impl<'a> vstd::std_specs::convert::FromSpecImpl<&'a str> for LValueExpression<'a> {
    open spec fn obeys_from_spec() -> bool {
        true
    }

    open spec fn from_spec(value: &'a str) -> Self {
        LValueExpression::Variable(value)
    }
}

impl<'a> Clone for LValueExpression<'a> {
    fn clone(&self) -> (r: Self)
        ensures
            lvalue_ok(*self) ==> lvalue_ok(r),
        decreases self,
    {
        match self {
            LValueExpression::Variable(name) => LValueExpression::Variable(*name),
            LValueExpression::Index(name, indices) => {
                let mut result: Vec<Expression<'a>> = Vec::new();
                let mut i: usize = 0;
                while i < indices.len()
                    invariant
                        i <= indices@.len(),
                        *self == LValueExpression::Index(*name, *indices),
                        expressions_ok(indices@) ==> expressions_ok(result@),
                    decreases indices@.len() - i,
                {
                    proof {
                        broadcast use vstd::std_specs::vec::axiom_vec_index_decreases;

                        assert(decreases_to!(*indices => indices[i as int]));
                        assert(decreases_to!(*self => self->Index_1));
                        if expressions_ok(indices@) {
                            lemma_expressions_ok_index(indices@, i as int);
                        }
                    }
                    let ghost before = result@;
                    let x = indices[i].clone();
                    result.push(x);
                    proof {
                        assert(result@.drop_last() =~= before);
                    }
                    i = i + 1;
                }
                LValueExpression::Index(*name, result)
            },
        }
    }
}

/// An expression of the BrainCrab language.
#[derive(Debug)]
pub enum Expression<'a> {
    Constant(ConstantValue),
    LValue(LValueExpression<'a>),
    Read,
    Add(Box<Expression<'a>>, Box<Expression<'a>>),
    Sub(Box<Expression<'a>>, Box<Expression<'a>>),
    Mul(Box<Expression<'a>>, Box<Expression<'a>>),
    Div(Box<Expression<'a>>, Box<Expression<'a>>),
    Mod(Box<Expression<'a>>, Box<Expression<'a>>),
    Not(Box<Expression<'a>>),
    And(Box<Expression<'a>>, Box<Expression<'a>>),
    Or(Box<Expression<'a>>, Box<Expression<'a>>),
    Equals(Box<Expression<'a>>, Box<Expression<'a>>),
    NotEquals(Box<Expression<'a>>, Box<Expression<'a>>),
    LessThanEquals(Box<Expression<'a>>, Box<Expression<'a>>),
    GreaterThanEquals(Box<Expression<'a>>, Box<Expression<'a>>),
    LessThan(Box<Expression<'a>>, Box<Expression<'a>>),
    GreaterThan(Box<Expression<'a>>, Box<Expression<'a>>),
}

impl<'a> Expression<'a> {
    pub fn constant(value: ConstantValue) -> (r: Self)
        ensures
            r == Expression::<'a>::Constant(value),
    {
        Self::Constant(value)
    }

    pub fn read() -> (r: Self)
        ensures
            r == Expression::<'a>::Read,
    {
        Self::Read
    }

    pub fn new_not(a: Expression<'a>) -> (r: Self)
        ensures
            r == Expression::Not(Box::new(a)),
    {
        Self::Not(Box::new(a))
    }

    pub fn new_add(a: Expression<'a>, b: Expression<'a>) -> (r: Self)
        ensures
            r == Expression::Add(Box::new(a), Box::new(b)),
    {
        Self::Add(Box::new(a), Box::new(b))
    }

    pub fn new_sub(a: Expression<'a>, b: Expression<'a>) -> (r: Self)
        ensures
            r == Expression::Sub(Box::new(a), Box::new(b)),
    {
        Self::Sub(Box::new(a), Box::new(b))
    }

    pub fn new_mul(a: Expression<'a>, b: Expression<'a>) -> (r: Self)
        ensures
            r == Expression::Mul(Box::new(a), Box::new(b)),
    {
        Self::Mul(Box::new(a), Box::new(b))
    }

    pub fn new_div(a: Expression<'a>, b: Expression<'a>) -> (r: Self)
        ensures
            r == Expression::Div(Box::new(a), Box::new(b)),
    {
        Self::Div(Box::new(a), Box::new(b))
    }

    pub fn new_mod(a: Expression<'a>, b: Expression<'a>) -> (r: Self)
        ensures
            r == Expression::Mod(Box::new(a), Box::new(b)),
    {
        Self::Mod(Box::new(a), Box::new(b))
    }

    pub fn new_and(a: Expression<'a>, b: Expression<'a>) -> (r: Self)
        ensures
            r == Expression::And(Box::new(a), Box::new(b)),
    {
        Self::And(Box::new(a), Box::new(b))
    }

    pub fn new_or(a: Expression<'a>, b: Expression<'a>) -> (r: Self)
        ensures
            r == Expression::Or(Box::new(a), Box::new(b)),
    {
        Self::Or(Box::new(a), Box::new(b))
    }

    pub fn new_equals(a: Expression<'a>, b: Expression<'a>) -> (r: Self)
        ensures
            r == Expression::Equals(Box::new(a), Box::new(b)),
    {
        Self::Equals(Box::new(a), Box::new(b))
    }

    pub fn new_not_equals(a: Expression<'a>, b: Expression<'a>) -> (r: Self)
        ensures
            r == Expression::NotEquals(Box::new(a), Box::new(b)),
    {
        Self::NotEquals(Box::new(a), Box::new(b))
    }

    pub fn new_less_than_equals(a: Expression<'a>, b: Expression<'a>) -> (r: Self)
        ensures
            r == Expression::LessThanEquals(Box::new(a), Box::new(b)),
    {
        Self::LessThanEquals(Box::new(a), Box::new(b))
    }

    pub fn new_greater_than_equals(a: Expression<'a>, b: Expression<'a>) -> (r: Self)
        ensures
            r == Expression::GreaterThanEquals(Box::new(a), Box::new(b)),
    {
        Self::GreaterThanEquals(Box::new(a), Box::new(b))
    }

    pub fn new_less_than(a: Expression<'a>, b: Expression<'a>) -> (r: Self)
        ensures
            r == Expression::LessThan(Box::new(a), Box::new(b)),
    {
        Self::LessThan(Box::new(a), Box::new(b))
    }

    pub fn new_greater_than(a: Expression<'a>, b: Expression<'a>) -> (r: Self)
        ensures
            r == Expression::GreaterThan(Box::new(a), Box::new(b)),
    {
        Self::GreaterThan(Box::new(a), Box::new(b))
    }
}

impl<'a> From<ConstantValue> for Expression<'a> {
    fn from(value: ConstantValue) -> (r: Self) {
        Self::constant(value)
    }
}

impl<'a> vstd::std_specs::convert::FromSpecImpl<ConstantValue> for Expression<'a> {
    open spec fn obeys_from_spec() -> bool {
        true
    }

    open spec fn from_spec(value: ConstantValue) -> Self {
        Expression::Constant(value)
    }
}

impl<'a> Clone for Expression<'a> {
    fn clone(&self) -> (r: Self)
        ensures
            expression_ok(*self) ==> expression_ok(r),
        decreases self,
    {
        match self {
            Expression::Constant(c) => Expression::Constant(c.clone()),
            Expression::LValue(l) => Expression::LValue(l.clone()),
            Expression::Read => Expression::Read,
            Expression::Not(a) => Expression::Not(Box::new((**a).clone())),
            Expression::Add(a, b) => Expression::Add(Box::new((**a).clone()), Box::new((**b).clone())),
            Expression::Sub(a, b) => Expression::Sub(Box::new((**a).clone()), Box::new((**b).clone())),
            Expression::Mul(a, b) => Expression::Mul(Box::new((**a).clone()), Box::new((**b).clone())),
            Expression::Div(a, b) => Expression::Div(Box::new((**a).clone()), Box::new((**b).clone())),
            Expression::Mod(a, b) => Expression::Mod(Box::new((**a).clone()), Box::new((**b).clone())),
            Expression::And(a, b) => Expression::And(Box::new((**a).clone()), Box::new((**b).clone())),
            Expression::Or(a, b) => Expression::Or(Box::new((**a).clone()), Box::new((**b).clone())),
            Expression::Equals(a, b) => Expression::Equals(Box::new((**a).clone()), Box::new((**b).clone())),
            Expression::NotEquals(a, b) => Expression::NotEquals(Box::new((**a).clone()), Box::new((**b).clone())),
            Expression::LessThanEquals(a, b) => Expression::LessThanEquals(Box::new((**a).clone()), Box::new((**b).clone())),
            Expression::GreaterThanEquals(a, b) => Expression::GreaterThanEquals(Box::new((**a).clone()), Box::new((**b).clone())),
            Expression::LessThan(a, b) => Expression::LessThan(Box::new((**a).clone()), Box::new((**b).clone())),
            Expression::GreaterThan(a, b) => Expression::GreaterThan(Box::new((**a).clone()), Box::new((**b).clone())),
        }
    }
}

/// A statement of the BrainCrab language.
#[allow(inconsistent_fields)]
#[derive(Debug)]
pub enum Instruction<'a> {
    Define { name: &'a str, value_type: Option<Type>, mutable: bool, value: Expression<'a> },
    Assign { name: LValueExpression<'a>, value: Expression<'a> },
    AddAssign { name: &'a str, value: Expression<'a> },
    SubAssign { name: &'a str, value: Expression<'a> },
    Write { expression: Expression<'a> },
    Print { string: String },
    Scope { body: Vec<Instruction<'a>> },
    While { predicate: Expression<'a>, body: Vec<Instruction<'a>> },
    IfThenElse {
        predicate: Expression<'a>,
        if_body: Vec<Instruction<'a>>,
        else_body: Vec<Instruction<'a>>,
    },
    ForEach { loop_variable: &'a str, array: Expression<'a>, body: Vec<Instruction<'a>> },
}

/// A copy of a sequence of instructions.
pub fn clone_instructions<'a>(instructions: &Vec<Instruction<'a>>) -> (r: Vec<Instruction<'a>>)
    ensures
        r@.len() == instructions@.len(),
    decreases instructions,
{
    let mut result: Vec<Instruction<'a>> = Vec::new();
    let mut i: usize = 0;
    while i < instructions.len()
        invariant
            i <= instructions@.len(),
            result@.len() == i,
        decreases instructions@.len() - i,
    {
        proof {
            broadcast use vstd::std_specs::vec::axiom_vec_index_decreases;

            assert(decreases_to!(*instructions => instructions[i as int]));
        }
        result.push(instructions[i].clone());
        i = i + 1;
    }
    result
}

impl<'a> Clone for Instruction<'a> {
    fn clone(&self) -> (r: Self)
        decreases self,
    {
        match self {
            Instruction::Define { name, value_type, mutable, value } => Instruction::Define {
                name: *name,
                value_type: match value_type {
                    Some(t) => Some(t.clone()),
                    None => None,
                },
                mutable: *mutable,
                value: value.clone(),
            },
            Instruction::Assign { name, value } => Instruction::Assign { name: name.clone(), value: value.clone() },
            Instruction::AddAssign { name, value } => Instruction::AddAssign { name: *name, value: value.clone() },
            Instruction::SubAssign { name, value } => Instruction::SubAssign { name: *name, value: value.clone() },
            Instruction::Write { expression } => Instruction::Write { expression: expression.clone() },
            Instruction::Print { string } => Instruction::Print { string: string.clone() },
            Instruction::Scope { body } => {
                proof {
                    assert(decreases_to!(*self => self->Scope_body));
                }
                Instruction::Scope { body: clone_instructions(body) }
            },
            Instruction::While { predicate, body } => {
                proof {
                    assert(decreases_to!(*self => self->While_body));
                }
                Instruction::While { predicate: predicate.clone(), body: clone_instructions(body) }
            },
            Instruction::IfThenElse { predicate, if_body, else_body } => {
                proof {
                    assert(decreases_to!(*self => self->IfThenElse_if_body));
                    assert(decreases_to!(*self => self->IfThenElse_else_body));
                }
                Instruction::IfThenElse {
                    predicate: predicate.clone(),
                    if_body: clone_instructions(if_body),
                    else_body: clone_instructions(else_body),
                }
            },
            Instruction::ForEach { loop_variable, array, body } => {
                proof {
                    assert(decreases_to!(*self => self->ForEach_body));
                }
                Instruction::ForEach {
                    loop_variable: *loop_variable,
                    array: array.clone(),
                    body: clone_instructions(body),
                }
            },
        }
    }
}

/// A BrainCrab program.
#[derive(Debug)]
pub struct Program<'a> {
    pub instructions: Vec<Instruction<'a>>,
}

impl<'a> LValueExpression<'a> {
    /// Whether every constant of the indices is non-empty and well typed.
    pub fn constants_ok(&self) -> (r: bool)
        ensures
            r == lvalue_ok(*self),
        decreases self,
    {
        match self {
            LValueExpression::Variable(_) => true,
            LValueExpression::Index(_, indices) => {
                let ghost s = indices@;
                let mut i: usize = 0;
                proof {
                    assert(s.take(0) =~= Seq::<Expression<'a>>::empty());
                }
                while i < indices.len()
                    invariant
                        i <= indices@.len(),
                        s == indices@,
                        *self == LValueExpression::Index(self->Index_0, *indices),
                        expressions_ok(s.take(i as int)),
                    decreases indices@.len() - i,
                {
                    proof {
                        broadcast use vstd::std_specs::vec::axiom_vec_index_decreases;

                        assert(decreases_to!(*indices => indices[i as int]));
                        assert(decreases_to!(*self => self->Index_1));
                        assert(s.take(i + 1).drop_last() =~= s.take(i as int));
                    }
                    if !indices[i].constants_ok() {
                        proof {
                            if expressions_ok(s) {
                                lemma_expressions_ok_index(s, i as int);
                            }
                        }
                        return false;
                    }
                    i = i + 1;
                }
                assert(s.take(i as int) =~= s);
                true
            },
        }
    }
}

impl<'a> Expression<'a> {
    /// Whether every constant of the expression is non-empty and well typed.
    pub fn constants_ok(&self) -> (r: bool)
        ensures
            r == expression_ok(*self),
        decreases self,
    {
        match self {
            Expression::Constant(c) => c.is_placeable(),
            Expression::LValue(l) => l.constants_ok(),
            Expression::Read => true,
            Expression::Not(a) => (**a).constants_ok(),
            Expression::Add(a, b) => (**a).constants_ok() && (**b).constants_ok(),
            Expression::Sub(a, b) => (**a).constants_ok() && (**b).constants_ok(),
            Expression::Mul(a, b) => (**a).constants_ok() && (**b).constants_ok(),
            Expression::Div(a, b) => (**a).constants_ok() && (**b).constants_ok(),
            Expression::Mod(a, b) => (**a).constants_ok() && (**b).constants_ok(),
            Expression::And(a, b) => (**a).constants_ok() && (**b).constants_ok(),
            Expression::Or(a, b) => (**a).constants_ok() && (**b).constants_ok(),
            Expression::Equals(a, b) => (**a).constants_ok() && (**b).constants_ok(),
            Expression::NotEquals(a, b) => (**a).constants_ok() && (**b).constants_ok(),
            Expression::LessThanEquals(a, b) => (**a).constants_ok() && (**b).constants_ok(),
            Expression::GreaterThanEquals(a, b) => (**a).constants_ok() && (**b).constants_ok(),
            Expression::LessThan(a, b) => (**a).constants_ok() && (**b).constants_ok(),
            Expression::GreaterThan(a, b) => (**a).constants_ok() && (**b).constants_ok(),
        }
    }
}

/// Whether every constant of the instructions is non-empty and well typed.
pub fn instructions_constants_ok<'a>(instructions: &Vec<Instruction<'a>>) -> (r: bool)
    ensures
        r == instructions_ok(instructions@),
    decreases instructions,
{
    let ghost s = instructions@;
    let mut i: usize = 0;
    proof {
        assert(s.take(0) =~= Seq::<Instruction<'a>>::empty());
    }
    while i < instructions.len()
        invariant
            i <= instructions@.len(),
            s == instructions@,
            instructions_ok(s.take(i as int)),
        decreases instructions@.len() - i,
    {
        proof {
            broadcast use vstd::std_specs::vec::axiom_vec_index_decreases;

            assert(decreases_to!(*instructions => instructions[i as int]));
            assert(s.take(i + 1).drop_last() =~= s.take(i as int));
        }
        if !instructions[i].constants_ok() {
            proof {
                if instructions_ok(s) {
                    lemma_instructions_ok_index(s, i as int);
                }
            }
            return false;
        }
        i = i + 1;
    }
    assert(s.take(i as int) =~= s);
    true
}

impl<'a> Instruction<'a> {
    /// Whether every constant of the instruction is non-empty and well typed.
    pub fn constants_ok(&self) -> (r: bool)
        ensures
            r == instruction_ok(*self),
        decreases self,
    {
        match self {
            Instruction::Define { value, .. } => value.constants_ok(),
            Instruction::Assign { name, value } => name.constants_ok() && value.constants_ok(),
            Instruction::AddAssign { value, .. } => value.constants_ok(),
            Instruction::SubAssign { value, .. } => value.constants_ok(),
            Instruction::Write { expression } => expression.constants_ok(),
            Instruction::Print { .. } => true,
            Instruction::Scope { body } => {
                proof {
                    assert(decreases_to!(*self => self->Scope_body));
                }
                instructions_constants_ok(body)
            },
            Instruction::While { predicate, body } => {
                proof {
                    assert(decreases_to!(*self => self->While_body));
                }
                predicate.constants_ok() && instructions_constants_ok(body)
            },
            Instruction::IfThenElse { predicate, if_body, else_body } => {
                proof {
                    assert(decreases_to!(*self => self->IfThenElse_if_body));
                    assert(decreases_to!(*self => self->IfThenElse_else_body));
                }
                predicate.constants_ok() && instructions_constants_ok(if_body) && instructions_constants_ok(
                    else_body,
                )
            },
            Instruction::ForEach { array, body, .. } => {
                proof {
                    assert(decreases_to!(*self => self->ForEach_body));
                }
                array.constants_ok() && instructions_constants_ok(body)
            },
        }
    }
}

impl<'a> Program<'a> {
    /// Whether every constant of the program is non-empty and well typed, as the compiler
    /// needs.
    pub fn constants_ok(&self) -> (r: bool)
        ensures
            r == instructions_ok(self.instructions@),
    {
        instructions_constants_ok(&self.instructions)
    }
}

} // verus!
