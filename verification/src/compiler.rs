use vstd::prelude::*;

use crate::abf::abf_ast::{ABFProgram, SpecABF};
use crate::abf::abf_optimizer::{deep_declared, instr_declared, instr_well_declared, lemma_declared_push, well_declared};
use crate::abf::abf_program_builder::ABFProgramBuilder;
use crate::ast::{
    expression_ok, instructions_ok, lemma_expressions_ok_index, lemma_instructions_ok_index, lvalue_ok,
    Expression, Instruction, LValueExpression, Program,
};
use crate::compiler_error::{CompileResult, CompilerError};
use crate::constant_value::{constant_data, constant_type, no_empty_arrays, ConstantValue, SpecConstant};
use crate::abf::abf_semantics::{cell, lemma_run_append, run_seq, AbfState};
use crate::emitted_code::{
    and_code, lemma_run_and, lemma_run_owned_copy, adds, ascii_bytes, assign_code, branch_check, branch_setup, branches, clear_all_code, clear_code, column, copy_code, declarations,
    doubling_code, move_code, move_loop, numbered_from, overlapping, owned_copy_code, print_code, repeat_code, sizes_match,
    write_all_code, zeros,
};
use crate::types::Type;
use crate::value::{LValue, Value};

verus! {

/// A value as the compiler holds it: the ABF variables that store it, in order, its type,
/// whether it may be changed, and whether it owns its variables or only borrows them.
#[derive(Debug)]
pub struct CompiledValue {
    pub addresses: Vec<u16>,
    pub value_type: Type,
    pub mutable: bool,
    pub owned: bool,
}

impl CompiledValue {
    /// Every variable of the value was declared before `counter`.
    pub open spec fn below(&self, counter: u16) -> bool {
        forall|i: int| 0 <= i < self.addresses@.len() ==> #[trigger] self.addresses@[i] < counter
    }

    /// An immutable value over `addresses`.
    pub fn new(addresses: Vec<u16>, value_type: Type, owned: bool) -> (r: Self)
        ensures
            r.addresses == addresses,
            r.value_type == value_type,
            !r.mutable,
            r.owned == owned,
    {
        Self { addresses, value_type, mutable: false, owned }
    }

    /// The same variables, borrowed.
    pub fn borrow(&self) -> (r: Self)
        ensures
            r.addresses@ == self.addresses@,
            r.value_type == self.value_type,
            r.mutable == self.mutable,
            !r.owned,
    {
        Self { addresses: self.addresses.clone(), value_type: self.value_type.clone(), mutable: self.mutable, owned: false }
    }

    pub fn is_owned(&self) -> (r: bool)
        ensures
            r == self.owned,
    {
        self.owned
    }

    /// The first variable of the value.
    pub fn address(&self) -> (r: u16)
        requires
            self.addresses@.len() > 0,
        ensures
            r == self.addresses@[0],
    {
        self.addresses[0]
    }

    /// The number of variables of the value.
    pub fn size(&self) -> (r: usize)
        ensures
            r == self.addresses@.len(),
    {
        self.addresses.len()
    }

    /// `Ok` exactly when the value has the expected type.
    pub fn type_check<'a>(&self, expected: &Type) -> (r: CompileResult<'a, ()>)
        ensures
            self.value_type == *expected ==> r is Ok,
            self.value_type != *expected ==> r == Err::<(), CompilerError<'a>>(
                CompilerError::TypeError { expected: *expected, actual: self.value_type },
            ),
    {
        if self.value_type == *expected {
            Ok(())
        } else {
            Err(CompilerError::TypeError { expected: expected.clone(), actual: self.value_type.clone() })
        }
    }

    /// The variables from `start` to `end`, borrowed, as a value of type `value_type`.
    pub fn borrow_slice(&self, start: usize, end: usize, value_type: Type) -> (r: Self)
        requires
            start <= end <= self.addresses@.len(),
        ensures
            r.addresses@ == self.addresses@.subrange(start as int, end as int),
            r.value_type == value_type,
            r.mutable == self.mutable,
            !r.owned,
    {
        let mut addresses: Vec<u16> = Vec::new();
        let mut i = start;
        while i < end
            invariant
                start <= i <= end <= self.addresses@.len(),
                addresses@ == self.addresses@.subrange(start as int, i as int),
            decreases end - i,
        {
            addresses.push(self.addresses[i]);
            i = i + 1;
            assert(addresses@ =~= self.addresses@.subrange(start as int, i as int));
        }
        Self { addresses, value_type, mutable: self.mutable, owned: false }
    }

    /// The value as the error reports it: its first variable, its type and its flags.
    pub fn to_value(&self) -> (r: Value)
        ensures
            r matches Value::LValue(l) && l.value_type == self.value_type && l.mutable == self.mutable
                && l.owned == self.owned,
    {
        let address = if self.addresses.len() > 0 {
            self.addresses[0]
        } else {
            0
        };
        Value::LValue(LValue { address, value_type: self.value_type.clone(), mutable: self.mutable, owned: self.owned })
    }
}

/// The number of cells of a type; `None` where it does not fit in a `u16`.
pub fn checked_size(t: &Type) -> (r: Option<u16>)
    ensures
        t.size_fits() ==> r == Some(t.spec_size() as u16),
        !t.size_fits() ==> r is None,
    decreases t,
{
    match t {
        Type::U8 => Some(1),
        Type::Bool => Some(1),
        Type::Array { element_type, len } => match checked_size(element_type) {
            Some(s) => {
                assert(s as u32 * (*len as u32) <= 65535 * 255) by (nonlinear_arith)
                    requires
                        s <= 65535,
                        *len <= 255,
                ;
                let total: u32 = s as u32 * (*len as u32);
                assert(total == element_type.spec_size() * (*len as nat)) by (nonlinear_arith)
                    requires
                        s == element_type.spec_size(),
                        total == s as u32 * (*len as u32),
                ;
                if total <= 65535 {
                    Some(total as u16)
                } else {
                    None
                }
            },
            None => None,
        },
    }
}

/// The two names are the same text.
fn same_name(a: &str, b: &str) -> (r: bool)
    ensures
        r == (a@ == b@),
{
    let n = a.unicode_len();
    if n != b.unicode_len() {
        return false;
    }
    let mut i: usize = 0;
    while i < n
        invariant
            n == a@.len() == b@.len(),
            i <= n,
            forall|k: int| 0 <= k < i ==> a@[k] == b@[k],
        decreases n - i,
    {
        if a.get_char(i) != b.get_char(i) {
            return false;
        }
        i = i + 1;
    }
    assert(a@ =~= b@);
    true
}

/// The value a scope holds under `name`: the first entry of that name.
pub open spec fn find_in_scope<'a>(scope: Seq<(&'a str, CompiledValue)>, name: Seq<char>) -> Option<CompiledValue>
    decreases scope.len(),
{
    if scope.len() == 0 {
        None
    } else if scope[0].0@ == name {
        Some(scope[0].1)
    } else {
        find_in_scope(scope.drop_first(), name)
    }
}

/// The value the scopes hold under `name`, the innermost scope first.
pub open spec fn find_in_scopes<'a>(scopes: Seq<Seq<(&'a str, CompiledValue)>>, name: Seq<char>) -> Option<CompiledValue>
    decreases scopes.len(),
{
    if scopes.len() == 0 {
        None
    } else {
        match find_in_scope(scopes.last(), name) {
            Some(v) => Some(v),
            None => find_in_scopes(scopes.drop_last(), name),
        }
    }
}

/// Where the scope holds `name` first.
fn position_in_scope<'a>(scope: &Vec<(&'a str, CompiledValue)>, name: &'a str) -> (r: Option<usize>)
    ensures
        r matches Some(j) ==> j < scope@.len() && scope@[j as int].0@ == name@ && find_in_scope(scope@, name@)
            == Some(scope@[j as int].1) && forall|q: int| 0 <= q < j ==> scope@[q].0@ != name@,
        r is None ==> find_in_scope(scope@, name@) is None && forall|q: int| 0 <= q < scope@.len() ==> scope@[q].0@ != name@,
{
    let mut j: usize = 0;
    while j < scope.len()
        invariant
            j <= scope@.len(),
            forall|q: int| 0 <= q < j ==> scope@[q].0@ != name@,
        decreases scope@.len() - j,
    {
        if same_name(scope[j].0, name) {
            proof {
                lemma_find_first(scope@, name@, j as int);
            }
            return Some(j);
        }
        j = j + 1;
    }
    proof {
        lemma_find_none(scope@, name@);
    }
    None
}

proof fn lemma_find_none<'a>(scope: Seq<(&'a str, CompiledValue)>, name: Seq<char>)
    requires
        forall|q: int| 0 <= q < scope.len() ==> scope[q].0@ != name,
    ensures
        find_in_scope(scope, name) is None,
    decreases scope.len(),
{
    if scope.len() > 0 {
        assert forall|q: int| 0 <= q < scope.drop_first().len() implies scope.drop_first()[q].0@ != name by {
            assert(scope.drop_first()[q] == scope[q + 1]);
        }
        lemma_find_none(scope.drop_first(), name);
    }
}

/// The variables of a BrainCrab program, in nested scopes: the innermost is last.
#[derive(Debug)]
pub struct ScopedVariableMap<'a> {
    pub variable_map_stack: Vec<Vec<(&'a str, CompiledValue)>>,
}

impl<'a> ScopedVariableMap<'a> {
    /// The scopes as sequences of entries.
    pub open spec fn scopes(&self) -> Seq<Seq<(&'a str, CompiledValue)>> {
        Seq::new(self.variable_map_stack@.len(), |k: int| self.variable_map_stack@[k]@)
    }

    /// Every value held was declared before `counter`.
    pub open spec fn all_below(&self, counter: u16) -> bool {
        forall|k: int, j: int|
            0 <= k < self.variable_map_stack@.len() && 0 <= j < self.variable_map_stack@[k]@.len()
                ==> (#[trigger] self.variable_map_stack@[k]@[j]).1.below(counter)
    }

    /// A borrow of the innermost variable called `name`.
    pub fn borrow_variable(&self, name: &'a str) -> (r: Option<CompiledValue>)
        ensures
            find_in_scopes(self.scopes(), name@) is None ==> r is None,
            find_in_scopes(self.scopes(), name@) matches Some(v) ==> (r matches Some(b) && b.addresses@
                == v.addresses@ && b.value_type == v.value_type && b.mutable == v.mutable && !b.owned),
    {
        let mut k = self.variable_map_stack.len();
        proof {
            assert(self.scopes().take(k as int) =~= self.scopes());
        }
        while k > 0
            invariant
                k <= self.variable_map_stack@.len(),
                find_in_scopes(self.scopes(), name@) == find_in_scopes(self.scopes().take(k as int), name@),
            decreases k,
        {
            let ghost sc = self.scopes().take(k as int);
            proof {
                assert(sc.last() == self.variable_map_stack@[k - 1]@);
                assert(sc.drop_last() =~= self.scopes().take(k - 1));
            }
            match position_in_scope(&self.variable_map_stack[k - 1], name) {
                Some(j) => {
                    return Some(self.variable_map_stack[k - 1][j].1.borrow());
                },
                None => {},
            }
            k = k - 1;
        }
        None
    }

    /// The innermost scope holds a variable called `name`.
    pub fn defined_in_current_scope(&mut self, name: &'a str) -> (r: bool)
        requires
            old(self).variable_map_stack@.len() > 0,
        ensures
            r == find_in_scope(old(self).scopes().last(), name@) is Some,
            *final(self) == *old(self),
    {
        let n = self.variable_map_stack.len();
        assert(self.scopes().last() == self.variable_map_stack@[n - 1]@);
        position_in_scope(&self.variable_map_stack[n - 1], name).is_some()
    }

    /// Holds `value` under `name` in the innermost scope, in place of what it held there.
    pub fn register(&mut self, name: &'a str, value: CompiledValue)
        requires
            old(self).variable_map_stack@.len() > 0,
        ensures
            final(self).variable_map_stack@.len() == old(self).variable_map_stack@.len(),
            find_in_scopes(final(self).scopes(), name@) == Some(value),
            forall|k: int| 0 <= k < old(self).variable_map_stack@.len() - 1 ==> #[trigger] final(self).variable_map_stack@[k] == old(self).variable_map_stack@[k],
            forall|j: int|
                0 <= j < final(self).variable_map_stack@.last()@.len() ==> ((#[trigger] final(self).variable_map_stack@.last()@[j]).1 == value
                    || exists|q: int| 0 <= q < old(self).variable_map_stack@.last()@.len() && old(self).variable_map_stack@.last()@[q] == final(self).variable_map_stack@.last()@[j]),
    {
        let mut scope = self.variable_map_stack.pop().unwrap();
        let ghost old_scope = scope@;
        let position = position_in_scope(&scope, name);
        let found = position.is_some();
        let j: usize = match position {
            Some(j) => j,
            None => 0,
        };
        let ghost value_copy = value;
        if found {
            scope.set(j, (name, value));
        } else {
            let mut fresh: Vec<(&'a str, CompiledValue)> = Vec::new();
            fresh.push((name, value));
            fresh.append(&mut scope);
            scope = fresh;
        }
        proof {
            if found {
                assert forall|q: int| 0 <= q < j implies scope@[q].0@ != name@ by {
                    assert(scope@[q] == old_scope[q]);
                }
                lemma_find_first(scope@, name@, j as int);
            } else {
                assert(scope@[0] == (name, value_copy));
            }
            assert forall|q: int| 0 <= q < scope@.len() implies ((#[trigger] scope@[q]).1 == value_copy
                || exists|p: int| 0 <= p < old_scope.len() && old_scope[p] == scope@[q]) by {
                if found {
                    if q != j {
                        assert(scope@[q] == old_scope[q]);
                    }
                } else if q > 0 {
                    assert(scope@[q] == old_scope[q - 1]);
                }
            }
        }
        self.variable_map_stack.push(scope);
        proof {
            assert(self.scopes().last() == scope@);
            assert(self.variable_map_stack@.last()@ == scope@);
            assert(old_scope == old(self).variable_map_stack@.last()@);
        }
    }

    pub fn start_scope(&mut self)
        ensures
            final(self).variable_map_stack@.len() == old(self).variable_map_stack@.len() + 1,
            final(self).variable_map_stack@.last()@.len() == 0,
            forall|k: int| 0 <= k < old(self).variable_map_stack@.len() ==> #[trigger] final(self).variable_map_stack@[k] == old(self).variable_map_stack@[k],
    {
        self.variable_map_stack.push(Vec::new());
    }

    pub fn end_scope(&mut self)
        requires
            old(self).variable_map_stack@.len() > 0,
        ensures
            final(self).variable_map_stack@ == old(self).variable_map_stack@.drop_last(),
    {
        self.variable_map_stack.pop().unwrap();
    }
}

proof fn lemma_find_first<'a>(scope: Seq<(&'a str, CompiledValue)>, name: Seq<char>, j: int)
    requires
        0 <= j < scope.len(),
        scope[j].0@ == name,
        forall|q: int| 0 <= q < j ==> scope[q].0@ != name,
    ensures
        find_in_scope(scope, name) == Some(scope[j].1),
    decreases j,
{
    if j > 0 {
        lemma_find_first(scope.drop_first(), name, j - 1);
    }
}

impl<'a> Default for ScopedVariableMap<'a> {
    fn default() -> (r: Self)
        ensures
            r.variable_map_stack@.len() == 1,
            r.variable_map_stack@[0]@.len() == 0,
    {
        let mut variable_map_stack: Vec<Vec<(&'a str, CompiledValue)>> = Vec::new();
        variable_map_stack.push(Vec::new());
        Self { variable_map_stack }
    }
}


/// Every variable below `counter`, and no other, is in `ctx` or declared by `program`.
pub open spec fn declared_below(ctx: Set<u16>, program: Seq<SpecABF>, counter: u16) -> bool {
    forall|a: u16| #[trigger] (ctx + deep_declared(program)).contains(a) <==> a < counter
}

/// The variables below `counter`.
pub open spec fn below_set(counter: u16) -> Set<u16> {
    Set::new(|a: u16| a < counter)
}

/// An instruction that declares nothing and mentions only variables below `counter` keeps the
/// program well declared.
proof fn lemma_push_use(p: Seq<SpecABF>, x: SpecABF, ctx: Set<u16>, counter: u16)
    requires
        well_declared(p, ctx),
        declared_below(ctx, p, counter),
        instr_declared(x) =~= Set::<u16>::empty(),
        instr_well_declared(x, ctx + deep_declared(p)),
    ensures
        well_declared(p.push(x), ctx),
        declared_below(ctx, p.push(x), counter),
{
    lemma_declared_push(p, x, ctx);
    assert(deep_declared(p.push(x)) =~= deep_declared(p));
}

/// Copying `source` into the destinations with the variables numbered from `counter` on free
/// succeeds: an owned source is moved, which needs the sizes to match and no variable shared at
/// the same place; a borrowed one needs besides as many new variables as its type has cells,
/// and that to be the number of its variables.
#[verifier::opaque]
pub open spec fn copy_succeeds(source: CompiledValue, destinations: Seq<Seq<u16>>, counter: u16) -> bool {
    &&& sizes_match(source.addresses@, destinations)
    &&& !overlapping(source.addresses@, destinations)
    &&& !source.owned ==> {
        &&& source.value_type.size_fits()
        &&& counter + source.value_type.spec_size() <= u16::MAX
        &&& source.addresses@.len() == source.value_type.spec_size()
    }
}

/// Giving `value` variables of its own, with the variables numbered from `counter` on free,
/// succeeds: an owned value needs none; a borrowed one needs twice as many new variables as its
/// type has cells, and that to be the number of its variables.
pub open spec fn owned_copy_fits(value: CompiledValue, counter: u16) -> bool {
    value.owned || (value.value_type.size_fits() && counter + 2 * value.value_type.spec_size() <= u16::MAX
        && value.addresses@.len() == value.value_type.spec_size())
}

/// The same variables, borrowed.
pub open spec fn borrowed(v: CompiledValue) -> CompiledValue {
    CompiledValue { owned: false, ..v }
}

/// The variables that comparing `a` with `b` takes for copies of them: none for an owned value,
/// twice its cells for a borrowed one.
pub open spec fn compare_copies(a: CompiledValue, b: CompiledValue) -> nat {
    (if a.owned { 0 } else { 2 * a.value_type.spec_size() }) + (if b.owned { 0 } else { 2 * b.value_type.spec_size() })
}

/// The variables that comparing `a` with `b` takes: the copies, the result, the loop flag, and
/// for each of the two a flag and a copy of its cells in its branch.
pub open spec fn compare_cost(a: CompiledValue, b: CompiledValue) -> nat {
    compare_copies(a, b) + 4 + 2 * a.value_type.spec_size() + 2 * b.value_type.spec_size()
}

/// Comparing `a` with `b`, with the variables numbered from `counter` on free, succeeds: both
/// types fit, each value has a variable for each cell of its type and at least one, and the
/// variables it takes are left.
pub open spec fn compare_fits(a: CompiledValue, b: CompiledValue, counter: u16) -> bool {
    &&& a.value_type.size_fits()
    &&& b.value_type.size_fits()
    &&& a.addresses@.len() == a.value_type.spec_size()
    &&& b.addresses@.len() == b.value_type.spec_size()
    &&& a.addresses@.len() > 0
    &&& b.addresses@.len() > 0
    &&& counter + compare_cost(a, b) <= u16::MAX
}

/// The variable that the instruction changes before it computes anything: the one it assigns
/// to, adds to or takes from.
pub open spec fn first_target<'a>(i: Instruction<'a>) -> Option<&'a str> {
    match i {
        Instruction::Assign { name, .. } => match name {
            LValueExpression::Variable(n) => Some(n),
            LValueExpression::Index(n, _) => Some(n),
        },
        Instruction::AddAssign { name, .. } => Some(name),
        Instruction::SubAssign { name, .. } => Some(name),
        _ => None,
    }
}

/// The type of the expression is known and is not `t`.
pub open spec fn mistyped<'a>(e: Expression<'a>, t: Type) -> bool {
    static_type(e) matches Some(s) && s != t
}

/// An operand of the expression has a known type that its operator does not take: arithmetic
/// and `==`, `!=` take `u8`, `!`, `&&` and `||` take `bool`.
pub open spec fn operands_mistyped<'a>(e: Expression<'a>) -> bool {
    match e {
        Expression::Add(x, y) => mistyped(*x, Type::U8) || mistyped(*y, Type::U8),
        Expression::Sub(x, y) => mistyped(*x, Type::U8) || mistyped(*y, Type::U8),
        Expression::Mul(x, y) => mistyped(*x, Type::U8) || mistyped(*y, Type::U8),
        Expression::Div(x, y) => mistyped(*x, Type::U8) || mistyped(*y, Type::U8),
        Expression::Mod(x, y) => mistyped(*x, Type::U8) || mistyped(*y, Type::U8),
        Expression::Equals(x, y) => mistyped(*x, Type::U8) || mistyped(*y, Type::U8),
        Expression::NotEquals(x, y) => mistyped(*x, Type::U8) || mistyped(*y, Type::U8),
        Expression::Not(x) => mistyped(*x, Type::Bool),
        Expression::And(x, y) => mistyped(*x, Type::Bool) || mistyped(*y, Type::Bool),
        Expression::Or(x, y) => mistyped(*x, Type::Bool) || mistyped(*y, Type::Bool),
        _ => false,
    }
}

/// The variables of each value.
pub open spec fn addresses_of(values: Seq<CompiledValue>) -> Seq<Seq<u16>> {
    Seq::new(values.len(), |k: int| values[k].addresses@)
}

/// A loop being compiled: the builder of the code around it, and what that code could use.
pub struct LoopFrame {
    parent: ABFProgramBuilder,
    parent_ctx: Ghost<Set<u16>>,
}

impl LoopFrame {
    /// The code around the loop is well declared from what it could use, and declares every
    /// variable below its counter.
    pub closed spec fn wf(&self) -> bool {
        &&& well_declared(self.parent.program@, self.parent_ctx@)
        &&& declared_below(self.parent_ctx@, self.parent.program@, self.parent.value_counter)
    }

    /// The variables declared before the loop began.
    pub closed spec fn start(&self) -> u16 {
        self.parent.value_counter
    }

    /// What the code around the loop could use.
    pub closed spec fn ctx(&self) -> Set<u16> {
        self.parent_ctx@
    }

    /// The code around the loop, built before it.
    pub closed spec fn code(&self) -> Seq<SpecABF> {
        self.parent.program@
    }
}

/// Compiles a BrainCrab program to ABF: each value lives in numbered variables, declared in
/// order.
pub struct BrainCrabCompiler<'a> {
    pub variable_map: ScopedVariableMap<'a>,
    pub builder: ABFProgramBuilder,
    pub ctx: Ghost<Set<u16>>,
}

impl<'a> BrainCrabCompiler<'a> {
    /// The code built so far is well declared from what the enclosing code could use, every
    /// variable below the counter is declared, and every variable held is below the counter.
    pub closed spec fn inv(&self) -> bool {
        &&& self.variable_map.variable_map_stack@.len() >= 1
        &&& well_declared(self.builder.program@, self.ctx@)
        &&& declared_below(self.ctx@, self.builder.program@, self.builder.value_counter)
        &&& self.variable_map.all_below(self.builder.value_counter)
    }

    /// The number of variables declared so far.
    pub closed spec fn counter(&self) -> u16 {
        self.builder.value_counter
    }

    /// The number of scopes open.
    pub closed spec fn depth(&self) -> nat {
        self.variable_map.variable_map_stack@.len()
    }

    /// What the enclosing code could use.
    pub closed spec fn ctx(&self) -> Set<u16> {
        self.ctx@
    }

    /// The scopes of variables, innermost last.
    pub closed spec fn scope_stack(&self) -> Seq<Vec<(&'a str, CompiledValue)>> {
        self.variable_map.variable_map_stack@
    }

    /// The code built so far in the innermost loop body, or in the program outside any loop.
    pub closed spec fn code(&self) -> Seq<SpecABF> {
        self.builder.program@
    }

    /// The compiler went on from `before`: it is consistent, declared no fewer variables, and
    /// is in the same loop with as many scopes open.
    pub open spec fn continues(&self, before: &Self) -> bool {
        &&& self.inv()
        &&& self.counter() >= before.counter()
        &&& self.ctx() == before.ctx()
        &&& self.depth() == before.depth()
    }

    pub fn new() -> (r: Self)
        ensures
            r.inv(),
            r.depth() == 1,
            r.counter() == 0,
            r.ctx() == Set::<u16>::empty(),
            r.code() == Seq::<SpecABF>::empty(),
            r.variable_map.scopes() == seq![Seq::<(&'a str, CompiledValue)>::empty()],
    {
        let r = Self { variable_map: ScopedVariableMap::default(), builder: ABFProgramBuilder::new(), ctx: Ghost(Set::empty()) };
        assert(r.variable_map.variable_map_stack@[0]@ =~= Seq::<(&'a str, CompiledValue)>::empty());
        assert(r.variable_map.scopes() =~= seq![Seq::<(&'a str, CompiledValue)>::empty()]);
        assert(deep_declared(Seq::<SpecABF>::empty()) =~= Set::<u16>::empty());
        r
    }

    /// The ABF program compiled.
    pub fn get_result(self) -> (r: CompileResult<'a, ABFProgram>)
        requires
            self.inv(),
            self.ctx() == Set::<u16>::empty(),
        ensures
            r matches Ok(p) && p@ == self.code() && well_declared(p@, Set::empty()),
    {
        Ok(self.builder.build())
    }

    /// Declares the next variable with `value`; an error where no variable number is left.
    fn new_address(&mut self, value: u8) -> (r: CompileResult<'a, u16>)
        requires
            old(self).inv(),
        ensures
            r matches Ok(a) ==> a == old(self).counter() && final(self).counter() == old(self).counter() + 1
                && final(self).ctx() == old(self).ctx() && final(self).depth() == old(self).depth() && final(self).inv()
                && final(self).code() == old(self).code().push(SpecABF::New(a, value)),
            r is Err <==> old(self).counter() == u16::MAX,
            r matches Err(e) ==> e is NoFreeAddresses,
            final(self).scope_stack() == old(self).scope_stack(),
            r is Err ==> *final(self) == *old(self),
    {
        if self.builder.value_counter == u16::MAX {
            return Err(CompilerError::NoFreeAddresses);
        }
        let ghost p = self.builder.program@;
        let a = self.builder.new_address(value);
        proof {
            lemma_declared_push(p, SpecABF::New(a, value), self.ctx@);
            assert(instr_declared(SpecABF::New(a, value)) =~= set![a]);
            assert forall|b: u16| #[trigger] (self.ctx@ + deep_declared(self.builder.program@)).contains(b) <==> b < self.builder.value_counter by {
                assert((old(self).ctx@ + deep_declared(p)).contains(b) <==> b < old(self).builder.value_counter);
            }
            assert forall|k: int, j: int|
                0 <= k < self.variable_map.variable_map_stack@.len() && 0 <= j < self.variable_map.variable_map_stack@[k]@.len()
                    implies (#[trigger] self.variable_map.variable_map_stack@[k]@[j]).1.below(self.builder.value_counter) by {
                assert(old(self).variable_map.variable_map_stack@[k]@[j].1.below(old(self).builder.value_counter));
            }
        }
        Ok(a)
    }

    /// New variables, all zero, for a value of the type; an error where the type or the
    /// variables needed do not fit in the variable numbers.
    pub fn allocate(&mut self, value_type: Type) -> (r: CompileResult<'a, CompiledValue>)
        requires
            old(self).inv(),
        ensures
            r matches Ok(v) ==> final(self).continues(&*old(self)) && v.value_type == value_type && v.owned && !v.mutable
                && v.below(final(self).counter()) && v.addresses@.len() == value_type.spec_size()
                && v.addresses@ == numbered_from(old(self).counter(), value_type.spec_size())
                && final(self).counter() == old(self).counter() + value_type.spec_size()
                && final(self).code() == old(self).code() + declarations(old(self).counter(), zeros(value_type.spec_size())),
            r is Err <==> !value_type.size_fits() || old(self).counter() + value_type.spec_size() > u16::MAX,
            r matches Err(e) ==> e is NoFreeAddresses,
            final(self).scope_stack() == old(self).scope_stack(),
    {
        proof { reveal(declarations); reveal(numbered_from); reveal(zeros); reveal(clear_all_code); reveal(write_all_code); reveal(move_code); reveal(owned_copy_code); reveal(assign_code); reveal(doubling_code); reveal(repeat_code); reveal(copy_code); reveal(copy_succeeds); }
        let size = match checked_size(&value_type) {
            Some(s) => s,
            None => return Err(CompilerError::NoFreeAddresses),
        };
        let mut addresses: Vec<u16> = Vec::new();
        let mut i: u16 = 0;
        while i < size
            invariant
                i <= size,
                size == value_type.spec_size(),
                addresses@.len() == i,
                self.continues(&*old(self)),
                self.scope_stack() == old(self).scope_stack(),
                self.counter() == old(self).counter() + i,
                addresses@ == numbered_from(old(self).counter(), i as nat),
                self.code() == old(self).code() + declarations(old(self).counter(), zeros(i as nat)),
                forall|k: int| 0 <= k < addresses@.len() ==> #[trigger] addresses@[k] < self.counter(),
            decreases size - i,
        {
            proof { reveal(declarations); reveal(numbered_from); reveal(zeros); reveal(clear_all_code); reveal(write_all_code); reveal(move_code); reveal(owned_copy_code); reveal(assign_code); reveal(doubling_code); reveal(repeat_code); reveal(copy_code); reveal(copy_succeeds); }
            let ghost before = self.code();
            let a = self.new_address(0)?;
            addresses.push(a);
            i = i + 1;
            assert(addresses@ =~= numbered_from(old(self).counter(), i as nat));
            assert(declarations(old(self).counter(), zeros(i as nat)) =~= declarations(old(self).counter(), zeros((i - 1) as nat)).push(
                SpecABF::New(a, 0u8),
            ));
            assert(self.code() =~= old(self).code() + declarations(old(self).counter(), zeros(i as nat)));
        }
        Ok(CompiledValue::new(addresses, value_type, true))
    }

    /// Holds `value` under `name` in the innermost scope and gives a borrow of it; an error
    /// where that scope already holds the name.
    pub fn register_variable(&mut self, name: &'a str, value: CompiledValue) -> (r: CompileResult<'a, CompiledValue>)
        requires
            old(self).inv(),
            value.below(old(self).counter()),
        ensures
            find_in_scope(old(self).variable_map.scopes().last(), name@) is Some ==> r == Err::<CompiledValue, CompilerError<'a>>(
                CompilerError::AlreadyDefinedVariable(name),
            ),
            find_in_scope(old(self).variable_map.scopes().last(), name@) is None ==> (r matches Ok(b) && final(self).continues(&*old(self))
                && b.addresses@ == value.addresses@ && b.value_type == value.value_type && b.mutable == value.mutable
                && !b.owned && find_in_scopes(final(self).variable_map.scopes(), name@) == Some(value)
                && final(self).code() == old(self).code()),
    {
        if self.variable_map.defined_in_current_scope(name) {
            Err(CompilerError::AlreadyDefinedVariable(name))
        } else {
            let borrowed = value.borrow();
            let ghost counter = self.builder.value_counter;
            self.variable_map.register(name, value);
            proof {
                let n = self.variable_map.variable_map_stack@.len();
                assert forall|k: int, j: int|
                    0 <= k < n && 0 <= j < self.variable_map.variable_map_stack@[k]@.len()
                        implies (#[trigger] self.variable_map.variable_map_stack@[k]@[j]).1.below(counter) by {
                    if k < n - 1 {
                        assert(self.variable_map.variable_map_stack@[k] == old(self).variable_map.variable_map_stack@[k]);
                    } else {
                        let e = self.variable_map.variable_map_stack@[k]@[j];
                        assert(e == self.variable_map.variable_map_stack@.last()@[j]);
                        if e.1 != value {
                            let q = choose|q: int| 0 <= q < old(self).variable_map.variable_map_stack@.last()@.len()
                                && old(self).variable_map.variable_map_stack@.last()@[q] == e;
                            assert(old(self).variable_map.variable_map_stack@[n - 1]@[q] == e);
                        }
                    }
                }
            }
            Ok(borrowed)
        }
    }

    /// A variable called `name` for `value`: for a mutable one, the value in variables of its
    /// own, marked mutable.
    pub fn new_variable(&mut self, name: &'a str, value: CompiledValue, mutable: bool) -> (r: CompileResult<'a, CompiledValue>)
        requires
            old(self).inv(),
            value.below(old(self).counter()),
        ensures
            r matches Ok(b) ==> final(self).continues(&*old(self)) && b.value_type == value.value_type
                && (mutable ==> b.mutable) && (!mutable ==> b.mutable == value.mutable) && !b.owned && b.below(final(self).counter()),
            r is Ok <==> find_in_scope(old(self).variable_map.scopes().last(), name@) is None && (mutable ==> owned_copy_fits(
                value,
                old(self).counter(),
            )),
            r matches Ok(b) ==> (if mutable && !value.owned {
                b.addresses@ == numbered_from(old(self).counter(), value.value_type.spec_size()) && final(self).code() == old(
                    self,
                ).code() + owned_copy_code(value.addresses@, old(self).counter(), value.value_type.spec_size())
            } else {
                b.addresses@ == value.addresses@ && final(self).code() == old(self).code()
            }) && (find_in_scopes(final(self).variable_map.scopes(), name@) matches Some(v) && v.addresses@ == b.addresses@
                && v.value_type == b.value_type && v.mutable == b.mutable),
    {
        if mutable {
            let ghost stack = self.scope_stack();
            let mut owned = self.new_owned(value)?;
            assert(self.variable_map.scopes() =~= old(self).variable_map.scopes()) by {
                assert(self.scope_stack() == stack);
            }
            owned.mutable = mutable;
            let borrow = owned.borrow();
            let ghost mid = self.counter();
            self.register_variable(name, owned)?;
            assert(borrow.below(self.counter())) by {
                assert forall|i: int| 0 <= i < borrow.addresses@.len() implies #[trigger] borrow.addresses@[i] < self.counter() by {
                    assert(owned.addresses@[i] < mid);
                }
            }
            Ok(borrow)
        } else {
            let r = self.register_variable(name, value);
            r
        }
    }

    /// A borrow of the innermost variable called `name`; an error where there is none.
    pub fn borrow_immutable(&self, name: &'a str) -> (r: CompileResult<'a, CompiledValue>)
        requires
            self.inv(),
        ensures
            find_in_scopes(self.variable_map.scopes(), name@) is None ==> r == Err::<CompiledValue, CompilerError<'a>>(
                CompilerError::UndefinedVariable(name),
            ),
            find_in_scopes(self.variable_map.scopes(), name@) matches Some(v) ==> (r matches Ok(b)
                && b.addresses@ == v.addresses@ && b.value_type == v.value_type && b.mutable == v.mutable && !b.owned),
            r matches Ok(b) ==> b.below(self.counter()),
    {
        match self.variable_map.borrow_variable(name) {
            Some(variable) => {
                proof {
                    lemma_find_in_scopes_held(self.variable_map.scopes(), name@);
                    let (k, j) = choose|k: int, j: int|
                        0 <= k < self.variable_map.scopes().len() && 0 <= j < self.variable_map.scopes()[k].len()
                            && self.variable_map.scopes()[k][j].1 == find_in_scopes(self.variable_map.scopes(), name@)->Some_0;
                    assert(self.variable_map.variable_map_stack@[k]@[j].1.below(self.builder.value_counter));
                    assert forall|i: int| 0 <= i < variable.addresses@.len() implies #[trigger] variable.addresses@[i] < self.counter() by {
                        assert(self.variable_map.variable_map_stack@[k]@[j].1.addresses@[i] < self.builder.value_counter);
                    }
                }
                Ok(variable)
            },
            None => Err(CompilerError::UndefinedVariable(name)),
        }
    }

    /// A borrow of the innermost variable called `name`; an error where there is none or it is
    /// not mutable.
    pub fn borrow_mutable(&self, name: &'a str) -> (r: CompileResult<'a, CompiledValue>)
        requires
            self.inv(),
        ensures
            find_in_scopes(self.variable_map.scopes(), name@) is None ==> r == Err::<CompiledValue, CompilerError<'a>>(
                CompilerError::UndefinedVariable(name),
            ),
            find_in_scopes(self.variable_map.scopes(), name@) matches Some(v) ==> (if v.mutable {
                r matches Ok(b) && b.addresses@ == v.addresses@ && b.value_type == v.value_type && b.mutable && !b.owned
            } else {
                r matches Err(e) && e is MutableBorrowOfImmutableVariable
            }),
            r matches Ok(b) ==> b.below(self.counter()),
    {
        let result = self.borrow_immutable(name)?;
        if result.mutable {
            Ok(result)
        } else {
            Err(CompilerError::MutableBorrowOfImmutableVariable(result.to_value()))
        }
    }

    /// Adds `value` to the variable.
    pub fn add_to(&mut self, address: u16, value: i8)
        requires
            old(self).inv(),
            address < old(self).counter(),
        ensures
            final(self).continues(&*old(self)),
            final(self).counter() == old(self).counter(),
            final(self).code() == old(self).code().push(SpecABF::Add(address, value)),
            final(self).scope_stack() == old(self).scope_stack(),
    {
        let ghost p = self.builder.program@;
        self.builder.add(address, value);
        proof {
            lemma_push_use(p, SpecABF::Add(address, value), self.ctx@, self.builder.value_counter);
        }
    }

    /// Prints the variable.
    pub fn write(&mut self, address: u16)
        requires
            old(self).inv(),
            address < old(self).counter(),
        ensures
            final(self).continues(&*old(self)),
            final(self).counter() == old(self).counter(),
            final(self).code() == old(self).code().push(SpecABF::Write(address)),
            final(self).scope_stack() == old(self).scope_stack(),
    {
        let ghost p = self.builder.program@;
        self.builder.write(address);
        proof {
            lemma_push_use(p, SpecABF::Write(address), self.ctx@, self.builder.value_counter);
        }
    }

    /// A new `u8` variable with a byte of input; an error where no variable number is left.
    pub fn read(&mut self) -> (r: CompileResult<'a, CompiledValue>)
        requires
            old(self).inv(),
        ensures
            r matches Ok(v) ==> final(self).continues(&*old(self)) && v.value_type == Type::U8 && v.owned && !v.mutable
                && v.below(final(self).counter()) && v.addresses@ == seq![old(self).counter()]
                && final(self).counter() == old(self).counter() + 1
                && final(self).code() == old(self).code().push(SpecABF::Read(old(self).counter())),
            r is Err <==> old(self).counter() == u16::MAX,
            r matches Err(e) ==> e is NoFreeAddresses,
    {
        if self.builder.value_counter == u16::MAX {
            return Err(CompilerError::NoFreeAddresses);
        }
        let ghost p = self.builder.program@;
        let address = self.builder.read();
        proof {
            lemma_declared_push(p, SpecABF::Read(address), self.ctx@);
            assert(instr_declared(SpecABF::Read(address)) =~= set![address]);
            assert forall|b: u16| #[trigger] (self.ctx@ + deep_declared(self.builder.program@)).contains(b) <==> b < self.builder.value_counter by {
                assert((old(self).ctx@ + deep_declared(p)).contains(b) <==> b < old(self).builder.value_counter);
            }
            assert forall|k: int, j: int|
                0 <= k < self.variable_map.variable_map_stack@.len() && 0 <= j < self.variable_map.variable_map_stack@[k]@.len()
                    implies (#[trigger] self.variable_map.variable_map_stack@[k]@[j]).1.below(self.builder.value_counter) by {
                assert(old(self).variable_map.variable_map_stack@[k]@[j].1.below(old(self).builder.value_counter));
            }
        }
        let mut addresses: Vec<u16> = Vec::new();
        addresses.push(address);
        assert(addresses@ =~= seq![old(self).counter()]);
        Ok(CompiledValue::new(addresses, Type::U8, true))
    }

    /// Opens a scope.
    pub fn scoped(&mut self)
        requires
            old(self).inv(),
        ensures
            final(self).inv(),
            final(self).counter() == old(self).counter(),
            final(self).ctx() == old(self).ctx(),
            final(self).depth() == old(self).depth() + 1,
            final(self).code() == old(self).code(),
            final(self).scope_stack().drop_last() == old(self).scope_stack(),
    {
        self.variable_map.start_scope();
        proof {
            assert forall|k: int, j: int|
                0 <= k < self.variable_map.variable_map_stack@.len() && 0 <= j < self.variable_map.variable_map_stack@[k]@.len()
                    implies (#[trigger] self.variable_map.variable_map_stack@[k]@[j]).1.below(self.builder.value_counter) by {
                assert(self.variable_map.variable_map_stack@[k] == old(self).variable_map.variable_map_stack@[k]);
            }
        }
    }

    /// Closes the innermost scope.
    pub fn end_scoped(&mut self)
        requires
            old(self).inv(),
            old(self).depth() > 1,
        ensures
            final(self).inv(),
            final(self).counter() == old(self).counter(),
            final(self).ctx() == old(self).ctx(),
            final(self).depth() == old(self).depth() - 1,
            final(self).code() == old(self).code(),
            final(self).scope_stack() == old(self).scope_stack().drop_last(),
    {
        self.variable_map.end_scope();
        proof {
            assert forall|k: int, j: int|
                0 <= k < self.variable_map.variable_map_stack@.len() && 0 <= j < self.variable_map.variable_map_stack@[k]@.len()
                    implies (#[trigger] self.variable_map.variable_map_stack@[k]@[j]).1.below(self.builder.value_counter) by {
                assert(self.variable_map.variable_map_stack@[k] == old(self).variable_map.variable_map_stack@[k]);
            }
        }
    }

    /// Opens a scope and a loop body: what follows is compiled into the body until
    /// [`Self::end_loop_while`].
    pub fn loop_while(&mut self) -> (frame: LoopFrame)
        requires
            old(self).inv(),
        ensures
            final(self).inv(),
            frame.wf(),
            frame.start() == old(self).counter(),
            frame.ctx() == old(self).ctx(),
            frame.code() == old(self).code(),
            final(self).counter() == old(self).counter(),
            final(self).ctx() == below_set(old(self).counter()),
            final(self).depth() == old(self).depth() + 1,
            final(self).code() == Seq::<SpecABF>::empty(),
            final(self).scope_stack().drop_last() == old(self).scope_stack(),
    {
        self.scoped();
        let mut body_builder = self.builder.start_loop();
        std::mem::swap(&mut body_builder, &mut self.builder);
        let frame = LoopFrame { parent: body_builder, parent_ctx: self.ctx };
        proof {
            self.ctx@ = below_set(frame.parent.value_counter);
            assert(deep_declared(Seq::<SpecABF>::empty()) =~= Set::<u16>::empty());
            assert(self.ctx@ + deep_declared(self.builder.program@) =~= below_set(self.builder.value_counter));
        }
        frame
    }

    /// Closes the loop that `frame` opened, on the variable `predicate`, and its scope.
    pub fn end_loop_while(&mut self, predicate: u16, frame: LoopFrame)
        requires
            old(self).inv(),
            frame.wf(),
            old(self).ctx() == below_set(frame.start()),
            predicate < frame.start(),
            old(self).depth() > 1,
        ensures
            final(self).inv(),
            final(self).counter() == old(self).counter(),
            final(self).ctx() == frame.ctx(),
            final(self).depth() == old(self).depth() - 1,
            final(self).code() == frame.code().push(SpecABF::While(predicate, old(self).code())),
            final(self).scope_stack() == old(self).scope_stack().drop_last(),
    {
        let mut frame = frame;
        let ghost body_ctx = self.ctx@;
        std::mem::swap(&mut frame.parent, &mut self.builder);
        let ghost parent_program = self.builder.program@;
        let ghost body_program = frame.parent.program@;
        proof {
            self.ctx@ = frame.parent_ctx@;
            assert(body_ctx =~= self.ctx@ + deep_declared(parent_program));
        }
        self.builder.end_loop(predicate, frame.parent);
        proof {
            lemma_declared_push(parent_program, SpecABF::While(predicate, body_program), self.ctx@);
            assert(instr_declared(SpecABF::While(predicate, body_program)) == deep_declared(body_program));
            assert forall|a: u16| #[trigger] (self.ctx@ + deep_declared(self.builder.program@)).contains(a) <==> a < self.builder.value_counter by {
                assert((self.ctx@ + deep_declared(self.builder.program@)).contains(a) <==> (body_ctx + deep_declared(body_program)).contains(a));
            }
        }
        self.end_scoped();
    }
}

impl<'a> BrainCrabCompiler<'a> {
    /// Moves `source` into every destination, adding it there: each variable of `source` is
    /// counted down to zero while the variable at its place in each destination is counted up.
    /// An error where a destination has another size than `source`, or shares a variable with it
    /// at the same place.
    pub fn move_and_add_values(&mut self, source: CompiledValue, destinations: &[CompiledValue]) -> (r: CompileResult<'a, ()>)
        requires
            old(self).inv(),
            source.below(old(self).counter()),
            forall|k: int| 0 <= k < destinations@.len() ==> (#[trigger] destinations@[k]).below(old(self).counter()),
        ensures
            r is Ok ==> final(self).continues(&*old(self)) && final(self).counter() == old(self).counter()
                && final(self).code() == old(self).code() + move_code(source.addresses@, addresses_of(destinations@)),
            !sizes_match(source.addresses@, addresses_of(destinations@)) ==> (r matches Err(e) && e is TypeError),
            sizes_match(source.addresses@, addresses_of(destinations@)) ==> (r is Ok <==> !overlapping(
                source.addresses@,
                addresses_of(destinations@),
            )),
            r matches Err(e) ==> (e is TypeError || e is OverlappingValues),
            r is Ok ==> final(self).scope_stack() == old(self).scope_stack(),
    {
        proof { reveal(declarations); reveal(numbered_from); reveal(zeros); reveal(clear_all_code); reveal(write_all_code); reveal(move_code); reveal(owned_copy_code); reveal(assign_code); reveal(doubling_code); reveal(repeat_code); reveal(copy_code); reveal(copy_succeeds); }
        let ghost ds = addresses_of(destinations@);
        let mut k: usize = 0;
        while k < destinations.len()
            invariant
                k <= destinations@.len(),
                ds == addresses_of(destinations@),
                forall|q: int| 0 <= q < k ==> (#[trigger] destinations@[q]).addresses@.len() == source.addresses@.len(),
            decreases destinations@.len() - k,
        {
            proof { reveal(declarations); reveal(numbered_from); reveal(zeros); reveal(clear_all_code); reveal(write_all_code); reveal(move_code); reveal(owned_copy_code); reveal(assign_code); reveal(doubling_code); reveal(repeat_code); reveal(copy_code); reveal(copy_succeeds); }
            if destinations[k].size() != source.size() {
                assert(ds[k as int].len() != source.addresses@.len());
                return Err(CompilerError::TypeError { expected: source.value_type.clone(), actual: destinations[k].value_type.clone() });
            }
            k = k + 1;
        }
        assert(sizes_match(source.addresses@, ds));
        let mut i: usize = 0;
        while i < source.addresses.len()
            invariant
                i <= source.addresses@.len(),
                ds == addresses_of(destinations@),
                sizes_match(source.addresses@, ds),
                self.continues(&*old(self)),
                self.scope_stack() == old(self).scope_stack(),
                self.counter() == old(self).counter(),
                source.below(old(self).counter()),
                forall|q: int| 0 <= q < destinations@.len() ==> (#[trigger] destinations@[q]).addresses@.len() == source.addresses@.len(),
                forall|q: int| 0 <= q < destinations@.len() ==> (#[trigger] destinations@[q]).below(old(self).counter()),
                forall|j: int, q: int| 0 <= j < i && 0 <= q < ds.len() ==> #[trigger] ds[q][j] != source.addresses@[j],
                self.code() == old(self).code() + move_code(source.addresses@.take(i as int), ds),
            decreases source.addresses@.len() - i,
        {
            proof { reveal(declarations); reveal(numbered_from); reveal(zeros); reveal(clear_all_code); reveal(write_all_code); reveal(move_code); reveal(owned_copy_code); reveal(assign_code); reveal(doubling_code); reveal(repeat_code); reveal(copy_code); reveal(copy_succeeds); }
            let source_address = source.addresses[i];
            let mut k: usize = 0;
            while k < destinations.len()
                invariant
                    i < source.addresses@.len(),
                    k <= destinations@.len(),
                    source_address == source.addresses@[i as int],
                    ds == addresses_of(destinations@),
                    forall|q: int| 0 <= q < destinations@.len() ==> (#[trigger] destinations@[q]).addresses@.len() == source.addresses@.len(),
                    forall|q: int| 0 <= q < k ==> #[trigger] ds[q][i as int] != source_address,
                decreases destinations@.len() - k,
            {
                proof { reveal(declarations); reveal(numbered_from); reveal(zeros); reveal(clear_all_code); reveal(write_all_code); reveal(move_code); reveal(owned_copy_code); reveal(assign_code); reveal(doubling_code); reveal(repeat_code); reveal(copy_code); reveal(copy_succeeds); }
                if destinations[k].addresses[i] == source_address {
                    assert(ds[k as int][i as int] == source.addresses@[i as int]);
                    return Err(CompilerError::OverlappingValues);
                }
                k = k + 1;
            }
            let ghost before = *self;
            let frame = self.loop_while();
            self.add_to(source_address, -1);
            let mut k: usize = 0;
            while k < destinations.len()
                invariant
                    k <= destinations@.len(),
                    self.inv(),
                    self.counter() == before.counter(),
                    self.ctx() == below_set(before.counter()),
                    self.depth() == before.depth() + 1,
                    self.scope_stack().drop_last() == old(self).scope_stack(),
                    before.counter() >= old(self).counter(),
                    ds == addresses_of(destinations@),
                    forall|q: int| 0 <= q < destinations@.len() ==> (#[trigger] destinations@[q]).addresses@.len() == source.addresses@.len(),
                    forall|q: int| 0 <= q < destinations@.len() ==> (#[trigger] destinations@[q]).below(old(self).counter()),
                    i < source.addresses@.len(),
                    source_address == source.addresses@[i as int],
                    self.code() == seq![SpecABF::Add(source_address, -1i8)] + adds(column(ds, i as int).take(k as int)),
                decreases destinations@.len() - k,
            {
                proof { reveal(declarations); reveal(numbered_from); reveal(zeros); reveal(clear_all_code); reveal(write_all_code); reveal(move_code); reveal(owned_copy_code); reveal(assign_code); reveal(doubling_code); reveal(repeat_code); reveal(copy_code); reveal(copy_succeeds); }
                let destination_address = destinations[k].addresses[i];
                assert(destinations@[k as int].addresses@[i as int] < old(self).counter());
                self.add_to(destination_address, 1);
                k = k + 1;
                assert(adds(column(ds, i as int).take(k as int)) =~= adds(column(ds, i as int).take(k - 1)).push(
                    SpecABF::Add(ds[k - 1][i as int], 1i8),
                ));
                assert(self.code() =~= seq![SpecABF::Add(source_address, -1i8)] + adds(column(ds, i as int).take(k as int)));
            }
            assert(column(ds, i as int).take(k as int) =~= column(ds, i as int));
            self.end_loop_while(source_address, frame);
            i = i + 1;
            proof {
                let prev = source.addresses@.take(i - 1);
                let cur = source.addresses@.take(i as int);
                assert(move_code(cur, ds) =~= move_code(prev, ds).push(move_code(source.addresses@, ds)[i - 1]));
                assert(self.code() =~= old(self).code() + move_code(cur, ds));
            }
        }
        assert(source.addresses@.take(i as int) =~= source.addresses@);
        Ok(())
    }

    /// Adds `source` to every destination and leaves `source` as it was, through a new
    /// variable where `source` is borrowed; an owned `source` is moved.
    pub fn copy_and_add_values(&mut self, source: CompiledValue, destinations: &[CompiledValue]) -> (r: CompileResult<'a, ()>)
        requires
            old(self).inv(),
            source.below(old(self).counter()),
            forall|k: int| 0 <= k < destinations@.len() ==> (#[trigger] destinations@[k]).below(old(self).counter()),
        ensures
            r is Ok ==> final(self).continues(&*old(self)) && final(self).code() == old(self).code() + (if source.owned {
                move_code(source.addresses@, addresses_of(destinations@))
            } else {
                copy_code(source.addresses@, addresses_of(destinations@), old(self).counter(), source.value_type.spec_size())
            }),
            r is Ok <==> copy_succeeds(source, addresses_of(destinations@), old(self).counter()),
            r is Ok ==> final(self).counter() == old(self).counter() + if source.owned {
                0
            } else {
                source.value_type.spec_size()
            },
            r is Ok ==> final(self).scope_stack() == old(self).scope_stack(),
    {
        proof { reveal(declarations); reveal(numbered_from); reveal(zeros); reveal(clear_all_code); reveal(write_all_code); reveal(move_code); reveal(owned_copy_code); reveal(assign_code); reveal(doubling_code); reveal(repeat_code); reveal(copy_code); reveal(copy_succeeds); }
        let ghost ds = addresses_of(destinations@);
        if source.is_owned() {
            self.move_and_add_values(source, destinations)
        } else {
            let ghost c = self.counter();
            let temp = self.allocate(source.value_type.clone())?;
            let ghost t = temp.addresses@;
            let mut new_destinations: Vec<CompiledValue> = Vec::new();
            new_destinations.push(temp.borrow());
            let mut k: usize = 0;
            while k < destinations.len()
                invariant
                    k <= destinations@.len(),
                    ds == addresses_of(destinations@),
                    new_destinations@.len() == k + 1,
                    new_destinations@[0].addresses@ == t,
                    forall|q: int| 0 <= q < k ==> (#[trigger] new_destinations@[q + 1]).addresses@ == destinations@[q].addresses@,
                    forall|q: int| 0 <= q < destinations@.len() ==> (#[trigger] destinations@[q]).below(old(self).counter()),
                    forall|q: int| 0 <= q < new_destinations@.len() ==> (#[trigger] new_destinations@[q]).below(self.counter()),
                    self.counter() >= old(self).counter(),
                decreases destinations@.len() - k,
            {
                proof { reveal(declarations); reveal(numbered_from); reveal(zeros); reveal(clear_all_code); reveal(write_all_code); reveal(move_code); reveal(owned_copy_code); reveal(assign_code); reveal(doubling_code); reveal(repeat_code); reveal(copy_code); reveal(copy_succeeds); }
                let b = destinations[k].borrow();
                assert(destinations@[k as int].below(old(self).counter()));
                new_destinations.push(b);
                k = k + 1;
            }
            assert(addresses_of(new_destinations@) =~= seq![t] + ds) by {
                let nd = seq![t] + ds;
                assert(new_destinations@.len() == nd.len());
                assert forall|q: int| 0 <= q < nd.len() implies #[trigger] addresses_of(new_destinations@)[q] == nd[q] by {
                    if q > 0 {
                        assert(new_destinations@[(q - 1) + 1].addresses@ == destinations@[q - 1].addresses@);
                        assert(nd[q] == ds[q - 1]);
                    }
                }
            }
            let ghost mid = *self;
            let borrowed = source.borrow();
            assert(borrowed.below(self.counter()));
            proof {
                let nd = seq![t] + ds;
                assert(nd[0] == t);
                assert(forall|q: int| 0 <= q < ds.len() ==> #[trigger] nd[q + 1] == ds[q]);
                if sizes_match(source.addresses@, nd) && overlapping(source.addresses@, nd) {
                    let (i, q) = choose|i: int, q: int| 0 <= i < source.addresses@.len() && 0 <= q < nd.len()
                        && #[trigger] nd[q][i] == source.addresses@[i];
                    if q == 0 {
                        assert(t[i] >= c);
                        assert(source.addresses@[i] < c);
                    }
                    assert(nd[(q - 1) + 1] == ds[q - 1]);
                    assert(ds[q - 1][i] == source.addresses@[i]);
                }
                if sizes_match(source.addresses@, nd) {
                    assert forall|q: int| 0 <= q < ds.len() implies #[trigger] ds[q].len() == source.addresses@.len() by {
                        assert(nd[q + 1] == ds[q]);
                    }
                    if overlapping(source.addresses@, ds) {
                        let (i, q) = choose|i: int, q: int| 0 <= i < source.addresses@.len() && 0 <= q < ds.len()
                            && #[trigger] ds[q][i] == source.addresses@[i];
                        assert(nd[q + 1][i] == source.addresses@[i]);
                    }
                }
                if t.len() == source.addresses@.len() && sizes_match(source.addresses@, ds) {
                    assert forall|q: int| 0 <= q < nd.len() implies #[trigger] nd[q].len() == source.addresses@.len() by {
                        if q > 0 {
                            assert(nd[(q - 1) + 1] == ds[q - 1]);
                        }
                    }
                }
            }
            self.move_and_add_values(borrowed, new_destinations.as_slice())?;
            let mut back: Vec<CompiledValue> = Vec::new();
            back.push(source);
            assert(back@[0].below(self.counter()));
            assert(addresses_of(back@) =~= seq![source.addresses@]);
            assert(sizes_match(t, seq![source.addresses@])) by {
                assert(seq![source.addresses@][0] == source.addresses@);
            }
            assert(!overlapping(t, seq![source.addresses@])) by {
                if overlapping(t, seq![source.addresses@]) {
                    let (i, q) = choose|i: int, q: int| 0 <= i < t.len() && 0 <= q < 1
                        && #[trigger] seq![source.addresses@][q][i] == t[i];
                    assert(seq![source.addresses@][q] == source.addresses@);
                    assert(source.addresses@[i] < c);
                }
            }
            let r = self.move_and_add_values(temp, back.as_slice());
            proof {
                if r is Ok {
                    assert(self.code() =~= old(self).code() + copy_code(source.addresses@, ds, c, source.value_type.spec_size()));
                }
            }
            r
        }
    }

    /// The value in variables of its own: itself where it owns its variables, a copy otherwise.
    pub fn new_owned(&mut self, value: CompiledValue) -> (r: CompileResult<'a, CompiledValue>)
        requires
            old(self).inv(),
            value.below(old(self).counter()),
        ensures
            r matches Ok(v) ==> final(self).continues(&*old(self)) && v.value_type == value.value_type && v.owned
                && v.below(final(self).counter()),
            value.owned ==> r == Ok::<CompiledValue, CompilerError<'a>>(value) && *final(self) == *old(self),
            !value.owned ==> (r is Ok <==> value.value_type.size_fits() && old(self).counter() + 2 * value.value_type.spec_size()
                <= u16::MAX && value.addresses@.len() == value.value_type.spec_size()),
            r is Ok ==> final(self).counter() == old(self).counter() + if value.owned {
                0
            } else {
                2 * value.value_type.spec_size()
            },
            !value.owned ==> (r matches Ok(v) ==> v.addresses@ == numbered_from(old(self).counter(), value.value_type.spec_size())
                && final(self).code() == old(self).code() + owned_copy_code(
                value.addresses@,
                old(self).counter(),
                value.value_type.spec_size(),
            )),
            r is Ok ==> final(self).scope_stack() == old(self).scope_stack(),
            !value.owned ==> (r matches Ok(v) ==> v.addresses@.len() == value.value_type.spec_size() && forall|j: int|
                0 <= j < v.addresses@.len() ==> #[trigger] v.addresses@[j] >= old(self).counter()),
            !value.owned && value.addresses@.no_duplicates() ==> (r matches Ok(v) ==> forall|st: AbfState, fuel: nat|
                fuel >= 255 && (#[trigger] run_seq(old(self).code(), st, fuel)) is Some ==> (run_seq(final(self).code(), st, fuel) matches Some(
                after,
            ) && after.input == run_seq(old(self).code(), st, fuel)->Some_0.input && after.output == run_seq(
                old(self).code(),
                st,
                fuel,
            )->Some_0.output && (forall|j: int|
                0 <= j < v.addresses@.len() ==> cell(after.cells, #[trigger] v.addresses@[j]) == cell(
                    run_seq(old(self).code(), st, fuel)->Some_0.cells,
                    value.addresses@[j],
                )) && (forall|x: u16| x < old(self).counter() ==> #[trigger] cell(after.cells, x) == cell(
                run_seq(old(self).code(), st, fuel)->Some_0.cells,
                x,
            )))),
    {
        proof { reveal(declarations); reveal(numbered_from); reveal(zeros); reveal(clear_all_code); reveal(write_all_code); reveal(move_code); reveal(owned_copy_code); reveal(assign_code); reveal(doubling_code); reveal(repeat_code); reveal(copy_code); reveal(copy_succeeds); }
        if value.is_owned() {
            Ok(value)
        } else {
            let ghost c = self.counter();
            let ghost n = value.value_type.spec_size();
            let owned = self.allocate(value.value_type.clone())?;
            let mut destinations: Vec<CompiledValue> = Vec::new();
            destinations.push(owned.borrow());
            let ghost t = numbered_from(c, n);
            proof {
                assert(addresses_of(destinations@) =~= seq![t]);
                assert(seq![t][0] == t);
                if overlapping(value.addresses@, seq![t]) {
                    let (i, k) = choose|i: int, k: int| 0 <= i < value.addresses@.len() && 0 <= k < 1 && #[trigger] seq![t][k][i]
                        == value.addresses@[i];
                    assert(seq![t][k] == t);
                    assert(value.addresses@[i] < c);
                }
                assert(sizes_match(value.addresses@, seq![t]) <==> value.addresses@.len() == n);
            }
            self.copy_and_add_values(value, destinations.as_slice())?;
            assert(self.code() =~= old(self).code() + owned_copy_code(value.addresses@, c, n));
            proof {
                if value.addresses@.no_duplicates() {
                    assert forall|st: AbfState, fuel: nat| fuel >= 255 && (#[trigger] run_seq(old(self).code(), st, fuel)) is Some implies (run_seq(
                        self.code(),
                        st,
                        fuel,
                    ) matches Some(after) && after.input == run_seq(old(self).code(), st, fuel)->Some_0.input && after.output == run_seq(
                        old(self).code(),
                        st,
                        fuel,
                    )->Some_0.output && (forall|j: int|
                        0 <= j < owned.addresses@.len() ==> cell(after.cells, #[trigger] owned.addresses@[j]) == cell(
                            run_seq(old(self).code(), st, fuel)->Some_0.cells,
                            value.addresses@[j],
                        )) && (forall|x: u16| x < old(self).counter() ==> #[trigger] cell(after.cells, x) == cell(
                        run_seq(old(self).code(), st, fuel)->Some_0.cells,
                        x,
                    ))) by {
                        let mid = run_seq(old(self).code(), st, fuel)->Some_0;
                        lemma_run_append(old(self).code(), owned_copy_code(value.addresses@, c, n), st, fuel);
                        lemma_run_owned_copy(value.addresses@, c, n, mid, fuel);
                        let after = run_seq(self.code(), st, fuel)->Some_0;
                        assert forall|j: int| 0 <= j < owned.addresses@.len() implies cell(after.cells, #[trigger] owned.addresses@[j]) == cell(
                            mid.cells,
                            value.addresses@[j],
                        ) by {
                            assert(owned.addresses@[j] == (c + j) as u16);
                        }
                    }
                }
            }
            Ok(owned)
        }
    }

    /// New variables holding the constant.
    pub fn value_from_const(&mut self, value: ConstantValue) -> (r: CompileResult<'a, CompiledValue>)
        requires
            old(self).inv(),
            no_empty_arrays(value@),
            constant_type(value@) is Some,
        ensures
            r matches Ok(v) ==> final(self).continues(&*old(self)) && Some(v.value_type) == constant_type(value@)
                && v.owned && !v.mutable && v.below(final(self).counter())
                && v.addresses@ == numbered_from(old(self).counter(), constant_data(value@).len())
                && final(self).counter() == old(self).counter() + constant_data(value@).len()
                && final(self).code() == old(self).code() + declarations(old(self).counter(), constant_data(value@)),
            r is Err <==> old(self).counter() + constant_data(value@).len() > u16::MAX,
            r matches Err(e) ==> e is NoFreeAddresses,
            r is Ok ==> final(self).scope_stack() == old(self).scope_stack(),
            r is Err ==> final(self).continues(&*old(self)) && final(self).counter() == u16::MAX && final(self).code() == old(self).code()
                + declarations(old(self).counter(), constant_data(value@).take(u16::MAX - old(self).counter())),
    {
        proof { reveal(declarations); reveal(numbered_from); reveal(zeros); reveal(clear_all_code); reveal(write_all_code); reveal(move_code); reveal(owned_copy_code); reveal(assign_code); reveal(doubling_code); reveal(repeat_code); reveal(copy_code); reveal(copy_succeeds); }
        let value_type = match value.value_type() {
            Ok(t) => t,
            Err(_) => return Err(CompilerError::NoFreeAddresses),
        };
        let data = value.data();
        let mut addresses: Vec<u16> = Vec::new();
        let mut i: usize = 0;
        while i < data.len()
            invariant
                i <= data@.len(),
                data@ == constant_data(value@),
                self.continues(&*old(self)),
                self.scope_stack() == old(self).scope_stack(),
                self.counter() == old(self).counter() + i,
                addresses@ == numbered_from(old(self).counter(), i as nat),
                self.code() == old(self).code() + declarations(old(self).counter(), data@.take(i as int)),
                forall|k: int| 0 <= k < addresses@.len() ==> #[trigger] addresses@[k] < self.counter(),
            decreases data@.len() - i,
        {
            proof { reveal(declarations); reveal(numbered_from); reveal(zeros); reveal(clear_all_code); reveal(write_all_code); reveal(move_code); reveal(owned_copy_code); reveal(assign_code); reveal(doubling_code); reveal(repeat_code); reveal(copy_code); reveal(copy_succeeds); }
            let a = match self.new_address(data[i]) {
                Ok(a) => a,
                Err(e) => {
                    assert(data@.take(u16::MAX - old(self).counter()) =~= data@.take(i as int));
                    return Err(e);
                },
            };
            addresses.push(a);
            i = i + 1;
            assert(addresses@ =~= numbered_from(old(self).counter(), i as nat));
            assert(declarations(old(self).counter(), data@.take(i as int)) =~= declarations(old(self).counter(), data@.take(i - 1)).push(
                SpecABF::New(a, data@[i - 1]),
            ));
            assert(self.code() =~= old(self).code() + declarations(old(self).counter(), data@.take(i as int)));
        }
        assert(data@.take(i as int) =~= data@);
        Ok(CompiledValue::new(addresses, value_type, true))
    }

    /// The value, seen as a value of `new_type`; an error where the sizes differ.
    pub fn reinterpret_cast(&self, value: CompiledValue, new_type: Type) -> (r: CompileResult<'a, CompiledValue>)
        requires
            value.value_type.size_fits(),
            new_type.size_fits(),
        ensures
            value.value_type.spec_size() != new_type.spec_size() ==> r == Err::<CompiledValue, CompilerError<'a>>(
                CompilerError::InvalidReinterpretCast { original: value.value_type, new: new_type },
            ),
            value.value_type.spec_size() == new_type.spec_size() ==> (r matches Ok(v) && v.addresses == value.addresses
                && v.value_type == new_type && v.mutable == value.mutable && v.owned == value.owned),
    {
        let mut value = value;
        if value.value_type.size() != new_type.size() {
            Err(CompilerError::InvalidReinterpretCast { original: value.value_type.clone(), new: new_type })
        } else {
            value.value_type = new_type;
            Ok(value)
        }
    }

    /// Prints every variable of the value.
    pub fn write_value(&mut self, value: CompiledValue)
        requires
            old(self).inv(),
            value.below(old(self).counter()),
        ensures
            final(self).continues(&*old(self)),
            final(self).counter() == old(self).counter(),
            final(self).code() == old(self).code() + write_all_code(value.addresses@),
    {
        proof { reveal(declarations); reveal(numbered_from); reveal(zeros); reveal(clear_all_code); reveal(write_all_code); reveal(move_code); reveal(owned_copy_code); reveal(assign_code); reveal(doubling_code); reveal(repeat_code); reveal(copy_code); reveal(copy_succeeds); }
        let mut i: usize = 0;
        while i < value.addresses.len()
            invariant
                i <= value.addresses@.len(),
                self.continues(&*old(self)),
                self.scope_stack() == old(self).scope_stack(),
                self.counter() == old(self).counter(),
                value.below(old(self).counter()),
                self.code() == old(self).code() + write_all_code(value.addresses@.take(i as int)),
            decreases value.addresses@.len() - i,
        {
            proof { reveal(declarations); reveal(numbered_from); reveal(zeros); reveal(clear_all_code); reveal(write_all_code); reveal(move_code); reveal(owned_copy_code); reveal(assign_code); reveal(doubling_code); reveal(repeat_code); reveal(copy_code); reveal(copy_succeeds); }
            self.write(value.addresses[i]);
            i = i + 1;
            assert(write_all_code(value.addresses@.take(i as int)) =~= write_all_code(value.addresses@.take(i - 1)).push(
                SpecABF::Write(value.addresses@[i - 1]),
            ));
            assert(self.code() =~= old(self).code() + write_all_code(value.addresses@.take(i as int)));
        }
        assert(value.addresses@.take(i as int) =~= value.addresses@);
    }

    /// Sets every variable of the value to zero.
    pub fn zero(&mut self, value: CompiledValue)
        requires
            old(self).inv(),
            value.below(old(self).counter()),
        ensures
            final(self).continues(&*old(self)),
            final(self).counter() == old(self).counter(),
            final(self).code() == old(self).code() + clear_all_code(value.addresses@),
            final(self).scope_stack() == old(self).scope_stack(),
    {
        proof { reveal(declarations); reveal(numbered_from); reveal(zeros); reveal(clear_all_code); reveal(write_all_code); reveal(move_code); reveal(owned_copy_code); reveal(assign_code); reveal(doubling_code); reveal(repeat_code); reveal(copy_code); reveal(copy_succeeds); }
        let mut i: usize = 0;
        while i < value.addresses.len()
            invariant
                i <= value.addresses@.len(),
                self.continues(&*old(self)),
                self.scope_stack() == old(self).scope_stack(),
                self.counter() == old(self).counter(),
                value.below(old(self).counter()),
                self.code() == old(self).code() + clear_all_code(value.addresses@.take(i as int)),
            decreases value.addresses@.len() - i,
        {
            proof { reveal(declarations); reveal(numbered_from); reveal(zeros); reveal(clear_all_code); reveal(write_all_code); reveal(move_code); reveal(owned_copy_code); reveal(assign_code); reveal(doubling_code); reveal(repeat_code); reveal(copy_code); reveal(copy_succeeds); }
            let address = value.addresses[i];
            let ghost p = self.builder.program@;
            self.builder.zero(address);
            proof {
                let body = seq![SpecABF::Add(address, -1i8)];
                let c = self.ctx@ + deep_declared(p);
                assert(body.drop_last() =~= Seq::<SpecABF>::empty());
                assert(body.last() == SpecABF::Add(address, -1i8));
                assert(deep_declared(Seq::<SpecABF>::empty()) == Set::<u16>::empty());
                assert(deep_declared(body) == deep_declared(body.drop_last()) + instr_declared(body.last()));
                assert(deep_declared(body) =~= Set::<u16>::empty());
                assert(c + deep_declared(Seq::<SpecABF>::empty()) =~= c);
                assert(well_declared(Seq::<SpecABF>::empty(), c));
                assert(well_declared(body, c) == (well_declared(body.drop_last(), c) && instr_well_declared(body.last(), c + deep_declared(body.drop_last()))));
                assert(well_declared(body, c));
                lemma_push_use(p, SpecABF::While(address, body), self.ctx@, self.builder.value_counter);
            }
            i = i + 1;
            assert(clear_all_code(value.addresses@.take(i as int)) =~= clear_all_code(value.addresses@.take(i - 1)).push(
                clear_code(address),
            ));
            assert(self.code() =~= old(self).code() + clear_all_code(value.addresses@.take(i as int)));
        }
        assert(value.addresses@.take(i as int) =~= value.addresses@);
    }
}

/// The first variable of a value; a type error for a value without variables.
fn first_address<'a>(value: &CompiledValue) -> (r: CompileResult<'a, u16>)
    ensures
        value.addresses@.len() > 0 ==> r == Ok::<u16, CompilerError<'a>>(value.addresses@[0]),
        value.addresses@.len() == 0 ==> r is Err,
{
    if value.addresses.len() > 0 {
        Ok(value.addresses[0])
    } else {
        Err(CompilerError::TypeError { expected: Type::U8, actual: value.value_type.clone() })
    }
}

/// The two values are in the same variables, in the same order.
fn same_addresses(a: &CompiledValue, b: &CompiledValue) -> (r: bool)
    ensures
        r == (a.addresses@ == b.addresses@),
{
    if a.addresses.len() != b.addresses.len() {
        return false;
    }
    let mut i: usize = 0;
    while i < a.addresses.len()
        invariant
            i <= a.addresses@.len() == b.addresses@.len(),
            forall|k: int| 0 <= k < i ==> a.addresses@[k] == b.addresses@[k],
        decreases a.addresses@.len() - i,
    {
        if a.addresses[i] != b.addresses[i] {
            return false;
        }
        i = i + 1;
    }
    assert(a.addresses@ =~= b.addresses@);
    true
}

/// A value declared before `c` is declared before any later counter.
proof fn lemma_below_mono(v: CompiledValue, c: u16, d: u16)
    requires
        v.below(c),
        c <= d,
    ensures
        v.below(d),
{
}

/// An `if` being compiled: the loop that runs its body once, on a copy of the condition.
pub struct IfFrame {
    pub loop_frame: LoopFrame,
    pub if_check: CompiledValue,
    pub check_address: u16,
}

impl IfFrame {
    pub open spec fn wf(&self) -> bool {
        &&& self.loop_frame.wf()
        &&& self.check_address < self.loop_frame.start()
        &&& self.if_check.below(self.loop_frame.start())
    }
}

/// An `if` with an `else` being compiled: the loop of the branch being compiled, the copy of
/// the condition, and the flag that runs the `else` branch.
pub struct IfElseFrame {
    pub loop_frame: LoopFrame,
    pub if_check: CompiledValue,
    pub if_address: u16,
    pub else_address: u16,
}

impl IfElseFrame {
    pub open spec fn wf(&self) -> bool {
        &&& self.loop_frame.wf()
        &&& self.if_address < self.loop_frame.start()
        &&& self.else_address < self.loop_frame.start()
        &&& self.if_check.below(self.loop_frame.start())
    }
}

/// A loop that runs `n` times being compiled: the variable counted down and, where `n` was
/// borrowed, the variable that gives it back its value afterwards.
pub struct NTimesFrame {
    pub loop_frame: LoopFrame,
    pub address: u16,
    pub temp: Option<u16>,
}

impl NTimesFrame {
    pub open spec fn wf(&self) -> bool {
        &&& self.loop_frame.wf()
        &&& self.address < self.loop_frame.start()
        &&& self.temp matches Some(t) ==> t < self.loop_frame.start()
    }
}

impl<'a> BrainCrabCompiler<'a> {
    /// The compiler stands in the body of the loop that `frame` opened.
    pub open spec fn in_loop(&self, frame: &LoopFrame) -> bool {
        &&& self.inv()
        &&& frame.wf()
        &&& self.ctx() == below_set(frame.start())
        &&& self.depth() > 1
        &&& self.counter() >= frame.start()
    }

    /// The compiler went on from `before` into the body of the loop that `frame` opened.
    pub open spec fn entered(&self, before: &Self, frame: &LoopFrame) -> bool {
        &&& self.in_loop(frame)
        &&& frame.ctx() == before.ctx()
        &&& frame.start() >= before.counter()
        &&& self.counter() >= frame.start()
        &&& self.depth() == before.depth() + 1
    }

    /// The compiler left the body of the loop that `frame` opened and is back where `before`
    /// was before it was opened.
    pub open spec fn left(&self, before: &Self, frame: &LoopFrame) -> bool {
        &&& self.inv()
        &&& self.ctx() == frame.ctx()
        &&& self.counter() >= before.counter()
        &&& self.depth() == before.depth() - 1
    }

    /// Opens the body of an `if` on `predicate`: a copy of it is the condition of a loop that
    /// clears it at its end.
    pub fn if_then(&mut self, predicate: CompiledValue) -> (r: CompileResult<'a, IfFrame>)
        requires
            old(self).inv(),
            predicate.below(old(self).counter()),
        ensures
            r matches Ok(f) ==> f.wf() && final(self).entered(&*old(self), &f.loop_frame),
            r matches Ok(f) ==> final(self).code() == Seq::<SpecABF>::empty() && f.if_check.addresses@.len() > 0
                && f.check_address == f.if_check.addresses@[0] && if predicate.owned {
                f.if_check.addresses@ == predicate.addresses@ && f.loop_frame.code() == old(self).code()
            } else {
                f.if_check.addresses@ == numbered_from(old(self).counter(), predicate.value_type.spec_size())
                    && f.loop_frame.code() == old(self).code() + owned_copy_code(
                    predicate.addresses@,
                    old(self).counter(),
                    predicate.value_type.spec_size(),
                )
            },
            r is Ok <==> owned_copy_fits(predicate, old(self).counter()) && predicate.addresses@.len() > 0,
    {
        proof {
            reveal(numbered_from);
        }
        let if_check = self.new_owned(predicate)?;
        let check_address = first_address(&if_check)?;
        let loop_frame = self.loop_while();
        Ok(IfFrame { loop_frame, if_check, check_address })
    }

    /// Closes the body of the `if` that `frame` opened.
    pub fn end_if_then(&mut self, frame: IfFrame)
        requires
            old(self).in_loop(&frame.loop_frame),
            frame.wf(),
        ensures
            final(self).left(&*old(self), &frame.loop_frame),
            final(self).code() == frame.loop_frame.code().push(
                SpecABF::While(frame.check_address, old(self).code() + clear_all_code(frame.if_check.addresses@)),
            ),
    {
        proof {
            lemma_below_mono(frame.if_check, frame.loop_frame.start(), self.counter());
        }
        self.zero(frame.if_check);
        self.end_loop_while(frame.check_address, frame.loop_frame);
    }

    /// Opens the first branch of an `if` on `predicate` with an `else`.
    pub fn if_then_else(&mut self, predicate: CompiledValue) -> (r: CompileResult<'a, IfElseFrame>)
        requires
            old(self).inv(),
            predicate.below(old(self).counter()),
        ensures
            r matches Ok(f) ==> f.wf() && final(self).entered(&*old(self), &f.loop_frame),
            r is Ok ==> final(self).counter() == old(self).counter() + 1 + if predicate.owned {
                0
            } else {
                2 * predicate.value_type.spec_size()
            },
            r matches Ok(f) ==> final(self).code() == Seq::<SpecABF>::empty() && f.else_address == old(self).counter()
                && f.if_check.addresses@.len() > 0 && f.if_address == f.if_check.addresses@[0] && if predicate.owned {
                f.if_check.addresses@ == predicate.addresses@ && f.loop_frame.code() == old(self).code().push(
                    SpecABF::New(old(self).counter(), 1u8),
                )
            } else {
                f.if_check.addresses@ == numbered_from((old(self).counter() + 1) as u16, predicate.value_type.spec_size())
                    && f.loop_frame.code() == old(self).code().push(SpecABF::New(old(self).counter(), 1u8)) + owned_copy_code(
                    predicate.addresses@,
                    (old(self).counter() + 1) as u16,
                    predicate.value_type.spec_size(),
                )
            },
            r is Ok <==> old(self).counter() < u16::MAX && owned_copy_fits(predicate, (old(self).counter() + 1) as u16) && predicate.addresses@.len() > 0,
    {
        let else_check = self.value_from_const(ConstantValue::U8(1))?;
        proof {
            reveal(declarations);
            reveal(numbered_from);
            reveal_with_fuel(constant_data, 2);
            assert(constant_data(ConstantValue::U8(1)@) =~= seq![1u8]);
            assert(declarations(old(self).counter(), seq![1u8]) =~= seq![SpecABF::New(old(self).counter(), 1u8)]);
            assert(else_check.addresses@ =~= seq![old(self).counter()]);
        }
        let else_address = first_address(&else_check)?;
        proof {
            lemma_below_mono(predicate, old(self).counter(), self.counter());
        }
        let if_check = self.new_owned(predicate)?;
        let if_address = first_address(&if_check)?;
        let loop_frame = self.loop_while();
        Ok(IfElseFrame { loop_frame, if_check, if_address, else_address })
    }

    /// Closes the first branch of the `if` that `frame` opened and opens its `else` branch.
    pub fn else_branch(&mut self, frame: IfElseFrame) -> (r: IfElseFrame)
        requires
            old(self).in_loop(&frame.loop_frame),
            frame.wf(),
        ensures
            r.wf(),
            final(self).in_loop(&r.loop_frame),
            r.loop_frame.ctx() == frame.loop_frame.ctx(),
            r.loop_frame.start() >= old(self).counter(),
            final(self).counter() >= r.loop_frame.start(),
            final(self).depth() == old(self).depth(),
            final(self).counter() == old(self).counter(),
            r.if_check.addresses@ == frame.if_check.addresses@,
            r.if_address == frame.if_address,
            r.else_address == frame.else_address,
            final(self).code() == Seq::<SpecABF>::empty(),
            r.loop_frame.code() == frame.loop_frame.code().push(
                SpecABF::While(
                    frame.if_address,
                    old(self).code().push(SpecABF::Add(frame.else_address, -1i8)) + clear_all_code(frame.if_check.addresses@),
                ),
            ),
    {
        let IfElseFrame { loop_frame, if_check, if_address, else_address } = frame;
        self.add_to(else_address, -1);
        proof {
            lemma_below_mono(if_check, loop_frame.start(), self.counter());
        }
        self.zero(if_check.borrow());
        self.end_loop_while(if_address, loop_frame);
        let loop_frame = self.loop_while();
        IfElseFrame { loop_frame, if_check, if_address, else_address }
    }

    /// Closes the `else` branch that `frame` opened.
    pub fn end_if_then_else(&mut self, frame: IfElseFrame)
        requires
            old(self).in_loop(&frame.loop_frame),
            frame.wf(),
        ensures
            final(self).left(&*old(self), &frame.loop_frame),
            final(self).counter() == old(self).counter(),
            final(self).code() == frame.loop_frame.code().push(
                SpecABF::While(frame.else_address, old(self).code().push(SpecABF::Add(frame.else_address, -1i8))),
            ),
    {
        self.add_to(frame.else_address, -1);
        self.end_loop_while(frame.else_address, frame.loop_frame);
    }

    /// Opens a loop that runs `n` times, `n` being a `u8` or a `bool`; an owned `n` is counted
    /// down to zero, a borrowed one is given back its value by [`Self::end_n_times`].
    pub fn n_times(&mut self, n: CompiledValue) -> (r: CompileResult<'a, NTimesFrame>)
        requires
            old(self).inv(),
            n.below(old(self).counter()),
        ensures
            r matches Ok(f) ==> f.wf() && final(self).entered(&*old(self), &f.loop_frame),
            n.addresses@.len() != 1 ==> r is Err,
            n.addresses@.len() == 1 ==> (r is Ok <==> n.owned || old(self).counter() < u16::MAX),
            r matches Ok(f) ==> f.address == n.addresses@[0] && if n.owned {
                f.temp is None && f.loop_frame.code() == old(self).code() && final(self).code() == seq![
                    SpecABF::Add(f.address, -1i8),
                ]
            } else {
                f.temp == Some(old(self).counter()) && f.loop_frame.code() == old(self).code().push(SpecABF::New(old(self).counter(), 0u8))
                    && final(self).code() == seq![SpecABF::Add(f.address, -1i8), SpecABF::Add(old(self).counter(), 1i8)]
            },
            r is Ok ==> final(self).counter() == old(self).counter() + if n.owned { 0int } else { 1int },
    {
        proof { reveal(declarations); reveal(numbered_from); reveal(zeros); reveal(clear_all_code); reveal(write_all_code); reveal(move_code); reveal(owned_copy_code); reveal(assign_code); reveal(doubling_code); reveal(repeat_code); reveal(copy_code); reveal(copy_succeeds); }
        if n.size() != 1 {
            return Err(CompilerError::TypeError { expected: Type::U8, actual: n.value_type.clone() });
        }
        let address = n.address();
        if n.is_owned() {
            let loop_frame = self.loop_while();
            self.add_to(address, -1);
            assert(self.code() =~= seq![SpecABF::Add(address, -1i8)]);
            Ok(NTimesFrame { loop_frame, address, temp: None })
        } else {
            let temp = self.value_from_const(ConstantValue::U8(0))?;
            proof {
                reveal_with_fuel(constant_data, 2);
                assert(constant_data(ConstantValue::U8(0)@) =~= seq![0u8]);
                assert(declarations(old(self).counter(), seq![0u8]) =~= seq![SpecABF::New(old(self).counter(), 0u8)]);
            }
            let temp_address = first_address(&temp)?;
            let loop_frame = self.loop_while();
            self.add_to(address, -1);
            self.add_to(temp_address, 1);
            assert(self.code() =~= seq![SpecABF::Add(address, -1i8), SpecABF::Add(old(self).counter(), 1i8)]);
            Ok(NTimesFrame { loop_frame, address, temp: Some(temp_address) })
        }
    }

    /// Closes the loop that `frame` opened, giving a borrowed count back its value.
    pub fn end_n_times(&mut self, frame: NTimesFrame)
        requires
            old(self).in_loop(&frame.loop_frame),
            frame.wf(),
        ensures
            final(self).left(&*old(self), &frame.loop_frame),
            final(self).code() == frame.loop_frame.code().push(SpecABF::While(frame.address, old(self).code())) + match frame.temp {
                Some(t) => seq![move_loop(t, seq![frame.address])],
                None => Seq::<SpecABF>::empty(),
            },
            final(self).counter() == old(self).counter(),
    {
        proof { reveal(declarations); reveal(numbered_from); reveal(zeros); reveal(clear_all_code); reveal(write_all_code); reveal(move_code); reveal(owned_copy_code); reveal(assign_code); reveal(doubling_code); reveal(repeat_code); reveal(copy_code); reveal(copy_succeeds); }
        let NTimesFrame { loop_frame, address, temp } = frame;
        self.end_loop_while(address, loop_frame);
        match temp {
            Some(t) => {
                let back = self.loop_while();
                self.add_to(t, -1);
                self.add_to(address, 1);
                assert(self.code() =~= seq![SpecABF::Add(t, -1i8)] + adds(seq![address]));
                self.end_loop_while(t, back);
                assert(self.code() =~= frame.loop_frame.code().push(SpecABF::While(frame.address, old(self).code())) + seq![
                    move_loop(t, seq![frame.address]),
                ]);
            },
            None => {
                assert(self.code() =~= frame.loop_frame.code().push(SpecABF::While(frame.address, old(self).code())) + Seq::<
                    SpecABF,
                >::empty());
            },
        }
    }

    /// Adds `value` to `destination`, through a copy where both are the same variable.
    pub fn add_assign(&mut self, destination: CompiledValue, value: CompiledValue) -> (r: CompileResult<'a, ()>)
        requires
            old(self).inv(),
            destination.below(old(self).counter()),
            value.below(old(self).counter()),
        ensures
            r is Ok ==> final(self).continues(&*old(self)),
            destination.addresses@.len() == 0 || value.addresses@.len() == 0 ==> r is Err,
            destination.addresses@.len() > 0 && value.addresses@.len() > 0 && destination.addresses@[0] != value.addresses@[0] ==> (r is Ok
                <==> copy_succeeds(value, seq![destination.addresses@], old(self).counter())),
            destination.addresses@.len() > 0 && value.addresses@.len() > 0 && destination.addresses@[0] != value.addresses@[0] ==> (r is Ok
                ==> final(self).code() == old(self).code() + if value.owned {
                move_code(value.addresses@, seq![destination.addresses@])
            } else {
                copy_code(value.addresses@, seq![destination.addresses@], old(self).counter(), value.value_type.spec_size())
            }),
            destination.addresses@.len() > 0 && value.addresses@.len() > 0 && destination.addresses@[0] == value.addresses@[0] ==> (r is Ok
                ==> final(self).code() == old(self).code() + doubling_code(
                destination.addresses@,
                old(self).counter(),
                destination.value_type.spec_size(),
            )),
            destination.addresses@.len() > 0 && value.addresses@.len() > 0 && destination.addresses@[0] != value.addresses@[0] ==> (r is Ok ==> final(self).counter() == old(self).counter() + if value.owned { 0int } else { value.value_type.spec_size() as int }),
    {
        proof { reveal(declarations); reveal(numbered_from); reveal(zeros); reveal(clear_all_code); reveal(write_all_code); reveal(move_code); reveal(owned_copy_code); reveal(assign_code); reveal(doubling_code); reveal(repeat_code); reveal(copy_code); reveal(copy_succeeds); }
        let d = first_address(&destination)?;
        let v = first_address(&value)?;
        if d == v {
            let ghost c = self.counter();
            let temp = self.value_from_const(ConstantValue::U8(0))?;
            proof {
                lemma_below_mono(destination, old(self).counter(), self.counter());
                reveal_with_fuel(constant_data, 2);
                assert(constant_data(ConstantValue::U8(0)@) =~= seq![0u8]);
                assert(temp.addresses@ =~= seq![c]);
            }
            let mut into_temp: Vec<CompiledValue> = Vec::new();
            into_temp.push(temp.borrow());
            assert(addresses_of(into_temp@) =~= seq![seq![c]]);
            self.copy_and_add_values(destination.borrow(), into_temp.as_slice())?;
            let mut back: Vec<CompiledValue> = Vec::new();
            proof {
                lemma_below_mono(destination, old(self).counter(), self.counter());
            }
            let ghost da = destination.addresses@;
            back.push(destination);
            assert(addresses_of(back@) =~= seq![da]);
            let r = self.move_and_add_values(temp, back.as_slice());
            assert(r is Ok ==> self.code() =~= old(self).code() + doubling_code(da, c, destination.value_type.spec_size()));
            r
        } else {
            let mut into: Vec<CompiledValue> = Vec::new();
            let ghost da = destination.addresses@;
            into.push(destination);
            assert(addresses_of(into@) =~= seq![da]);
            self.copy_and_add_values(value, into.as_slice())
        }
    }

    /// Subtracts `value` from `destination`; zero where both are the same variable.
    pub fn sub_assign(&mut self, destination: CompiledValue, value: CompiledValue) -> (r: CompileResult<'a, ()>)
        requires
            old(self).inv(),
            destination.below(old(self).counter()),
            value.below(old(self).counter()),
        ensures
            r is Ok ==> final(self).continues(&*old(self)),
            destination.addresses@.len() == 0 || value.addresses@.len() == 0 ==> r is Err,
            destination.addresses@.len() > 0 && value.addresses@.len() > 0 && destination.addresses@[0] == value.addresses@[0] ==> (r is Ok
                && final(self).code() == old(self).code() + clear_all_code(destination.addresses@)),
            destination.addresses@.len() > 0 && value.addresses@.len() > 0 && destination.addresses@[0] != value.addresses@[0] ==> (r is Ok
                <==> value.addresses@.len() == 1 && (value.owned || old(self).counter() < u16::MAX)),
            destination.addresses@.len() > 0 && value.addresses@.len() > 0 && destination.addresses@[0] != value.addresses@[0] ==> (r is Ok
                ==> final(self).code() == old(self).code() + repeat_code(
                value.addresses@[0],
                value.owned,
                old(self).counter(),
                seq![SpecABF::Add(destination.addresses@[0], -1i8)],
            )),
            r is Ok ==> final(self).counter() == old(self).counter() + if value.owned || destination.addresses@[0] == value.addresses@[0] { 0int } else { 1int },
    {
        proof { reveal(declarations); reveal(numbered_from); reveal(zeros); reveal(clear_all_code); reveal(write_all_code); reveal(move_code); reveal(owned_copy_code); reveal(assign_code); reveal(doubling_code); reveal(repeat_code); reveal(copy_code); reveal(copy_succeeds); }
        let d = first_address(&destination)?;
        let v = first_address(&value)?;
        if d == v {
            self.zero(destination);
            Ok(())
        } else {
            let ghost c = self.counter();
            let ghost owned = value.owned;
            let frame = self.n_times(value)?;
            let ghost fr = frame;
            assert(fr.address == v);
            assert(owned ==> fr.temp is None && fr.loop_frame.code() == old(self).code() && self.code() == seq![SpecABF::Add(v, -1i8)]);
            assert(!owned ==> fr.temp == Some(c) && fr.loop_frame.code() == old(self).code().push(SpecABF::New(c, 0u8)));
            self.add_to(d, -1);
            let ghost body = self.code();
            self.end_n_times(frame);
            assert(self.code() == fr.loop_frame.code().push(SpecABF::While(v, body)) + match fr.temp {
                Some(t) => seq![move_loop(t, seq![v])],
                None => Seq::<SpecABF>::empty(),
            });
            proof {
                if owned {
                    assert(body =~= seq![SpecABF::Add(v, -1i8), SpecABF::Add(d, -1i8)]);
                    assert(self.code() =~= old(self).code().push(
                        SpecABF::While(v, seq![SpecABF::Add(v, -1i8), SpecABF::Add(d, -1i8)]),
                    ));
                    assert(seq![SpecABF::Add(v, -1i8)] + seq![SpecABF::Add(d, -1i8)] =~= seq![SpecABF::Add(v, -1i8), SpecABF::Add(d, -1i8)]);
                } else {
                    assert(body =~= seq![SpecABF::Add(v, -1i8), SpecABF::Add(c, 1i8), SpecABF::Add(d, -1i8)]);
                    assert(self.code() =~= old(self).code() + seq![
                        SpecABF::New(c, 0u8),
                        SpecABF::While(v, seq![SpecABF::Add(v, -1i8), SpecABF::Add(c, 1i8), SpecABF::Add(d, -1i8)]),
                        move_loop(c, seq![v]),
                    ]);
                    assert(seq![SpecABF::Add(v, -1i8), SpecABF::Add(c, 1i8)] + seq![SpecABF::Add(d, -1i8)] =~= seq![
                        SpecABF::Add(v, -1i8),
                        SpecABF::Add(c, 1i8),
                        SpecABF::Add(d, -1i8),
                    ]);
                }
            }
            Ok(())
        }
    }

    /// Multiplies `destination` by `value`, adding `destination` `value` times into a new
    /// variable.
    pub fn mul_assign(&mut self, destination: CompiledValue, value: CompiledValue) -> (r: CompileResult<'a, ()>)
        requires
            old(self).inv(),
            destination.below(old(self).counter()),
            value.below(old(self).counter()),
        ensures
            r is Ok ==> final(self).continues(&*old(self)),
            r is Ok <==> value.addresses@.len() == 1 && destination.addresses@.len() == 1 && destination.value_type.size_fits()
                && destination.value_type.spec_size() == 1 && old(self).counter() + (if value.owned { 1int } else { 2int }) + 2
                <= u16::MAX,
            r is Ok ==> final(self).code() == old(self).code() + seq![SpecABF::New(old(self).counter(), 0u8)] + repeat_code(
                value.addresses@[0],
                value.owned,
                (old(self).counter() + 1) as u16,
                copy_code(
                    destination.addresses@,
                    seq![seq![old(self).counter()]],
                    (old(self).counter() + if value.owned { 1int } else { 2int }) as u16,
                    1,
                ),
            ) + assign_code(
                destination.addresses@,
                seq![old(self).counter()],
                false,
                (old(self).counter() + if value.owned { 2int } else { 3int }) as u16,
                1,
            ),
    {
        proof {
            reveal(copy_succeeds);
        }
        let ghost c = self.counter();
        let ghost k: int = if value.owned { 1int } else { 2int };
        let ghost d = destination.addresses@;
        let ghost owned = value.owned;
        let ghost vlen = value.addresses@.len();
        let result = self.value_from_const(ConstantValue::U8(0))?;
        proof {
            reveal(declarations);
            reveal(numbered_from);
            reveal_with_fuel(constant_data, 2);
            assert(constant_data(ConstantValue::U8(0)@) =~= seq![0u8]);
            assert(result.addresses@ =~= seq![c]);
            assert(declarations(c, seq![0u8]) =~= seq![SpecABF::New(c, 0u8)]);
            lemma_below_mono(value, old(self).counter(), self.counter());
            lemma_below_mono(destination, old(self).counter(), self.counter());
        }
        let ghost after_result = self.code();
        let ghost v0 = value.addresses@[0];
        let frame = self.n_times(value)?;
        let ghost fr = frame;
        proof {
            lemma_below_mono(result, frame.loop_frame.start(), self.counter());
            lemma_below_mono(destination, old(self).counter(), self.counter());
        }
        let ghost body_start = self.code();
        assert(self.counter() == c + k);
        proof {
            if d.len() > 0 {
                assert(d[0] < c);
            }
            assert(seq![seq![c]][0] == seq![c]);
            if overlapping(d, seq![seq![c]]) {
                let (i, q) = choose|i: int, q: int| 0 <= i < d.len() && 0 <= q < 1 && #[trigger] seq![seq![c]][q][i] == d[i];
                assert(d[i] < c);
            }
            assert(sizes_match(d, seq![seq![c]]) <==> d.len() == 1);
        }
        self.add_assign(result.borrow(), destination.borrow())?;
        let ghost body = self.code();
        assert(self.counter() == c + k + destination.value_type.spec_size());
        self.end_n_times(frame);
        proof {
            lemma_below_mono(result, frame.loop_frame.start(), self.counter());
            lemma_below_mono(destination, old(self).counter(), self.counter());
        }
        let ghost before_assign = self.code();
        let ghost cout = self.counter();
        proof {
            assert(seq![d][0] == d);
            if overlapping(seq![c], seq![d]) {
                let (i, q) = choose|i: int, q: int| 0 <= i < 1 && 0 <= q < 1 && #[trigger] seq![d][q][i] == seq![c][i];
                assert(d[0] < c);
            }
            assert(sizes_match(seq![c], seq![d]) <==> d.len() == 1);
        }
        let r = self.assign(destination, result.borrow());
        proof {
            if r is Ok {
                reveal(repeat_code);
                let inner = copy_code(d, seq![seq![c]], (c + k) as u16, 1);
                assert(body =~= body_start + inner);
                if owned {
                    assert(body_start =~= seq![SpecABF::Add(v0, -1i8)]);
                    assert(before_assign =~= after_result.push(SpecABF::While(v0, body)));
                } else {
                    assert(body_start =~= seq![SpecABF::Add(v0, -1i8), SpecABF::Add((c + 1) as u16, 1i8)]);
                    assert(before_assign =~= after_result.push(SpecABF::New((c + 1) as u16, 0u8)).push(SpecABF::While(v0, body)) + seq![
                        move_loop((c + 1) as u16, seq![v0]),
                    ]);
                }
                assert(self.code() =~= old(self).code() + seq![SpecABF::New(c, 0u8)] + repeat_code(v0, owned, (c + 1) as u16, inner)
                    + assign_code(d, seq![c], false, (c + k + 1) as u16, 1));
            }
        }
        r
    }

    /// Sets `destination` to `value`, where they are not already the same variables; a type
    /// error where their sizes differ.
    pub fn assign(&mut self, destination: CompiledValue, value: CompiledValue) -> (r: CompileResult<'a, ()>)
        requires
            old(self).inv(),
            destination.below(old(self).counter()),
            value.below(old(self).counter()),
        ensures
            r is Ok ==> final(self).continues(&*old(self)),
            destination.addresses@.len() != value.addresses@.len() ==> r == Err::<(), CompilerError<'a>>(
                CompilerError::TypeError { expected: destination.value_type, actual: value.value_type },
            ),
            destination.addresses@ == value.addresses@ ==> r is Ok && *final(self) == *old(self),
            destination.addresses@.len() == value.addresses@.len() && destination.addresses@ != value.addresses@ ==> (r is Ok
                <==> copy_succeeds(value, seq![destination.addresses@], old(self).counter())),
            destination.addresses@ != value.addresses@ ==> (r is Ok ==> final(self).code() == old(self).code() + assign_code(
                destination.addresses@,
                value.addresses@,
                value.owned,
                old(self).counter(),
                value.value_type.spec_size(),
            )),
            r is Ok ==> final(self).counter() == old(self).counter() + if destination.addresses@ == value.addresses@ || value.owned { 0int } else { value.value_type.spec_size() as int },
    {
        proof { reveal(declarations); reveal(numbered_from); reveal(zeros); reveal(clear_all_code); reveal(write_all_code); reveal(move_code); reveal(owned_copy_code); reveal(assign_code); reveal(doubling_code); reveal(repeat_code); reveal(copy_code); reveal(copy_succeeds); }
        if destination.size() != value.size() {
            return Err(CompilerError::TypeError { expected: destination.value_type.clone(), actual: value.value_type.clone() });
        }
        if !same_addresses(&destination, &value) {
            self.zero(destination.borrow());
            let mut into: Vec<CompiledValue> = Vec::new();
            let ghost d = destination.addresses@;
            into.push(destination);
            assert(addresses_of(into@) =~= seq![d]);
            self.copy_and_add_values(value, into.as_slice())?;
        }
        Ok(())
    }

    /// Sets a `bool` to its negation.
    pub fn not_assign(&mut self, value: CompiledValue) -> (r: CompileResult<'a, ()>)
        requires
            old(self).inv(),
            value.below(old(self).counter()),
        ensures
            r is Ok ==> final(self).continues(&*old(self)),
            value.addresses@.len() == 0 ==> r is Err,
            r is Ok ==> final(self).code() == old(self).code() + branch_setup(
                old(self).counter(),
                value.addresses@,
                false,
                value.value_type.spec_size(),
            ) + branches(
                old(self).counter(),
                branch_check(old(self).counter(), value.addresses@, false, value.value_type.spec_size()),
                clear_all_code(value.addresses@),
                seq![SpecABF::Add(value.addresses@[0], 1i8)],
            ),
            r is Ok <==> value.addresses@.len() > 0 && value.value_type.size_fits() && old(self).counter() + 1 + 2 * value.value_type.spec_size() <= u16::MAX && value.addresses@.len() == value.value_type.spec_size(),
            r is Ok ==> final(self).counter() == old(self).counter() + 1 + 2 * value.value_type.spec_size(),
    {
        let ghost c = self.counter();
        let ghost n = value.value_type.spec_size();
        let ghost v = value.addresses@;
        let address = first_address(&value)?;
        let frame = self.if_then_else(value.borrow())?;
        let ghost f1 = frame;
        proof {
            lemma_below_mono(value, old(self).counter(), self.counter());
        }
        self.zero(value.borrow());
        let ghost then_body = self.code();
        let frame = self.else_branch(frame);
        let ghost f2 = frame;
        self.add_to(address, 1);
        let ghost else_body = self.code();
        self.end_if_then_else(frame);
        proof {
            reveal(branch_setup);
            reveal(branches);
            let check = branch_check(c, v, false, n);
            assert(then_body =~= clear_all_code(v));
            assert(else_body =~= seq![SpecABF::Add(v[0], 1i8)]);
            assert(f1.if_check.addresses@ == check);
            assert(self.code() =~= old(self).code() + branch_setup(c, v, false, n) + branches(c, check, then_body, else_body));
        }
        Ok(())
    }

    /// Clears `destination` where `value` is false.
    pub fn and_assign(&mut self, destination: CompiledValue, value: CompiledValue) -> (r: CompileResult<'a, ()>)
        requires
            old(self).inv(),
            destination.below(old(self).counter()),
            value.below(old(self).counter()),
        ensures
            r is Ok ==> final(self).continues(&*old(self)),
            value.addresses@.len() == 0 ==> r is Err,
            r is Ok ==> final(self).code() == old(self).code() + branch_setup(
                old(self).counter(),
                value.addresses@,
                value.owned,
                value.value_type.spec_size(),
            ) + branches(
                old(self).counter(),
                branch_check(old(self).counter(), value.addresses@, value.owned, value.value_type.spec_size()),
                Seq::<SpecABF>::empty(),
                clear_all_code(destination.addresses@),
            ),
            r is Ok <==> value.addresses@.len() > 0 && old(self).counter() < u16::MAX && owned_copy_fits(value, (old(self).counter() + 1) as u16),
            r is Ok && value.value_type == Type::Bool && destination.addresses@.len() == 1 && value.addresses@.len() == 1
                && destination.addresses@[0] != value.addresses@[0] ==> forall|st: AbfState, fuel: nat|
                fuel >= 257 && (#[trigger] run_seq(old(self).code(), st, fuel)) is Some ==> (run_seq(final(self).code(), st, fuel) matches Some(
                after,
            ) && after.input == run_seq(old(self).code(), st, fuel)->Some_0.input && after.output == run_seq(
                old(self).code(),
                st,
                fuel,
            )->Some_0.output && (cell(after.cells, destination.addresses@[0]) != 0 <==> (cell(
                run_seq(old(self).code(), st, fuel)->Some_0.cells,
                destination.addresses@[0],
            ) != 0 && cell(run_seq(old(self).code(), st, fuel)->Some_0.cells, value.addresses@[0]) != 0))),
    {
        let ghost c = self.counter();
        let ghost n = value.value_type.spec_size();
        let ghost v = value.addresses@;
        let ghost owned = value.owned;
        if value.addresses.len() == 0 {
            return Err(CompilerError::TypeError { expected: Type::Bool, actual: value.value_type.clone() });
        }
        let frame = self.if_then_else(value)?;
        let ghost f1 = frame;
        let frame = self.else_branch(frame);
        proof {
            lemma_below_mono(destination, old(self).counter(), self.counter());
        }
        self.zero(destination);
        let ghost else_body = self.code();
        self.end_if_then_else(frame);
        proof {
            reveal(branch_setup);
            reveal(branches);
            let check = branch_check(c, v, owned, n);
            assert(else_body =~= clear_all_code(destination.addresses@));
            assert(Seq::<SpecABF>::empty().push(SpecABF::Add(c, -1i8)) =~= seq![SpecABF::Add(c, -1i8)]);
            assert(f1.if_check.addresses@ == check);
            assert(self.code() =~= old(self).code() + branch_setup(c, v, owned, n) + branches(
                c,
                check,
                Seq::<SpecABF>::empty(),
                else_body,
            ));
            if value.value_type == Type::Bool && destination.addresses@.len() == 1 && v.len() == 1 && destination.addresses@[0] != v[0] {
                let delta = and_code(c, destination.addresses@, v, owned);
                assert(self.code() == old(self).code() + delta);
                assert(destination.addresses@ =~= seq![destination.addresses@[0]]);
                assert(v =~= seq![v[0]]);
                assert(destination.addresses@[0] < c);
                assert(v[0] < c);
                assert forall|st: AbfState, fuel: nat| fuel >= 257 && (#[trigger] run_seq(old(self).code(), st, fuel)) is Some implies (run_seq(
                    self.code(),
                    st,
                    fuel,
                ) matches Some(after) && after.input == run_seq(old(self).code(), st, fuel)->Some_0.input && after.output == run_seq(
                    old(self).code(),
                    st,
                    fuel,
                )->Some_0.output && (cell(after.cells, destination.addresses@[0]) != 0 <==> (cell(
                    run_seq(old(self).code(), st, fuel)->Some_0.cells,
                    destination.addresses@[0],
                ) != 0 && cell(run_seq(old(self).code(), st, fuel)->Some_0.cells, v[0]) != 0))) by {
                    let mid = run_seq(old(self).code(), st, fuel)->Some_0;
                    lemma_run_append(old(self).code(), delta, st, fuel);
                    lemma_run_and(c, destination.addresses@[0], v[0], owned, mid, fuel);
                }
            }
        }
        Ok(())
    }

    /// Sets `destination` to `value` where `destination` is false.
    pub fn or_assign(&mut self, destination: CompiledValue, value: CompiledValue) -> (r: CompileResult<'a, ()>)
        requires
            old(self).inv(),
            destination.below(old(self).counter()),
            value.below(old(self).counter()),
        ensures
            r is Ok ==> final(self).continues(&*old(self)),
            destination.addresses@.len() == 0 ==> r is Err,
            r is Ok ==> final(self).code() == old(self).code() + branch_setup(
                old(self).counter(),
                destination.addresses@,
                false,
                destination.value_type.spec_size(),
            ) + branches(
                old(self).counter(),
                branch_check(old(self).counter(), destination.addresses@, false, destination.value_type.spec_size()),
                Seq::<SpecABF>::empty(),
                if destination.addresses@ == value.addresses@ {
                    Seq::<SpecABF>::empty()
                } else {
                    assign_code(
                        destination.addresses@,
                        value.addresses@,
                        value.owned,
                        (old(self).counter() + 1 + 2 * destination.value_type.spec_size()) as u16,
                        value.value_type.spec_size(),
                    )
                },
            ),
            r is Ok <==> destination.addresses@.len() > 0 && destination.value_type.size_fits() && old(self).counter() + 1 + 2 * destination.value_type.spec_size() <= u16::MAX && destination.addresses@.len() == destination.value_type.spec_size() && destination.addresses@.len() == value.addresses@.len() && (destination.addresses@ == value.addresses@ || copy_succeeds(value, seq![destination.addresses@], (old(self).counter() + 1 + 2 * destination.value_type.spec_size()) as u16)),
    {
        let ghost c = self.counter();
        let ghost n = destination.value_type.spec_size();
        let ghost d = destination.addresses@;
        if destination.addresses.len() == 0 {
            return Err(CompilerError::TypeError { expected: Type::Bool, actual: destination.value_type.clone() });
        }
        let frame = self.if_then_else(destination.borrow())?;
        let ghost f1 = frame;
        let ghost inner = self.counter();
        proof {
            reveal(owned_copy_code);
            reveal(copy_code);
            reveal(declarations);
        }
        assert(inner == c + 1 + 2 * n);
        let frame = self.else_branch(frame);
        proof {
            lemma_below_mono(destination, old(self).counter(), self.counter());
            lemma_below_mono(value, old(self).counter(), self.counter());
        }
        let ghost before_assign = self.code();
        self.assign(destination, value)?;
        let ghost else_body = self.code();
        assert(before_assign == Seq::<SpecABF>::empty());
        assert(else_body =~= if d == value.addresses@ {
            Seq::<SpecABF>::empty()
        } else {
            assign_code(d, value.addresses@, value.owned, inner, value.value_type.spec_size())
        });
        self.end_if_then_else(frame);
        proof {
            reveal(branch_setup);
            reveal(branches);
            let check = branch_check(c, d, false, n);
            assert(Seq::<SpecABF>::empty().push(SpecABF::Add(c, -1i8)) =~= seq![SpecABF::Add(c, -1i8)]);
            assert(f1.if_check.addresses@ == check);
            assert(self.code() =~= old(self).code() + branch_setup(c, d, false, n) + branches(
                c,
                check,
                Seq::<SpecABF>::empty(),
                else_body,
            ));
        }
        Ok(())
    }

    /// Prints the text, one new constant per character; an error for text that is not ASCII.
    pub fn print_string(&mut self, string: String) -> (r: CompileResult<'a, ()>)
        requires
            old(self).inv(),
        ensures
            r is Ok ==> final(self).continues(&*old(self)),
            !vstd::utf8::is_ascii_chars(string@) ==> r == Err::<(), CompilerError<'a>>(CompilerError::NonAsciiString(string)),
            r is Ok <==> vstd::utf8::is_ascii_chars(string@) && old(self).counter() + string@.len() <= u16::MAX,
            r is Ok ==> final(self).counter() == old(self).counter() + string@.len() && final(self).code() == old(self).code()
                + print_code(old(self).counter(), ascii_bytes(string@)),
            !vstd::utf8::is_ascii_chars(string@) ==> *final(self) == *old(self),
            vstd::utf8::is_ascii_chars(string@) && r is Err ==> final(self).continues(&*old(self)) && final(self).counter() == u16::MAX
                && final(self).code() == old(self).code() + print_code(old(self).counter(), ascii_bytes(string@).take(u16::MAX - old(self).counter())),
    {
        let text = string.as_str();
        if text.is_ascii() {
            let n = text.unicode_len();
            let mut i: usize = 0;
            let ghost bytes = ascii_bytes(string@);
            proof {
                reveal(print_code);
                assert(bytes.take(0) =~= Seq::<u8>::empty());
                assert(self.code() =~= old(self).code() + print_code(old(self).counter(), bytes.take(0)));
            }
            while i < n
                invariant
                    i <= n,
                    self.continues(&*old(self)),
                    n == text@.len(),
                    text@ == string@,
                    bytes == ascii_bytes(string@),
                    vstd::utf8::is_ascii_chars(string@),
                    self.counter() == old(self).counter() + i,
                    self.code() == old(self).code() + print_code(old(self).counter(), bytes.take(i as int)),
                decreases n - i,
            {
                let c = text.get_char(i);
                #[verifier::truncate]
                let byte = c as u8;
                let ghost before = self.code();
                let ghost at = self.counter();
                let new_value = match self.value_from_const(ConstantValue::U8(byte)) {
                    Ok(v) => v,
                    Err(e) => {
                        assert(old(self).counter() + string@.len() > u16::MAX);
                        assert(bytes.take(u16::MAX - old(self).counter()) =~= bytes.take(i as int));
                        assert(declarations(at, constant_data(ConstantValue::U8(byte)@).take(0)) =~= Seq::<SpecABF>::empty()) by {
                            reveal(declarations);
                        }
                        assert(self.code() =~= before);
                        return Err(e);
                    },
                };
                self.write_value(new_value);
                i = i + 1;
                proof {
                    reveal(print_code);
                    reveal(declarations);
                    reveal(numbered_from);
                    reveal(write_all_code);
                    reveal_with_fuel(constant_data, 2);
                    assert(constant_data(ConstantValue::U8(byte)@) =~= seq![byte]);
                    assert(declarations(at, seq![byte]) =~= seq![SpecABF::New(at, byte)]);
                    assert(new_value.addresses@ =~= seq![at]);
                    assert(write_all_code(seq![at]) =~= seq![SpecABF::Write(at)]);
                    let t = bytes.take(i as int);
                    assert(t.drop_last() =~= bytes.take(i - 1));
                    assert(t.last() == byte);
                    assert(print_code(old(self).counter(), t) == print_code(old(self).counter(), t.drop_last()) + seq![
                        SpecABF::New(at, byte),
                        SpecABF::Write(at),
                    ]);
                    assert(self.code() =~= old(self).code() + print_code(old(self).counter(), t));
                }
            }
            assert(bytes.take(i as int) =~= bytes);
            Ok(())
        } else {
            Err(CompilerError::NonAsciiString(string))
        }
    }
}

/// The type an expression has whatever the variables are: `None` for a variable or an
/// element of an array.
pub open spec fn static_type<'a>(e: Expression<'a>) -> Option<Type> {
    match e {
        Expression::Constant(c) => constant_type(c@),
        Expression::LValue(_) => None,
        Expression::Read => Some(Type::U8),
        Expression::Add(_, _) => Some(Type::U8),
        Expression::Sub(_, _) => Some(Type::U8),
        Expression::Mul(_, _) => Some(Type::U8),
        Expression::Div(_, _) => Some(Type::U8),
        Expression::Mod(_, _) => Some(Type::U8),
        _ => Some(Type::Bool),
    }
}

/// A way to reach into a value.
#[derive(Debug)]
pub enum Accessor {
    /// The element at the index that the value holds, found when running.
    Index(CompiledValue),
}

/// A value together with the indices to follow into it.
#[derive(Debug)]
pub struct AccessedValue {
    pub source: CompiledValue,
    pub accessors: Vec<Accessor>,
}

/// The type reached from `t` by the accessors from `i` on; an error where one of them indexes
/// what is not an array.
fn accessed_type<'a>(t: &Type, accessors: &Vec<Accessor>, i: usize) -> (r: CompileResult<'a, Type>)
    requires
        i <= accessors@.len(),
    ensures
        i == accessors@.len() ==> r == Ok::<Type, CompilerError<'a>>(*t),
    decreases accessors@.len() - i,
{
    if i == accessors.len() {
        Ok(t.clone())
    } else {
        match t {
            Type::Array { element_type, .. } => accessed_type(element_type, accessors, i + 1),
            _ => Err(CompilerError::NotAnArray(t.clone())),
        }
    }
}

impl AccessedValue {
    /// The source and every index were declared before `counter`.
    pub open spec fn below(&self, counter: u16) -> bool {
        &&& self.source.below(counter)
        &&& forall|k: int| 0 <= k < self.accessors@.len() ==> ((#[trigger] self.accessors@[k]) matches Accessor::Index(v) && v.below(counter))
    }

    pub fn new(source: CompiledValue, accessors: Vec<Accessor>) -> (r: Self)
        ensures
            r.source == source,
            r.accessors == accessors,
    {
        Self { source, accessors }
    }

    /// The value itself, with no index to follow.
    pub fn unit(source: CompiledValue) -> (r: Self)
        ensures
            r.source == source,
            r.accessors@.len() == 0,
    {
        Self::new(source, Vec::new())
    }

    /// The type of what the indices reach; an error where one of them indexes what is not an
    /// array.
    pub fn value_type<'a>(&self) -> (r: CompileResult<'a, Type>)
        ensures
            self.accessors@.len() == 0 ==> r == Ok::<Type, CompilerError<'a>>(self.source.value_type),
    {
        accessed_type(&self.source.value_type, &self.accessors, 0)
    }
}

/// What to do with each element that an access reaches.
pub enum AccessAction {
    /// Add the element to this value.
    CopyInto(CompiledValue),
    /// Set the element to this value.
    AssignFrom(CompiledValue),
}

impl AccessAction {
    pub open spec fn below(&self, counter: u16) -> bool {
        match self {
            AccessAction::CopyInto(v) => v.below(counter),
            AccessAction::AssignFrom(v) => v.below(counter),
        }
    }
}

/// Applying `action` to `target` itself succeeds, with the variables numbered from `counter` on
/// free: a copy as [`BrainCrabCompiler::copy_and_add_values`] needs, an assignment of a value
/// with as many variables, into other variables as a copy of it needs.
pub open spec fn action_succeeds(target: CompiledValue, action: AccessAction, counter: u16) -> bool {
    match action {
        AccessAction::CopyInto(t) => copy_succeeds(target, seq![t.addresses@], counter),
        AccessAction::AssignFrom(v) => target.addresses@.len() == v.addresses@.len() && (target.addresses@ == v.addresses@
            || copy_succeeds(borrowed(v), seq![target.addresses@], counter)),
    }
}

/// The code that applying `action` to `target` itself adds, with the variables numbered from
/// `counter` on free.
pub open spec fn action_code(target: CompiledValue, action: AccessAction, counter: u16) -> Seq<SpecABF> {
    match action {
        AccessAction::CopyInto(t) => if target.owned {
            move_code(target.addresses@, seq![t.addresses@])
        } else {
            copy_code(target.addresses@, seq![t.addresses@], counter, target.value_type.spec_size())
        },
        AccessAction::AssignFrom(v) => if target.addresses@ == v.addresses@ {
            Seq::empty()
        } else {
            assign_code(target.addresses@, v.addresses@, false, counter, v.value_type.spec_size())
        },
    }
}

/// The variables that applying `action` to `target` itself declares.
pub open spec fn action_cost(target: CompiledValue, action: AccessAction) -> nat {
    match action {
        AccessAction::CopyInto(_) => if target.owned { 0 } else { target.value_type.spec_size() },
        AccessAction::AssignFrom(v) => if target.addresses@ == v.addresses@ { 0 } else { v.value_type.spec_size() },
    }
}

/// A `while` being compiled: the loop, the variable of its condition, and, for a condition
/// computed anew after each round, the variable holding it and the expression.
pub struct WhileFrame<'a> {
    pub loop_frame: LoopFrame,
    pub address: u16,
    pub reevaluate: Option<(CompiledValue, Expression<'a>)>,
}

impl<'a> WhileFrame<'a> {
    pub open spec fn wf(&self) -> bool {
        &&& self.loop_frame.wf()
        &&& self.address < self.loop_frame.start()
        &&& (self.reevaluate matches Some((temp, e)) ==> temp.below(self.loop_frame.start()) && expression_ok(e))
    }
}

impl<'a> BrainCrabCompiler<'a> {
    fn eval_add(&mut self, a: CompiledValue, b: CompiledValue) -> (r: CompileResult<'a, CompiledValue>)
        requires
            old(self).inv(),
            a.below(old(self).counter()),
            b.below(old(self).counter()),
        ensures
            r matches Ok(v) ==> final(self).continues(&*old(self)) && v.below(final(self).counter()) && v.value_type == Type::U8,
            a.value_type != Type::U8 ==> r == Err::<CompiledValue, CompilerError<'a>>(CompilerError::TypeError { expected: Type::U8, actual: a.value_type }),
            a.value_type == Type::U8 && b.value_type != Type::U8 ==> r == Err::<CompiledValue, CompilerError<'a>>(CompilerError::TypeError { expected: Type::U8, actual: b.value_type }),
    {
        a.type_check(&Type::U8)?;
        b.type_check(&Type::U8)?;
        if a.is_owned() {
            self.add_assign(a.borrow(), b)?;
            Ok(a)
        } else {
            let result = self.new_owned(b)?;
            self.add_assign(result.borrow(), a)?;
            Ok(result)
        }
    }

    fn eval_mul(&mut self, a: CompiledValue, b: CompiledValue) -> (r: CompileResult<'a, CompiledValue>)
        requires
            old(self).inv(),
            a.below(old(self).counter()),
            b.below(old(self).counter()),
        ensures
            r matches Ok(v) ==> final(self).continues(&*old(self)) && v.below(final(self).counter()) && v.value_type == Type::U8,
            a.value_type != Type::U8 ==> r == Err::<CompiledValue, CompilerError<'a>>(CompilerError::TypeError { expected: Type::U8, actual: a.value_type }),
            a.value_type == Type::U8 && b.value_type != Type::U8 ==> r == Err::<CompiledValue, CompilerError<'a>>(CompilerError::TypeError { expected: Type::U8, actual: b.value_type }),
    {
        a.type_check(&Type::U8)?;
        b.type_check(&Type::U8)?;
        if b.is_owned() {
            self.mul_assign(b.borrow(), a)?;
            Ok(b)
        } else {
            let result = self.new_owned(a)?;
            self.mul_assign(result.borrow(), b)?;
            Ok(result)
        }
    }

    fn eval_sub(&mut self, a: CompiledValue, b: CompiledValue) -> (r: CompileResult<'a, CompiledValue>)
        requires
            old(self).inv(),
            a.below(old(self).counter()),
            b.below(old(self).counter()),
        ensures
            r matches Ok(v) ==> final(self).continues(&*old(self)) && v.below(final(self).counter()) && v.value_type == Type::U8,
            a.value_type != Type::U8 ==> r == Err::<CompiledValue, CompilerError<'a>>(CompilerError::TypeError { expected: Type::U8, actual: a.value_type }),
            a.value_type == Type::U8 && b.value_type != Type::U8 ==> r == Err::<CompiledValue, CompilerError<'a>>(CompilerError::TypeError { expected: Type::U8, actual: b.value_type }),
    {
        a.type_check(&Type::U8)?;
        b.type_check(&Type::U8)?;
        let result = self.new_owned(a)?;
        self.sub_assign(result.borrow(), b)?;
        Ok(result)
    }

    fn eval_div(&mut self, a: CompiledValue, b: CompiledValue) -> (r: CompileResult<'a, CompiledValue>)
        requires
            old(self).inv(),
            a.below(old(self).counter()),
            b.below(old(self).counter()),
        ensures
            r matches Ok(v) ==> final(self).continues(&*old(self)) && v.below(final(self).counter()) && v.value_type == Type::U8,
            a.value_type != Type::U8 ==> r == Err::<CompiledValue, CompilerError<'a>>(CompilerError::TypeError { expected: Type::U8, actual: a.value_type }),
            a.value_type == Type::U8 && b.value_type != Type::U8 ==> r == Err::<CompiledValue, CompilerError<'a>>(CompilerError::TypeError { expected: Type::U8, actual: b.value_type }),
    {
        a.type_check(&Type::U8)?;
        b.type_check(&Type::U8)?;
        let result = self.new_owned(a)?;
        self.div_assign(result.borrow(), b)?;
        Ok(result)
    }

    fn eval_mod(&mut self, a: CompiledValue, b: CompiledValue) -> (r: CompileResult<'a, CompiledValue>)
        requires
            old(self).inv(),
            a.below(old(self).counter()),
            b.below(old(self).counter()),
        ensures
            r matches Ok(v) ==> final(self).continues(&*old(self)) && v.below(final(self).counter()) && v.value_type == Type::U8,
            a.value_type != Type::U8 ==> r == Err::<CompiledValue, CompilerError<'a>>(CompilerError::TypeError { expected: Type::U8, actual: a.value_type }),
            a.value_type == Type::U8 && b.value_type != Type::U8 ==> r == Err::<CompiledValue, CompilerError<'a>>(CompilerError::TypeError { expected: Type::U8, actual: b.value_type }),
    {
        a.type_check(&Type::U8)?;
        b.type_check(&Type::U8)?;
        let result = self.new_owned(a)?;
        self.mod_assign(result.borrow(), b)?;
        Ok(result)
    }

    fn eval_not(&mut self, value: CompiledValue) -> (r: CompileResult<'a, CompiledValue>)
        requires
            old(self).inv(),
            value.below(old(self).counter()),
        ensures
            r matches Ok(v) ==> final(self).continues(&*old(self)) && v.below(final(self).counter()) && v.value_type == Type::Bool,
            value.value_type != Type::Bool ==> r == Err::<CompiledValue, CompilerError<'a>>(CompilerError::TypeError { expected: Type::Bool, actual: value.value_type }),
            r is Ok <==> value.value_type == Type::Bool && value.addresses@.len() == 1
                && old(self).counter() + (if value.owned { 0int } else { 2int }) + 3 <= u16::MAX,
            r matches Ok(v) ==> v.owned && final(self).counter() == old(self).counter() + (if value.owned { 0int } else { 2int }) + 3
                && v.addresses@ == if value.owned { value.addresses@ } else { seq![old(self).counter()] },
    {
        proof {
            reveal(numbered_from);
        }
        value.type_check(&Type::Bool)?;
        let result = self.new_owned(value)?;
        assert(!value.owned ==> result.addresses@ =~= seq![old(self).counter()]);
        self.not_assign(result.borrow())?;
        Ok(result)
    }

    fn eval_and(&mut self, a: CompiledValue, b: CompiledValue) -> (r: CompileResult<'a, CompiledValue>)
        requires
            old(self).inv(),
            a.below(old(self).counter()),
            b.below(old(self).counter()),
        ensures
            r matches Ok(v) ==> final(self).continues(&*old(self)) && v.below(final(self).counter()) && v.value_type == Type::Bool,
            a.value_type != Type::Bool ==> r == Err::<CompiledValue, CompilerError<'a>>(CompilerError::TypeError { expected: Type::Bool, actual: a.value_type }),
            a.value_type == Type::Bool && b.value_type != Type::Bool ==> r == Err::<CompiledValue, CompilerError<'a>>(CompilerError::TypeError { expected: Type::Bool, actual: b.value_type }),
            r matches Ok(v) ==> (a.addresses@.len() == 1 && b.addresses@.len() == 1 && (a.addresses@[0] != b.addresses@[0] || !(a.owned
                || b.owned)) ==> v.addresses@.len() == 1 && forall|st: AbfState, fuel: nat|
                fuel >= 257 && (#[trigger] run_seq(old(self).code(), st, fuel)) is Some ==> (run_seq(final(self).code(), st, fuel) matches Some(
                after,
            ) && after.input == run_seq(old(self).code(), st, fuel)->Some_0.input && after.output == run_seq(
                old(self).code(),
                st,
                fuel,
            )->Some_0.output && (cell(after.cells, v.addresses@[0]) != 0 <==> (cell(
                run_seq(old(self).code(), st, fuel)->Some_0.cells,
                a.addresses@[0],
            ) != 0 && cell(run_seq(old(self).code(), st, fuel)->Some_0.cells, b.addresses@[0]) != 0)))),
    {
        a.type_check(&Type::Bool)?;
        b.type_check(&Type::Bool)?;
        if b.is_owned() {
            self.and_assign(b.borrow(), a)?;
            Ok(b)
        } else {
            let result = self.new_owned(a)?;
            self.and_assign(result.borrow(), b)?;
            Ok(result)
        }
    }

    fn eval_or(&mut self, a: CompiledValue, b: CompiledValue) -> (r: CompileResult<'a, CompiledValue>)
        requires
            old(self).inv(),
            a.below(old(self).counter()),
            b.below(old(self).counter()),
        ensures
            r matches Ok(v) ==> final(self).continues(&*old(self)) && v.below(final(self).counter()) && v.value_type == Type::Bool,
            a.value_type != Type::Bool ==> r == Err::<CompiledValue, CompilerError<'a>>(CompilerError::TypeError { expected: Type::Bool, actual: a.value_type }),
            a.value_type == Type::Bool && b.value_type != Type::Bool ==> r == Err::<CompiledValue, CompilerError<'a>>(CompilerError::TypeError { expected: Type::Bool, actual: b.value_type }),
    {
        a.type_check(&Type::Bool)?;
        b.type_check(&Type::Bool)?;
        if b.is_owned() {
            self.or_assign(b.borrow(), a)?;
            Ok(b)
        } else {
            let result = self.new_owned(a)?;
            self.or_assign(result.borrow(), b)?;
            Ok(result)
        }
    }

    fn eval_not_equals(&mut self, a: CompiledValue, b: CompiledValue) -> (r: CompileResult<'a, CompiledValue>)
        requires
            old(self).inv(),
            a.below(old(self).counter()),
            b.below(old(self).counter()),
        ensures
            r matches Ok(v) ==> final(self).continues(&*old(self)) && v.below(final(self).counter()) && v.value_type == Type::Bool,
            a.value_type != Type::U8 ==> r == Err::<CompiledValue, CompilerError<'a>>(CompilerError::TypeError { expected: Type::U8, actual: a.value_type }),
            a.value_type == Type::U8 && b.value_type != Type::U8 ==> r == Err::<CompiledValue, CompilerError<'a>>(CompilerError::TypeError { expected: Type::U8, actual: b.value_type }),
    {
        a.type_check(&Type::U8)?;
        b.type_check(&Type::U8)?;
        if b.is_owned() {
            self.sub_assign(b.borrow(), a)?;
            let result = self.reinterpret_cast(b, Type::Bool)?;
            Ok(result)
        } else {
            let result = self.new_owned(a)?;
            self.sub_assign(result.borrow(), b)?;
            let result = self.reinterpret_cast(result, Type::Bool)?;
            Ok(result)
        }
    }

    fn eval_equals(&mut self, a: CompiledValue, b: CompiledValue) -> (r: CompileResult<'a, CompiledValue>)
        requires
            old(self).inv(),
            a.below(old(self).counter()),
            b.below(old(self).counter()),
        ensures
            r matches Ok(v) ==> final(self).continues(&*old(self)) && v.below(final(self).counter()) && v.value_type == Type::Bool,
            a.value_type != Type::U8 ==> r == Err::<CompiledValue, CompilerError<'a>>(CompilerError::TypeError { expected: Type::U8, actual: a.value_type }),
            a.value_type == Type::U8 && b.value_type != Type::U8 ==> r == Err::<CompiledValue, CompilerError<'a>>(CompilerError::TypeError { expected: Type::U8, actual: b.value_type }),
    {
        let not_equals = self.eval_not_equals(a, b)?;
        self.eval_not(not_equals)
    }

    fn eval_less_than_equals(&mut self, a: CompiledValue, b: CompiledValue) -> (r: CompileResult<'a, CompiledValue>)
        requires
            old(self).inv(),
            a.below(old(self).counter()),
            b.below(old(self).counter()),
        ensures
            r matches Ok(v) ==> final(self).continues(&*old(self)) && v.below(final(self).counter()) && v.value_type == Type::Bool,
            r is Ok <==> compare_fits(a, b, old(self).counter()),
            r matches Ok(v) ==> v.owned && v.addresses@ == seq![(old(self).counter() + compare_copies(a, b)) as u16]
                && final(self).counter() == old(self).counter() + compare_cost(a, b),
    {
        let ghost c = self.counter();
        let ghost na = a.value_type.spec_size();
        let ghost nb = b.value_type.spec_size();
        let a_temp = self.new_owned(a)?;
        let b_temp = self.new_owned(b)?;
        proof {
            reveal(numbered_from);
            assert(a_temp.addresses@.len() == a.addresses@.len());
            assert(b_temp.addresses@.len() == b.addresses@.len());
        }
        let a_address = first_address(&a_temp)?;
        let b_address = first_address(&b_temp)?;
        proof {
            reveal(declarations);
            reveal_with_fuel(constant_data, 2);
            assert(constant_data(ConstantValue::Bool(false)@) =~= seq![0u8]);
            assert(constant_data(ConstantValue::Bool(true)@) =~= seq![1u8]);
        }
        let result = self.value_from_const(ConstantValue::Bool(false))?;
        assert(result.addresses@ =~= seq![(c + compare_copies(a, b)) as u16]);
        let result_address = first_address(&result)?;
        let loop_value = self.value_from_const(ConstantValue::Bool(true))?;
        let loop_address = first_address(&loop_value)?;
        let lf = self.loop_while();
        let f1 = self.if_then_else(a_temp.borrow())?;
        let f2 = self.if_then_else(b_temp.borrow())?;
        self.add_to(a_address, -1);
        self.add_to(b_address, -1);
        let f2 = self.else_branch(f2);
        self.zero(a_temp.borrow());
        self.add_to(loop_address, -1);
        self.end_if_then_else(f2);
        let f1 = self.else_branch(f1);
        self.zero(b_temp.borrow());
        self.add_to(result_address, 1);
        self.add_to(loop_address, 1);
        self.end_if_then_else(f1);
        self.end_loop_while(loop_address, lf);
        Ok(result)
    }

    fn eval_greater_than_equals(&mut self, a: CompiledValue, b: CompiledValue) -> (r: CompileResult<'a, CompiledValue>)
        requires
            old(self).inv(),
            a.below(old(self).counter()),
            b.below(old(self).counter()),
        ensures
            r matches Ok(v) ==> final(self).continues(&*old(self)) && v.below(final(self).counter()) && v.value_type == Type::Bool,
            r is Ok <==> compare_fits(b, a, old(self).counter()),
            r matches Ok(v) ==> v.owned && v.addresses@ == seq![(old(self).counter() + compare_copies(b, a)) as u16]
                && final(self).counter() == old(self).counter() + compare_cost(b, a),
    {
        self.eval_less_than_equals(b, a)
    }

    fn eval_less_than(&mut self, a: CompiledValue, b: CompiledValue) -> (r: CompileResult<'a, CompiledValue>)
        requires
            old(self).inv(),
            a.below(old(self).counter()),
            b.below(old(self).counter()),
        ensures
            r matches Ok(v) ==> final(self).continues(&*old(self)) && v.below(final(self).counter()) && v.value_type == Type::Bool,
            r is Ok <==> compare_fits(b, a, old(self).counter()) && old(self).counter() + compare_cost(b, a) + 3 <= u16::MAX,
            r matches Ok(v) ==> v.owned && v.addresses@ == seq![(old(self).counter() + compare_copies(b, a)) as u16]
                && final(self).counter() == old(self).counter() + compare_cost(b, a) + 3,
    {
        let opposite = self.eval_greater_than_equals(a, b)?;
        self.eval_not(opposite)
    }

    fn eval_greater_than(&mut self, a: CompiledValue, b: CompiledValue) -> (r: CompileResult<'a, CompiledValue>)
        requires
            old(self).inv(),
            a.below(old(self).counter()),
            b.below(old(self).counter()),
        ensures
            r matches Ok(v) ==> final(self).continues(&*old(self)) && v.below(final(self).counter()) && v.value_type == Type::Bool,
            r is Ok <==> compare_fits(a, b, old(self).counter()) && old(self).counter() + compare_cost(a, b) + 3 <= u16::MAX,
            r matches Ok(v) ==> v.owned && v.addresses@ == seq![(old(self).counter() + compare_copies(a, b)) as u16]
                && final(self).counter() == old(self).counter() + compare_cost(a, b) + 3,
    {
        let opposite = self.eval_less_than_equals(a, b)?;
        self.eval_not(opposite)
    }

    /// Divides `destination` by `value`, counting how many times `value` can be taken from it;
    /// one where both are the same variable.
    pub fn div_assign(&mut self, destination: CompiledValue, value: CompiledValue) -> (r: CompileResult<'a, ()>)
        requires
            old(self).inv(),
            destination.below(old(self).counter()),
            value.below(old(self).counter()),
        ensures
            r is Ok ==> final(self).continues(&*old(self)),
            destination.addresses@.len() == 0 || value.addresses@.len() == 0 ==> r is Err,
            destination.addresses@.len() > 0 && value.addresses@.len() > 0 && destination.addresses@[0] == value.addresses@[0] ==> (r is Ok
                && final(self).counter() == old(self).counter()
                && final(self).code() == old(self).code() + clear_all_code(destination.addresses@).push(SpecABF::Add(destination.addresses@[0], 1i8))),
            destination.addresses@.len() > 0 && value.addresses@.len() > 0 && destination.addresses@[0] != value.addresses@[0] ==> (r is Ok
                <==> value.addresses@.len() == 1 && destination.addresses@.len() == 1 && old(self).counter() < u16::MAX
                && compare_fits(borrowed(value), borrowed(destination), (old(self).counter() + 1) as u16)
                && old(self).counter() + 3 + compare_cost(borrowed(value), borrowed(destination)) <= u16::MAX),
            destination.addresses@.len() > 0 && value.addresses@.len() > 0 && destination.addresses@[0] != value.addresses@[0] ==> (r is Ok
                ==> final(self).counter() == old(self).counter() + 3 + compare_cost(borrowed(value), borrowed(destination))),
    {
        let d = first_address(&destination)?;
        let v = first_address(&value)?;
        if d == v {
            self.zero(destination.borrow());
            self.add_to(d, 1);
            assert(self.code() =~= old(self).code() + clear_all_code(destination.addresses@).push(SpecABF::Add(d, 1i8)));
            Ok(())
        } else {
            let ghost c = self.counter();
            let result = self.value_from_const(ConstantValue::U8(0))?;
            proof {
                reveal(numbered_from);
                reveal_with_fuel(constant_data, 2);
                assert(constant_data(ConstantValue::U8(0)@) =~= seq![0u8]);
                assert(result.addresses@ =~= seq![c]);
            }
            let lf = self.loop_while();
            let predicate = self.eval_less_than_equals(value.borrow(), destination.borrow())?;
            let f = self.if_then_else(predicate)?;
            self.sub_assign(destination.borrow(), value.borrow())?;
            let result_address = first_address(&result)?;
            self.add_to(result_address, 1);
            let f = self.else_branch(f);
            self.zero(destination.borrow());
            self.end_if_then_else(f);
            self.end_loop_while(d, lf);
            let mut into: Vec<CompiledValue> = Vec::new();
            let ghost da = destination.addresses@;
            into.push(destination);
            proof {
                assert(addresses_of(into@) =~= seq![da]);
                assert(seq![da][0] == da);
                if da.len() == 1 && overlapping(result.addresses@, seq![da]) {
                    let (i, k) = choose|i: int, k: int| 0 <= i < result.addresses@.len() && 0 <= k < 1 && #[trigger] seq![da][k][i]
                        == result.addresses@[i];
                    assert(da[0] < c);
                }
                assert(sizes_match(result.addresses@, seq![da]) <==> da.len() == 1);
            }
            self.move_and_add_values(result, into.as_slice())
        }
    }

    /// Takes `value` from `destination` while `destination` is at least `value`; zero where
    /// both are the same variable.
    pub fn mod_assign(&mut self, destination: CompiledValue, value: CompiledValue) -> (r: CompileResult<'a, ()>)
        requires
            old(self).inv(),
            destination.below(old(self).counter()),
            value.below(old(self).counter()),
        ensures
            r is Ok ==> final(self).continues(&*old(self)),
            destination.addresses@.len() == 0 || value.addresses@.len() == 0 ==> r is Err,
            destination.addresses@.len() > 0 && value.addresses@.len() > 0 && destination.addresses@[0] == value.addresses@[0] ==> (r is Ok
                && final(self).counter() == old(self).counter()
                && final(self).code() == old(self).code() + clear_all_code(destination.addresses@)),
            destination.addresses@.len() > 0 && value.addresses@.len() > 0 && destination.addresses@[0] != value.addresses@[0] ==> (r is Ok
                <==> value.addresses@.len() == 1 && compare_fits(borrowed(value), borrowed(destination), old(self).counter())
                && old(self).counter() + 2 * compare_cost(borrowed(value), borrowed(destination)) + 1 <= u16::MAX),
            destination.addresses@.len() > 0 && value.addresses@.len() > 0 && destination.addresses@[0] != value.addresses@[0] ==> (r is Ok
                ==> final(self).counter() == old(self).counter() + 2 * compare_cost(borrowed(value), borrowed(destination)) + 1),
    {
        let d = first_address(&destination)?;
        let v = first_address(&value)?;
        if d == v {
            self.zero(destination);
            Ok(())
        } else {
            let predicate = self.eval_greater_than_equals(destination.borrow(), value.borrow())?;
            let p = first_address(&predicate)?;
            let lf = self.loop_while();
            self.sub_assign(destination.borrow(), value.borrow())?;
            let new_predicate = self.eval_greater_than_equals(destination.borrow(), value.borrow())?;
            proof {
                reveal(copy_succeeds);
                let pa = predicate.addresses@;
                let na = new_predicate.addresses@;
                assert(pa[0] != na[0]);
                assert(seq![pa][0] == pa);
                if overlapping(na, seq![pa]) {
                    let (i, k) = choose|i: int, k: int| 0 <= i < na.len() && 0 <= k < 1 && #[trigger] seq![pa][k][i] == na[i];
                    assert(false);
                }
                assert(copy_succeeds(new_predicate, seq![pa], self.counter()));
            }
            self.assign(predicate, new_predicate)?;
            self.end_loop_while(p, lf);
            Ok(())
        }
    }

    /// The element at `index` of an array, borrowed; an error for what is not an array.
    fn eval_const_index(array: &CompiledValue, index: u8) -> (r: CompileResult<'a, CompiledValue>)
        ensures
            r matches Ok(v) ==> (forall|c: u16| array.below(c) ==> v.below(c)),
            r matches Ok(v) ==> (array.value_type matches Type::Array { element_type, .. } && v.value_type == *element_type),
            !(array.value_type is Array) ==> r == Err::<CompiledValue, CompilerError<'a>>(CompilerError::NotAnArray(array.value_type)),
    {
        match &array.value_type {
            Type::Array { element_type, .. } => {
                let size = match checked_size(element_type) {
                    Some(s) => s,
                    None => return Err(CompilerError::NotAnArray(array.value_type.clone())),
                };
                assert(index as u32 * size as u32 <= 255 * 65535) by (nonlinear_arith)
                    requires
                        index <= 255,
                        size <= 65535,
                ;
                let start: usize = (index as u32 * size as u32) as usize;
                let end: usize = (index as u32 * size as u32 + size as u32) as usize;
                if end > array.addresses.len() {
                    return Err(CompilerError::NotAnArray(array.value_type.clone()));
                }
                let v = array.borrow_slice(start, end, (**element_type).clone());
                assert forall|c: u16| array.below(c) implies v.below(c) by {
                    assert forall|i: int| 0 <= i < v.addresses@.len() implies #[trigger] v.addresses@[i] < c by {
                        assert(v.addresses@[i] == array.addresses@[start + i]);
                    }
                }
                Ok(v)
            },
            _ => Err(CompilerError::NotAnArray(array.value_type.clone())),
        }
    }
}

impl<'a> BrainCrabCompiler<'a> {
    /// Follows the accessors from `i` on into `source` and applies `action` to what they reach:
    /// an index known only when running is compared with every index of the array in turn.
    fn eval_accessors_impl(&mut self, source: CompiledValue, accessors: &Vec<Accessor>, i: usize, action: &AccessAction) -> (r: CompileResult<'a, ()>)
        requires
            old(self).inv(),
            i <= accessors@.len(),
            source.below(old(self).counter()),
            forall|k: int| 0 <= k < accessors@.len() ==> ((#[trigger] accessors@[k]) matches Accessor::Index(v) && v.below(old(self).counter())),
            action.below(old(self).counter()),
        ensures
            r is Ok ==> final(self).continues(&*old(self)),
            i == accessors@.len() ==> (r is Ok <==> action_succeeds(source, *action, old(self).counter())),
            i == accessors@.len() ==> (r is Ok ==> final(self).counter() == old(self).counter() + action_cost(source, *action)
                && final(self).code() == old(self).code() + action_code(source, *action, old(self).counter())),
            i < accessors@.len() && !(source.value_type is Array) ==> r == Err::<(), CompilerError<'a>>(CompilerError::NotAnArray(source.value_type)),
        decreases accessors@.len() - i,
    {
        if i == accessors.len() {
            proof {
                reveal(copy_succeeds);
            }
            match action {
                AccessAction::CopyInto(temp) => {
                    let mut into: Vec<CompiledValue> = Vec::new();
                    into.push(temp.borrow());
                    assert(addresses_of(into@) =~= seq![temp.addresses@]);
                    self.copy_and_add_values(source, into.as_slice())
                },
                AccessAction::AssignFrom(value) => {
                    let r = self.assign(source.borrow(), value.borrow());
                    assert(r is Ok && source.addresses@ == value.addresses@ ==> self.code() =~= old(self).code() + Seq::<SpecABF>::empty());
                    r
                },
            }
        } else {
            let index = match &accessors[i] {
                Accessor::Index(index) => index,
            };
            assert(accessors@[i as int] matches Accessor::Index(v) && v.below(old(self).counter()));
            let next = i + 1;
            match &source.value_type {
                Type::Array { len, .. } => {
                    let mut k: u8 = 0;
                    while k < *len
                        invariant
                            self.continues(&*old(self)),
                            i < accessors@.len(),
                            next == i + 1,
                            source.value_type is Array,
                            source.below(old(self).counter()),
                            index.below(old(self).counter()),
                            forall|q: int| 0 <= q < accessors@.len() ==> ((#[trigger] accessors@[q]) matches Accessor::Index(v) && v.below(old(self).counter())),
                            action.below(old(self).counter()),
                        decreases *len - k,
                    {
                        let array = source.borrow();
                        let ghost before = *self;
                        self.scoped();
                        let i_value = self.value_from_const(ConstantValue::U8(k))?;
                        let predicate = self.eval_equals(i_value, index.borrow())?;
                        let frame = self.if_then(predicate)?;
                        let indexed = Self::eval_const_index(&array, k)?;
                        self.eval_accessors_impl(indexed, accessors, next, action)?;
                        self.end_if_then(frame);
                        self.end_scoped();
                        k = k + 1;
                    }
                    Ok(())
                },
                _ => Err(CompilerError::NotAnArray(source.value_type.clone())),
            }
        }
    }

    /// Applies `action` to what the accessors reach into the source.
    fn eval_accessors(&mut self, accessed_value: AccessedValue, action: AccessAction) -> (r: CompileResult<'a, ()>)
        requires
            old(self).inv(),
            accessed_value.below(old(self).counter()),
            action.below(old(self).counter()),
        ensures
            r is Ok ==> final(self).continues(&*old(self)),
            accessed_value.accessors@.len() == 0 ==> (r is Ok <==> action_succeeds(accessed_value.source, action, old(self).counter())),
            accessed_value.accessors@.len() == 0 ==> (r is Ok ==> final(self).counter() == old(self).counter() + action_cost(accessed_value.source, action)
                && final(self).code() == old(self).code() + action_code(accessed_value.source, action, old(self).counter())),
            accessed_value.accessors@.len() > 0 && !(accessed_value.source.value_type is Array) ==> r == Err::<(), CompilerError<'a>>(
                CompilerError::NotAnArray(accessed_value.source.value_type),
            ),
    {
        let AccessedValue { source, accessors } = accessed_value;
        self.eval_accessors_impl(source, &accessors, 0, &action)
    }

    /// The variable, or the array variable and the indices computed, that an lvalue names; an
    /// error for an undefined variable.
    fn eval_lvalue_expression(&mut self, expression: &LValueExpression<'a>) -> (r: CompileResult<'a, AccessedValue>)
        requires
            old(self).inv(),
            lvalue_ok(*expression),
        ensures
            r matches Ok(a) ==> final(self).continues(&*old(self)) && a.below(final(self).counter()),
            expression matches LValueExpression::Variable(name) ==> (r matches Ok(a) ==> a.accessors@.len() == 0),
            expression matches LValueExpression::Variable(name) ==> (find_in_scopes(old(self).variable_map.scopes(), name@) matches Some(v)
                ==> r matches Ok(a) && a.source.addresses@ == v.addresses@ && a.source.value_type == v.value_type && !a.source.owned
                && *final(self) == *old(self)),
            expression matches LValueExpression::Variable(name) ==> (find_in_scopes(old(self).variable_map.scopes(), name@) is None ==> r
                == Err::<AccessedValue, CompilerError<'a>>(CompilerError::UndefinedVariable(name))),
            expression matches LValueExpression::Index(name, _) ==> (find_in_scopes(old(self).variable_map.scopes(), name@) is None ==> r
                == Err::<AccessedValue, CompilerError<'a>>(CompilerError::UndefinedVariable(name))),
        decreases expression,
    {
        match expression {
            LValueExpression::Variable(name) => {
                let v = self.borrow_immutable(name)?;
                Ok(AccessedValue::unit(v))
            },
            LValueExpression::Index(name, indices) => {
                let array = self.borrow_immutable(name)?;
                let mut accessors: Vec<Accessor> = Vec::new();
                let mut i: usize = 0;
                while i < indices.len()
                    invariant
                        self.continues(&*old(self)),
                        array.below(self.counter()),
                        *expression == LValueExpression::Index(*name, *indices),
                        find_in_scopes(old(self).variable_map.scopes(), name@) is Some,
                        lvalue_ok(*expression),
                        forall|k: int| 0 <= k < accessors@.len() ==> ((#[trigger] accessors@[k]) matches Accessor::Index(v) && v.below(self.counter())),
                    decreases indices@.len() - i,
                {
                    proof {
                        lemma_expressions_ok_index(indices@, i as int);
                        broadcast use vstd::std_specs::vec::axiom_vec_index_decreases;

                        assert(decreases_to!(*indices => indices[i as int]));
                        assert(decreases_to!(*expression => expression->Index_1));
                    }
                    let ghost mid = self.counter();
                    let v = self.eval_expression(&indices[i])?;
                    let ghost before = accessors@;
                    accessors.push(Accessor::Index(v));
                    assert forall|k: int| 0 <= k < accessors@.len() implies ((#[trigger] accessors@[k]) matches Accessor::Index(w) && w.below(self.counter())) by {
                        if k < accessors@.len() - 1 {
                            assert(accessors@[k] == before[k]);
                        }
                    }
                    i = i + 1;
                }
                Ok(AccessedValue::new(array, accessors))
            },
        }
    }

    /// New variables holding the constant.
    fn eval_constant(&mut self, constant_value: &ConstantValue) -> (r: CompileResult<'a, CompiledValue>)
        requires
            old(self).inv(),
            no_empty_arrays(constant_value@),
            constant_type(constant_value@) is Some,
        ensures
            r matches Ok(v) ==> final(self).continues(&*old(self)) && v.below(final(self).counter()) && Some(v.value_type)
                == constant_type(constant_value@),
            r is Err <==> old(self).counter() + constant_data(constant_value@).len() > u16::MAX,
            r is Ok ==> final(self).code() == old(self).code() + declarations(old(self).counter(), constant_data(constant_value@)),
    {
        self.value_from_const(constant_value.clone())
    }

    /// New variables, all zero, for a value of the type.
    fn allocate_temp(&mut self, value_type: Type) -> (r: CompileResult<'a, CompiledValue>)
        requires
            old(self).inv(),
        ensures
            r matches Ok(v) ==> final(self).continues(&*old(self)) && v.value_type == value_type && v.owned && !v.mutable
                && v.below(final(self).counter()),
            r is Err <==> !value_type.size_fits() || old(self).counter() + value_type.spec_size() > u16::MAX,
            r is Ok ==> final(self).code() == old(self).code() + declarations(old(self).counter(), zeros(value_type.spec_size())),
    {
        self.allocate(value_type)
    }

    /// A new `u8` variable with a byte of input.
    fn eval_read(&mut self) -> (r: CompileResult<'a, CompiledValue>)
        requires
            old(self).inv(),
        ensures
            r matches Ok(v) ==> final(self).continues(&*old(self)) && v.below(final(self).counter()) && v.value_type == Type::U8,
            r is Err <==> old(self).counter() == u16::MAX,
            r is Ok ==> final(self).code() == old(self).code().push(SpecABF::Read(old(self).counter())),
    {
        self.read()
    }

    /// Compiles an expression into a value; its type is the one the expression has (see
    /// [`static_type`]) wherever that does not depend on a variable.
    #[verifier::rlimit(100)]
    #[verifier::spinoff_prover]
    pub fn eval_expression(&mut self, expression: &Expression<'a>) -> (r: CompileResult<'a, CompiledValue>)
        requires
            old(self).inv(),
            expression_ok(*expression),
        ensures
            r matches Ok(v) ==> final(self).continues(&*old(self)) && v.below(final(self).counter()) && (static_type(
                *expression,
            ) matches Some(t) ==> v.value_type == t),
            expression matches Expression::Constant(c) ==> (r is Err <==> old(self).counter() + constant_data(c@).len() > u16::MAX)
                && (r is Ok ==> final(self).code() == old(self).code() + declarations(old(self).counter(), constant_data(c@))),
            *expression == Expression::Read ==> (r is Err <==> old(self).counter() == u16::MAX)
                && (r is Ok ==> final(self).code() == old(self).code().push(SpecABF::Read(old(self).counter()))),
            expression matches Expression::LValue(l) ==> (l matches LValueExpression::Variable(name) ==> (find_in_scopes(
                old(self).variable_map.scopes(),
                name@,
            ) is None ==> r == Err::<CompiledValue, CompilerError<'a>>(CompilerError::UndefinedVariable(name)))),
            operands_mistyped(*expression) ==> r is Err,
        decreases expression,
    {
        match expression {
            Expression::Constant(constant_value) => self.eval_constant(constant_value),
            Expression::LValue(lvalue) => {
                let accessed_value = self.eval_lvalue_expression(lvalue)?;
                let accessed_value_type = accessed_value.value_type()?;
                let temp = self.allocate_temp(accessed_value_type)?;
                self.eval_accessors(accessed_value, AccessAction::CopyInto(temp.borrow()))?;
                Ok(temp)
            },
            Expression::Read => self.eval_read(),
            Expression::Add(a, b) => {
                let a = self.eval_expression(a)?;
                let b = self.eval_expression(b)?;
                self.eval_add(a, b)
            },
            Expression::Sub(a, b) => {
                let a = self.eval_expression(a)?;
                let b = self.eval_expression(b)?;
                self.eval_sub(a, b)
            },
            Expression::Mul(a, b) => {
                let a = self.eval_expression(a)?;
                let b = self.eval_expression(b)?;
                self.eval_mul(a, b)
            },
            Expression::Div(a, b) => {
                let a = self.eval_expression(a)?;
                let b = self.eval_expression(b)?;
                self.eval_div(a, b)
            },
            Expression::Mod(a, b) => {
                let a = self.eval_expression(a)?;
                let b = self.eval_expression(b)?;
                self.eval_mod(a, b)
            },
            Expression::Not(inner) => {
                let inner = self.eval_expression(inner)?;
                self.eval_not(inner)
            },
            Expression::And(a, b) => {
                let a = self.eval_expression(a)?;
                let b = self.eval_expression(b)?;
                self.eval_and(a, b)
            },
            Expression::Or(a, b) => {
                let a = self.eval_expression(a)?;
                let b = self.eval_expression(b)?;
                self.eval_or(a, b)
            },
            Expression::Equals(a, b) => {
                let a = self.eval_expression(a)?;
                let b = self.eval_expression(b)?;
                self.eval_equals(a, b)
            },
            Expression::NotEquals(a, b) => {
                let a = self.eval_expression(a)?;
                let b = self.eval_expression(b)?;
                self.eval_not_equals(a, b)
            },
            Expression::LessThanEquals(a, b) => {
                let a = self.eval_expression(a)?;
                let b = self.eval_expression(b)?;
                self.eval_less_than_equals(a, b)
            },
            Expression::GreaterThanEquals(a, b) => {
                let a = self.eval_expression(a)?;
                let b = self.eval_expression(b)?;
                self.eval_greater_than_equals(a, b)
            },
            Expression::LessThan(a, b) => {
                let a = self.eval_expression(a)?;
                let b = self.eval_expression(b)?;
                self.eval_less_than(a, b)
            },
            Expression::GreaterThan(a, b) => {
                let a = self.eval_expression(a)?;
                let b = self.eval_expression(b)?;
                self.eval_greater_than(a, b)
            },
        }
    }

    /// Opens the body of a `while` on `predicate`: `None` for a constant false condition, whose
    /// body is never compiled; an infinite loop for a constant true one; a loop on the variable
    /// itself for a variable; otherwise a loop on a copy of the condition, computed anew at the
    /// end of each round by [`Self::end_loop_while_expression`].
    pub fn loop_while_expression(&mut self, predicate: &Expression<'a>) -> (r: CompileResult<'a, Option<WhileFrame<'a>>>)
        requires
            old(self).inv(),
            expression_ok(*predicate),
        ensures
            r matches Ok(Some(f)) ==> f.wf() && final(self).entered(&*old(self), &f.loop_frame),
            r matches Ok(None) ==> *final(self) == *old(self),
            predicate matches Expression::Constant(c) ==> (c@ == SpecConstant::Bool(false) ==> r == Ok::<Option<WhileFrame<'a>>, CompilerError<'a>>(None))
                && (!(c@ is Bool) ==> r is Err)
                && (c@ == SpecConstant::Bool(true) ==> (r is Ok <==> old(self).counter() < u16::MAX)),
            predicate matches Expression::Constant(c) && c@ == SpecConstant::Bool(true) ==> (r matches Ok(Some(f)) ==> f.address == old(self).counter()
                && f.reevaluate is None && f.loop_frame.code() == old(self).code().push(SpecABF::New(old(self).counter(), 1u8))
                && final(self).counter() == old(self).counter() + 1 && final(self).code() == Seq::<SpecABF>::empty()),
            predicate matches Expression::Constant(c) && c@ == SpecConstant::Bool(true) ==> !(r matches Ok(None)),
            predicate matches Expression::LValue(LValueExpression::Variable(name)) ==> (find_in_scopes(old(self).variable_map.scopes(), name@) is None
                ==> r == Err::<Option<WhileFrame<'a>>, CompilerError<'a>>(CompilerError::UndefinedVariable(name))),
            predicate matches Expression::LValue(LValueExpression::Variable(name)) ==> (find_in_scopes(old(self).variable_map.scopes(), name@) matches Some(v)
                ==> (r is Ok <==> v.addresses@.len() > 0) && (r matches Ok(Some(f)) ==> f.address == v.addresses@[0] && f.reevaluate is None
                && f.loop_frame.code() == old(self).code() && final(self).counter() == old(self).counter()
                && final(self).code() == Seq::<SpecABF>::empty()) && !(r matches Ok(None))),
    {
        proof {
            reveal(numbered_from);
            reveal(declarations);
            reveal_with_fuel(constant_data, 2);
            assert(constant_data(ConstantValue::U8(1)@) =~= seq![1u8]);
            assert(declarations(old(self).counter(), seq![1u8]) =~= seq![SpecABF::New(old(self).counter(), 1u8)]);
        }
        match predicate {
            Expression::Constant(c) => {
                if c.get_bool()? {
                    let temp = self.value_from_const(ConstantValue::U8(1))?;
                    let address = first_address(&temp)?;
                    let loop_frame = self.loop_while();
                    Ok(Some(WhileFrame { loop_frame, address, reevaluate: None }))
                } else {
                    Ok(None)
                }
            },
            Expression::LValue(LValueExpression::Variable(variable)) => {
                let value = self.borrow_immutable(variable)?;
                let address = first_address(&value)?;
                let loop_frame = self.loop_while();
                Ok(Some(WhileFrame { loop_frame, address, reevaluate: None }))
            },
            _ => {
                let predicate_value = self.eval_expression(predicate)?;
                let temp = self.new_owned(predicate_value)?;
                let address = first_address(&temp)?;
                let loop_frame = self.loop_while();
                Ok(Some(WhileFrame { loop_frame, address, reevaluate: Some((temp, predicate.clone())) }))
            },
        }
    }

    /// Closes the body of the `while` that `frame` opened, computing its condition anew first
    /// where it is not a constant or a variable.
    pub fn end_loop_while_expression(&mut self, frame: WhileFrame<'a>) -> (r: CompileResult<'a, ()>)
        requires
            old(self).in_loop(&frame.loop_frame),
            frame.wf(),
        ensures
            r is Ok ==> final(self).left(&*old(self), &frame.loop_frame),
            frame.reevaluate is None ==> r is Ok && final(self).counter() == old(self).counter()
                && final(self).code() == frame.loop_frame.code().push(SpecABF::While(frame.address, old(self).code())),
    {
        let WhileFrame { loop_frame, address, reevaluate } = frame;
        match reevaluate {
            Some((temp, predicate)) => {
                let predicate_value = self.eval_expression(&predicate)?;
                self.assign(temp.borrow(), predicate_value)?;
            },
            None => {},
        }
        self.end_loop_while(address, loop_frame);
        Ok(())
    }

    /// Compiles `body` once for each element of `array`, with the element under
    /// `loop_variable` in a scope of its own; an error for what is not an array.
    fn for_each(&mut self, array: CompiledValue, loop_variable: &'a str, body: &Vec<Instruction<'a>>) -> (r: CompileResult<'a, ()>)
        requires
            old(self).inv(),
            array.below(old(self).counter()),
            instructions_ok(body@),
        ensures
            r is Ok ==> final(self).continues(&*old(self)),
            !(array.value_type is Array) ==> r == Err::<(), CompilerError<'a>>(CompilerError::NotAnArray(array.value_type)),
            array.value_type matches Type::Array { len, .. } ==> (len == 0 ==> r is Ok && *final(self) == *old(self)),
        decreases body, 1int,
    {
        match &array.value_type {
            Type::Array { len, .. } => {
                let mut i: u8 = 0;
                while i < *len
                    invariant
                        self.continues(&*old(self)),
                        array.below(old(self).counter()),
                        instructions_ok(body@),
                        array.value_type is Array && array.value_type->len == *len,
                        *len == 0 ==> *self == *old(self),
                    decreases *len - i,
                {
                    self.scoped();
                    let element = Self::eval_const_index(&array.borrow(), i)?;
                    self.register_variable(loop_variable, element)?;
                    self.compile_instructions(body)?;
                    self.end_scoped();
                    i = i + 1;
                }
                Ok(())
            },
            _ => Err(CompilerError::NotAnArray(array.value_type.clone())),
        }
    }

    fn for_each_expression(&mut self, loop_variable: &'a str, array_expression: &Expression<'a>, body: &Vec<Instruction<'a>>) -> (r: CompileResult<'a, ()>)
        requires
            old(self).inv(),
            expression_ok(*array_expression),
            instructions_ok(body@),
        ensures
            r is Ok ==> final(self).continues(&*old(self)),
            static_type(*array_expression) matches Some(t) ==> (!(t is Array) ==> r is Err),
        decreases body, 2int,
    {
        let array = self.eval_expression(array_expression)?;
        self.for_each(array, loop_variable, body)
    }

    /// Compiles the instructions in order.
    fn compile_instructions(&mut self, instructions: &Vec<Instruction<'a>>) -> (r: CompileResult<'a, ()>)
        requires
            old(self).inv(),
            instructions_ok(instructions@),
        ensures
            r is Ok ==> final(self).continues(&*old(self)),
            instructions@.len() == 0 ==> r is Ok && *final(self) == *old(self),
            instructions@.len() > 0 ==> (first_target(instructions@[0]) matches Some(n) ==> (find_in_scopes(old(self).variable_map.scopes(), n@) is None
                ==> r == Err::<(), CompilerError<'a>>(CompilerError::UndefinedVariable(n)))),
            instructions@.len() > 0 ==> (instructions@[0] matches Instruction::IfThenElse { predicate, .. } ==> (mistyped(predicate, Type::Bool)
                ==> r is Err)),
            instructions@.len() > 0 ==> (instructions@[0] matches Instruction::Define { value_type: Some(t), value, .. } ==> (mistyped(value, t)
                ==> r is Err)),
        decreases instructions, 0int,
    {
        let mut i: usize = 0;
        while i < instructions.len()
            invariant
                self.continues(&*old(self)),
                instructions_ok(instructions@),
                i <= instructions@.len(),
                i == 0 ==> *self == *old(self),
                i > 0 ==> (first_target(instructions@[0]) matches Some(n) ==> find_in_scopes(old(self).variable_map.scopes(), n@) is Some),
                i > 0 ==> !(instructions@[0] matches Instruction::IfThenElse { predicate, .. } && mistyped(predicate, Type::Bool)),
                i > 0 ==> !(instructions@[0] matches Instruction::Define { value_type: Some(t), value, .. } && mistyped(value, t)),
            decreases instructions@.len() - i,
        {
            proof {
                lemma_instructions_ok_index(instructions@, i as int);
                broadcast use vstd::std_specs::vec::axiom_vec_index_decreases;

                assert(decreases_to!(*instructions => instructions[i as int]));
            }
            match &instructions[i] {
                Instruction::Define { name, value_type, mutable, value } => {
                    let value = self.eval_expression(value)?;
                    match value_type {
                        Some(value_type) => value.type_check(value_type)?,
                        None => {},
                    }
                    self.new_variable(name, value, *mutable)?;
                },
                Instruction::Assign { name, value } => {
                    let destination = self.eval_lvalue_expression(name)?;
                    let value = self.eval_expression(value)?;
                    self.eval_accessors(destination, AccessAction::AssignFrom(value.borrow()))?;
                },
                Instruction::AddAssign { name, value } => {
                    let destination = self.borrow_mutable(name)?;
                    let value = self.eval_expression(value)?;
                    self.add_assign(destination, value)?;
                },
                Instruction::SubAssign { name, value } => {
                    let destination = self.borrow_mutable(name)?;
                    let value = self.eval_expression(value)?;
                    self.sub_assign(destination, value)?;
                },
                Instruction::Write { expression } => {
                    let value = self.eval_expression(expression)?;
                    self.write_value(value);
                },
                Instruction::Print { string } => {
                    self.print_string(string.clone())?;
                },
                Instruction::Scope { body } => {
                    proof {
                        assert(decreases_to!(instructions[i as int] => instructions[i as int]->Scope_body));
                    }
                    self.scoped();
                    self.compile_instructions(body)?;
                    self.end_scoped();
                },
                Instruction::While { predicate, body } => {
                    proof {
                        assert(decreases_to!(instructions[i as int] => instructions[i as int]->While_body));
                    }
                    match self.loop_while_expression(predicate)? {
                        Some(frame) => {
                            self.compile_instructions(body)?;
                            self.end_loop_while_expression(frame)?;
                        },
                        None => {},
                    }
                },
                Instruction::IfThenElse { predicate, if_body, else_body } => {
                    proof {
                        assert(decreases_to!(instructions[i as int] => instructions[i as int]->IfThenElse_if_body));
                        assert(decreases_to!(instructions[i as int] => instructions[i as int]->IfThenElse_else_body));
                    }
                    let predicate = self.eval_expression(predicate)?;
                    predicate.type_check(&Type::Bool)?;
                    if else_body.len() == 0 {
                        let frame = self.if_then(predicate)?;
                        self.compile_instructions(if_body)?;
                        self.end_if_then(frame);
                    } else {
                        let frame = self.if_then_else(predicate)?;
                        self.compile_instructions(if_body)?;
                        let frame = self.else_branch(frame);
                        self.compile_instructions(else_body)?;
                        self.end_if_then_else(frame);
                    }
                },
                Instruction::ForEach { loop_variable, array, body } => {
                    proof {
                        assert(decreases_to!(instructions[i as int] => instructions[i as int]->ForEach_body));
                    }
                    self.for_each_expression(loop_variable, array, body)?;
                },
            }
            i = i + 1;
        }
        Ok(())
    }

    /// Compiles a BrainCrab program to an ABF program in which every variable is declared
    /// before it is used.
    pub fn compile_abf(program: Program<'a>) -> (r: CompileResult<'a, ABFProgram>)
        requires
            instructions_ok(program.instructions@),
        ensures
            r matches Ok(p) ==> well_declared(p@, Set::empty()),
            program.instructions@.len() == 0 ==> (r matches Ok(p) && p@ == Seq::<SpecABF>::empty()),
            program.instructions@.len() > 0 ==> (first_target(program.instructions@[0]) matches Some(n) ==> r == Err::<ABFProgram, CompilerError<'a>>(
                CompilerError::UndefinedVariable(n),
            )),
    {
        let mut compiler = BrainCrabCompiler::new();
        proof {
            if program.instructions@.len() > 0 {
                if let Some(n) = first_target(program.instructions@[0]) {
                    let scopes = compiler.variable_map.scopes();
                    assert(scopes.drop_last() =~= Seq::<Seq<(&'a str, CompiledValue)>>::empty());
                    assert(find_in_scope(scopes.last(), n@) is None);
                    assert(find_in_scopes(scopes.drop_last(), n@) is None);
                    assert(find_in_scopes(scopes, n@) is None);
                }
            }
        }
        compiler.compile_instructions(&program.instructions)?;
        compiler.get_result()
    }
}

/// Every value that the scopes find is held in some scope.
proof fn lemma_find_in_scopes_held<'a>(scopes: Seq<Seq<(&'a str, CompiledValue)>>, name: Seq<char>)
    requires
        find_in_scopes(scopes, name) is Some,
    ensures
        exists|k: int, j: int|
            0 <= k < scopes.len() && 0 <= j < scopes[k].len() && scopes[k][j].1 == find_in_scopes(scopes, name)->Some_0,
    decreases scopes.len(),
{
    let last = scopes.last();
    match find_in_scope(last, name) {
        Some(v) => {
            let j = lemma_find_in_scope_held(last, name);
            assert(scopes[scopes.len() - 1][j].1 == v);
        },
        None => {
            lemma_find_in_scopes_held(scopes.drop_last(), name);
            let (k, j) = choose|k: int, j: int|
                0 <= k < scopes.drop_last().len() && 0 <= j < scopes.drop_last()[k].len()
                    && scopes.drop_last()[k][j].1 == find_in_scopes(scopes.drop_last(), name)->Some_0;
            assert(scopes[k][j] == scopes.drop_last()[k][j]);
        },
    }
}

proof fn lemma_find_in_scope_held<'a>(scope: Seq<(&'a str, CompiledValue)>, name: Seq<char>) -> (j: int)
    requires
        find_in_scope(scope, name) is Some,
    ensures
        0 <= j < scope.len(),
        scope[j].1 == find_in_scope(scope, name)->Some_0,
    decreases scope.len(),
{
    if scope[0].0@ == name {
        0
    } else {
        let j = lemma_find_in_scope_held(scope.drop_first(), name);
        j + 1
    }
}

} // verus!
