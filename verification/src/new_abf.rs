use vstd::prelude::*;

use crate::text::{append_text, decimal, decimal_text, push_spaces, signed_decimal, signed_text, spaces};

use std::collections::BTreeSet;

use crate::abf::abf_ast::reversed;
use crate::abf::abf_optimizer::{lemma_wrap_add_i8, runs_agree, start_state};
use crate::abf::abf_semantics::{cell, wrap_add, AbfState};

verus! {

broadcast use vstd::std_specs::btree::group_btree_axioms;

/// An instruction of ABF over the cells of the tape: like the ABF of [`crate::abf`], with
/// the writing of a constant besides.
#[derive(Debug)]
pub enum ABFInstruction {
    New(u16, u8),
    Read(u16),
    Free(u16),
    Write(u16),
    WriteConst(u8),
    Add(u16, i8),
    While(u16, ABFProgram),
}

/// A sequence of instructions.
#[derive(Debug)]
pub struct ABFProgram {
    pub instructions: Vec<ABFInstruction>,
}

/// The mathematical model of an [`ABFInstruction`].
pub enum SpecInstruction {
    New(u16, u8),
    Read(u16),
    Free(u16),
    Write(u16),
    WriteConst(u8),
    Add(u16, i8),
    While(u16, Seq<SpecInstruction>),
}

impl View for ABFInstruction {
    type V = SpecInstruction;

    open spec fn view(&self) -> SpecInstruction
        decreases self,
    {
        match self {
            ABFInstruction::New(a, v) => SpecInstruction::New(*a, *v),
            ABFInstruction::Read(a) => SpecInstruction::Read(*a),
            ABFInstruction::Free(a) => SpecInstruction::Free(*a),
            ABFInstruction::Write(a) => SpecInstruction::Write(*a),
            ABFInstruction::WriteConst(v) => SpecInstruction::WriteConst(*v),
            ABFInstruction::Add(a, v) => SpecInstruction::Add(*a, *v),
            ABFInstruction::While(a, body) => SpecInstruction::While(*a, instructions_view(body.instructions@)),
        }
    }
}

/// The models of a sequence of instructions.
pub open spec fn instructions_view(s: Seq<ABFInstruction>) -> Seq<SpecInstruction>
    decreases s,
{
    Seq::new(
        s.len(),
        |i: int|
            if 0 <= i < s.len() {
                s[i]@
            } else {
                SpecInstruction::WriteConst(0)
            },
    )
}

impl View for ABFProgram {
    type V = Seq<SpecInstruction>;

    open spec fn view(&self) -> Seq<SpecInstruction> {
        instructions_view(self.instructions@)
    }
}

/// The cells an instruction changes: those it reads into or adds to, and, for a loop, its
/// condition and all that its body changes.
pub open spec fn modified_of(i: SpecInstruction) -> Set<u16>
    decreases i,
{
    match i {
        SpecInstruction::Read(a) => set![a],
        SpecInstruction::Add(a, _) => set![a],
        SpecInstruction::While(a, body) => set![a] + modified_seq(body),
        _ => Set::empty(),
    }
}

/// The cells a sequence changes.
pub open spec fn modified_seq(s: Seq<SpecInstruction>) -> Set<u16>
    decreases s,
{
    if s.len() == 0 {
        Set::empty()
    } else {
        modified_seq(s.drop_last()) + modified_of(s.last())
    }
}

/// The cells an instruction mentions, in loop bodies too.
pub open spec fn used_of(i: SpecInstruction) -> Set<u16>
    decreases i,
{
    match i {
        SpecInstruction::WriteConst(_) => Set::empty(),
        SpecInstruction::While(a, body) => set![a] + used_seq(body),
        SpecInstruction::New(a, _) => set![a],
        SpecInstruction::Read(a) => set![a],
        SpecInstruction::Free(a) => set![a],
        SpecInstruction::Write(a) => set![a],
        SpecInstruction::Add(a, _) => set![a],
    }
}

/// The cells a sequence mentions.
pub open spec fn used_seq(s: Seq<SpecInstruction>) -> Set<u16>
    decreases s,
{
    if s.len() == 0 {
        Set::empty()
    } else {
        used_seq(s.drop_last()) + used_of(s.last())
    }
}

/// The program with every `Free` removed, in loop bodies too.
pub open spec fn deep_strip(s: Seq<SpecInstruction>) -> Seq<SpecInstruction>
    decreases s,
{
    if s.len() == 0 {
        Seq::empty()
    } else {
        deep_strip(s.drop_last()) + strip_one(s.last())
    }
}

/// What one instruction leaves in [`deep_strip`].
pub open spec fn strip_one(x: SpecInstruction) -> Seq<SpecInstruction>
    decreases x,
{
    match x {
        SpecInstruction::Free(_) => Seq::empty(),
        SpecInstruction::While(a, body) => seq![SpecInstruction::While(a, deep_strip(body))],
        _ => seq![x],
    }
}

proof fn lemma_view_push(s: Seq<ABFInstruction>, x: ABFInstruction)
    ensures
        instructions_view(s.push(x)) == instructions_view(s).push(x@),
{
    assert(instructions_view(s.push(x)) =~= instructions_view(s).push(x@));
}

proof fn lemma_push_sets(s: Seq<SpecInstruction>, x: SpecInstruction)
    ensures
        modified_seq(s.push(x)) == modified_seq(s) + modified_of(x),
        used_seq(s.push(x)) == used_seq(s) + used_of(x),
        deep_strip(s.push(x)) == deep_strip(s) + strip_one(x),
{
    assert(s.push(x).drop_last() =~= s);
    assert(s.push(x).last() == x);
}

proof fn lemma_take_sets(s: Seq<SpecInstruction>, i: int)
    requires
        0 <= i < s.len(),
    ensures
        modified_seq(s.take(i + 1)) == modified_seq(s.take(i)) + modified_of(s[i]),
        used_seq(s.take(i + 1)) == used_seq(s.take(i)) + used_of(s[i]),
        deep_strip(s.take(i + 1)) == deep_strip(s.take(i)) + strip_one(s[i]),
{
    assert(s.take(i + 1) =~= s.take(i).push(s[i]));
    lemma_push_sets(s.take(i), s[i]);
}

impl ABFInstruction {
    /// The cell the instruction is about; none for writing a constant.
    pub fn relevant_address(&self) -> (r: Option<u16>)
        ensures
            r == match self@ {
                SpecInstruction::New(a, _) => Some(a),
                SpecInstruction::Read(a) => Some(a),
                SpecInstruction::Free(a) => Some(a),
                SpecInstruction::Write(a) => Some(a),
                SpecInstruction::WriteConst(_) => None,
                SpecInstruction::Add(a, _) => Some(a),
                SpecInstruction::While(a, _) => Some(a),
            },
    {
        match self {
            ABFInstruction::New(x, _) => Some(*x),
            ABFInstruction::Read(x) => Some(*x),
            ABFInstruction::Free(x) => Some(*x),
            ABFInstruction::Write(x) => Some(*x),
            ABFInstruction::WriteConst(_) => None,
            ABFInstruction::Add(x, _) => Some(*x),
            ABFInstruction::While(x, _) => Some(*x),
        }
    }

    fn collect_modified_addresses(&self, addresses: &mut BTreeSet<u16>)
        ensures
            final(addresses)@ == old(addresses)@ + modified_of(self@),
        decreases self,
    {
        match self {
            ABFInstruction::Read(address) | ABFInstruction::Add(address, _) => {
                addresses.insert(*address);
                assert(final(addresses)@ =~= old(addresses)@ + modified_of(self@));
            },
            ABFInstruction::While(address, body) => {
                addresses.insert(*address);
                let ghost mid = addresses@;
                let ghost s = body@;
                let mut i: usize = 0;
                while i < body.instructions.len()
                    invariant
                        i <= body.instructions@.len(),
                        s == body@,
                        *self == ABFInstruction::While(*address, *body),
                        addresses@ == mid + modified_seq(s.take(i as int)),
                    decreases body.instructions@.len() - i,
                {
                    proof {
                        lemma_take_sets(s, i as int);
                        broadcast use vstd::std_specs::vec::axiom_vec_index_decreases;

                        assert(decreases_to!(body.instructions => body.instructions[i as int]));
                        assert(decreases_to!(*self => self->While_1));
                    }
                    body.instructions[i].collect_modified_addresses(addresses);
                    assert(addresses@ =~= mid + modified_seq(s.take(i + 1)));
                    i = i + 1;
                }
                assert(s.take(i as int) =~= s);
                assert(addresses@ =~= old(addresses)@ + modified_of(self@));
            },
            _ => {
                assert(addresses@ =~= old(addresses)@ + modified_of(self@));
            },
        }
    }

    fn collect_used_addresses(&self, addresses: &mut BTreeSet<u16>)
        ensures
            final(addresses)@ == old(addresses)@ + used_of(self@),
        decreases self,
    {
        match self {
            ABFInstruction::New(address, _)
            | ABFInstruction::Read(address)
            | ABFInstruction::Add(address, _)
            | ABFInstruction::Free(address)
            | ABFInstruction::Write(address) => {
                addresses.insert(*address);
                assert(final(addresses)@ =~= old(addresses)@ + used_of(self@));
            },
            ABFInstruction::While(address, body) => {
                addresses.insert(*address);
                let ghost mid = addresses@;
                let ghost s = body@;
                let mut i: usize = 0;
                while i < body.instructions.len()
                    invariant
                        i <= body.instructions@.len(),
                        s == body@,
                        *self == ABFInstruction::While(*address, *body),
                        addresses@ == mid + used_seq(s.take(i as int)),
                    decreases body.instructions@.len() - i,
                {
                    proof {
                        lemma_take_sets(s, i as int);
                        broadcast use vstd::std_specs::vec::axiom_vec_index_decreases;

                        assert(decreases_to!(body.instructions => body.instructions[i as int]));
                        assert(decreases_to!(*self => self->While_1));
                    }
                    body.instructions[i].collect_used_addresses(addresses);
                    assert(addresses@ =~= mid + used_seq(s.take(i + 1)));
                    i = i + 1;
                }
                assert(s.take(i as int) =~= s);
                assert(addresses@ =~= old(addresses)@ + used_of(self@));
            },
            ABFInstruction::WriteConst(_) => {
                assert(addresses@ =~= old(addresses)@ + used_of(self@));
            },
        }
    }
}

impl Clone for ABFInstruction {
    fn clone(&self) -> (r: Self)
        ensures
            r@ == self@,
        decreases self,
    {
        match self {
            ABFInstruction::New(a, v) => ABFInstruction::New(*a, *v),
            ABFInstruction::Read(a) => ABFInstruction::Read(*a),
            ABFInstruction::Free(a) => ABFInstruction::Free(*a),
            ABFInstruction::Write(a) => ABFInstruction::Write(*a),
            ABFInstruction::WriteConst(v) => ABFInstruction::WriteConst(*v),
            ABFInstruction::Add(a, v) => ABFInstruction::Add(*a, *v),
            ABFInstruction::While(a, body) => {
                proof {
                    assert(decreases_to!(*self => self->While_1));
                }
                ABFInstruction::While(*a, body.clone())
            },
        }
    }
}

impl Clone for ABFProgram {
    fn clone(&self) -> (r: Self)
        ensures
            r@ == self@,
        decreases self,
    {
        let mut result: Vec<ABFInstruction> = Vec::new();
        let mut i: usize = 0;
        while i < self.instructions.len()
            invariant
                i <= self.instructions@.len(),
                result@.len() == i,
                forall|k: int| 0 <= k < i ==> (#[trigger] result@[k])@ == self.instructions@[k]@,
            decreases self.instructions@.len() - i,
        {
            proof {
                broadcast use vstd::std_specs::vec::axiom_vec_index_decreases;

                assert(decreases_to!(self.instructions => self.instructions[i as int]));
            }
            result.push(self.instructions[i].clone());
            i = i + 1;
        }
        let r = ABFProgram { instructions: result };
        assert(r@ =~= self@);
        r
    }
}

impl ABFProgram {
    pub fn new(instructions: Vec<ABFInstruction>) -> (r: Self)
        ensures
            r.instructions == instructions,
    {
        Self { instructions }
    }

    pub fn add_instruction(&mut self, instruction: ABFInstruction)
        ensures
            final(self)@ == old(self)@.push(instruction@),
    {
        let ghost s = self.instructions@;
        self.instructions.push(instruction);
        proof {
            lemma_view_push(s, instruction);
        }
    }

    /// The cells the program mentions.
    pub fn used_addresses(&self) -> (r: BTreeSet<u16>)
        ensures
            r@ == used_seq(self@),
    {
        let mut result = BTreeSet::new();
        let ghost s = self@;
        let mut i: usize = 0;
        while i < self.instructions.len()
            invariant
                i <= self.instructions@.len(),
                s == self@,
                result@ == used_seq(s.take(i as int)),
            decreases self.instructions@.len() - i,
        {
            proof {
                lemma_take_sets(s, i as int);
            }
            self.instructions[i].collect_used_addresses(&mut result);
            i = i + 1;
        }
        proof {
            assert(s.take(0) =~= Seq::<SpecInstruction>::empty());
            assert(s.take(i as int) =~= s);
        }
        result
    }

    /// The cells the program changes.
    pub fn modified_addresses(&self) -> (r: BTreeSet<u16>)
        ensures
            r@ == modified_seq(self@),
    {
        let mut result = BTreeSet::new();
        let ghost s = self@;
        let mut i: usize = 0;
        while i < self.instructions.len()
            invariant
                i <= self.instructions@.len(),
                s == self@,
                result@ == modified_seq(s.take(i as int)),
            decreases self.instructions@.len() - i,
        {
            proof {
                lemma_take_sets(s, i as int);
            }
            self.instructions[i].collect_modified_addresses(&mut result);
            i = i + 1;
        }
        proof {
            assert(s.take(i as int) =~= s);
        }
        result
    }
}


/// What every change also mentions.
proof fn lemma_modified_used(s: Seq<SpecInstruction>)
    ensures
        modified_seq(s).subset_of(used_seq(s)),
    decreases s,
{
    if s.len() > 0 {
        lemma_modified_used(s.drop_last());
        lemma_modified_used_of(s.last());
    }
}

proof fn lemma_modified_used_of(x: SpecInstruction)
    ensures
        modified_of(x).subset_of(used_of(x)),
    decreases x,
{
    match x {
        SpecInstruction::While(_, body) => {
            lemma_modified_used(body);
        },
        _ => {},
    }
}

/// Every cell of the set is on the tape.
pub open spec fn on_tape(s: Set<u16>) -> bool {
    forall|a: u16| s.contains(a) ==> a < 30000
}

/// What is known of a cell when compiling: its value, or only that it is known when running.
#[derive(Debug, Clone, Copy, PartialEq, Eq, Structural)]
pub enum ABFValue {
    Runtime,
    CompileTime(u8),
}

impl From<u8> for ABFValue {
    fn from(value: u8) -> (r: Self) {
        ABFValue::CompileTime(value)
    }
}

impl vstd::std_specs::convert::FromSpecImpl<u8> for ABFValue {
    open spec fn obeys_from_spec() -> bool {
        true
    }

    open spec fn from_spec(value: u8) -> Self {
        ABFValue::CompileTime(value)
    }
}

/// A cell of the tape: what is known of it and whether it is in use.
#[derive(Debug, Clone, Copy, PartialEq, Eq, Structural)]
pub struct ABFCell {
    pub value: ABFValue,
    pub used: bool,
}

impl ABFCell {
    pub fn new(value: ABFValue, used: bool) -> (r: Self)
        ensures
            r.value == value,
            r.used == used,
    {
        Self { value, used }
    }
}

/// The distance [`ABFState::find_address`] gives cell `i` seen from `last`: how far the pointer
/// goes, plus how far its known value is from the one wanted (255 for a value known only when
/// running).
pub open spec fn cell_distance(last: u16, expected: Option<u8>, cell: ABFCell, i: int) -> int {
    let address_distance = if last >= i {
        last - i
    } else {
        i - last
    };
    let value_distance = match expected {
        Some(e) => match cell.value {
            ABFValue::CompileTime(a) => if a >= e {
                a - e
            } else {
                e - a
            },
            ABFValue::Runtime => 255,
        },
        None => 0,
    };
    address_distance + value_distance
}

/// What is known of each of the 30000 cells of the tape, and the cell last set.
#[derive(Debug)]
pub struct ABFState {
    pub values: Vec<ABFCell>,
    pub last_address: u16,
}

impl Clone for ABFState {
    fn clone(&self) -> (r: Self)
        ensures
            r.values@ == self.values@,
            r.last_address == self.last_address,
    {
        ABFState { values: self.values.clone(), last_address: self.last_address }
    }
}

impl ABFState {
    /// The tape has 30000 cells and the last cell set is on it.
    pub open spec fn wf(&self) -> bool {
        self.values@.len() == 30000 && self.last_address < 30000
    }

    /// The value of every cell is known when compiling.
    pub open spec fn all_known(&self) -> bool {
        forall|i: int| 0 <= i < self.values@.len() ==> (#[trigger] self.values@[i]).value is CompileTime
    }

    /// Some cell is free.
    pub open spec fn has_free(&self) -> bool {
        exists|i: int| 0 <= i < self.values@.len() && !(#[trigger] self.values@[i]).used
    }

    pub fn new() -> (r: Self)
        ensures
            r.wf(),
            forall|i: int| 0 <= i < 30000 ==> #[trigger] r.values@[i] == (ABFCell { value: ABFValue::CompileTime(0), used: false }),
    {
        let mut values: Vec<ABFCell> = Vec::new();
        while values.len() < 30000
            invariant
                values@.len() <= 30000,
                forall|i: int| 0 <= i < values@.len() ==> #[trigger] values@[i] == (ABFCell { value: ABFValue::CompileTime(0), used: false }),
            decreases 30000 - values@.len(),
        {
            values.push(ABFCell::new(ABFValue::CompileTime(0), false));
        }
        Self { values, last_address: 0 }
    }

    /// The free cell closest to the last cell set, counting the distance of its value from
    /// `expected` too; the first of those at the least distance; `u16::MAX` where no cell is free.
    pub fn find_address(&self, expected: Option<u8>) -> (r: u16)
        requires
            self.wf(),
        ensures
            r == u16::MAX <==> !self.has_free(),
            r != u16::MAX ==> {
                &&& r < 30000
                &&& !self.values@[r as int].used
                &&& forall|j: int|
                    0 <= j < 30000 && !(#[trigger] self.values@[j]).used ==> cell_distance(
                        self.last_address,
                        expected,
                        self.values@[j],
                        j,
                    ) >= cell_distance(self.last_address, expected, self.values@[r as int], r as int)
                &&& forall|j: int|
                    0 <= j < r && !(#[trigger] self.values@[j]).used ==> cell_distance(
                        self.last_address,
                        expected,
                        self.values@[j],
                        j,
                    ) > cell_distance(self.last_address, expected, self.values@[r as int], r as int)
            },
    {
        let mut best_address: u16 = u16::MAX;
        let mut best_distance: u16 = u16::MAX;
        let mut i: usize = 0;
        while i < self.values.len()
            invariant_except_break
                i <= 30000,
                self.wf(),
                best_distance > 0,
                best_address == u16::MAX ==> best_distance == u16::MAX,
                best_address == u16::MAX <==> forall|k: int| 0 <= k < i ==> (#[trigger] self.values@[k]).used,
                best_address != u16::MAX ==> {
                    &&& best_address < i
                    &&& !self.values@[best_address as int].used
                    &&& best_distance == cell_distance(
                        self.last_address,
                        expected,
                        self.values@[best_address as int],
                        best_address as int,
                    )
                    &&& forall|j: int|
                        0 <= j < i && !(#[trigger] self.values@[j]).used ==> cell_distance(
                            self.last_address,
                            expected,
                            self.values@[j],
                            j,
                        ) >= best_distance
                    &&& forall|j: int|
                        0 <= j < best_address && !(#[trigger] self.values@[j]).used ==> cell_distance(
                            self.last_address,
                            expected,
                            self.values@[j],
                            j,
                        ) > best_distance
                },
            ensures
                self.wf(),
                best_address == u16::MAX <==> forall|k: int| 0 <= k < 30000 ==> (#[trigger] self.values@[k]).used,
                best_address != u16::MAX ==> {
                    &&& best_address < 30000
                    &&& !self.values@[best_address as int].used
                    &&& best_distance == cell_distance(
                        self.last_address,
                        expected,
                        self.values@[best_address as int],
                        best_address as int,
                    )
                    &&& forall|j: int|
                        0 <= j < 30000 && !(#[trigger] self.values@[j]).used ==> cell_distance(
                            self.last_address,
                            expected,
                            self.values@[j],
                            j,
                        ) >= best_distance
                    &&& forall|j: int|
                        0 <= j < best_address && !(#[trigger] self.values@[j]).used ==> cell_distance(
                            self.last_address,
                            expected,
                            self.values@[j],
                            j,
                        ) > best_distance
                },
            decreases 30000 - i,
        {
            let cell = self.values[i];
            if !cell.used {
                let position: u16 = i as u16;
                let address_distance: u16 = if self.last_address >= position {
                    self.last_address - position
                } else {
                    position - self.last_address
                };
                let value_distance: u8 = match expected {
                    Some(expected) => match cell.value {
                        ABFValue::CompileTime(actual) => if actual >= expected {
                            actual - expected
                        } else {
                            expected - actual
                        },
                        ABFValue::Runtime => 255,
                    },
                    None => 0,
                };
                let distance: u16 = address_distance + value_distance as u16;
                assert(distance == cell_distance(self.last_address, expected, cell, i as int));
                assert(!self.values@[i as int].used);
                if distance < best_distance {
                    best_address = position;
                    best_distance = distance;
                }
                if best_distance == 0 {
                    assert(!self.values@[best_address as int].used);
                    break;
                }
            }
            i = i + 1;
        }
        if best_address == u16::MAX {
            assert(!self.has_free());
        } else {
            assert(!self.values@[best_address as int].used);
        }
        best_address
    }

    pub fn get_cell(&self, address: u16) -> (r: ABFCell)
        requires
            address < self.values@.len(),
        ensures
            r == self.values@[address as int],
    {
        self.values[address as usize]
    }

    pub fn get_cell_mut(&mut self, address: u16) -> (r: &mut ABFCell)
        requires
            address < old(self).values@.len(),
        ensures
            *r == old(self).values@[address as int],
            final(self).values@ == old(self).values@.update(address as int, *final(r)),
            final(self).last_address == old(self).last_address,
    {
        &mut self.values[address as usize]
    }

    /// Puts a value in the cell, which becomes used and the last cell set.
    pub fn set_value(&mut self, address: u16, value: ABFValue)
        requires
            old(self).wf(),
            address < 30000,
        ensures
            final(self).wf(),
            final(self).values@ == old(self).values@.update(address as int, ABFCell { value, used: true }),
            final(self).last_address == address,
    {
        let cell = self.get_cell_mut(address);
        cell.value = value;
        cell.used = true;
        self.last_address = address;
    }

    /// The cell is no longer in use; what is known of it stays.
    pub fn free(&mut self, address: u16)
        requires
            old(self).wf(),
            address < 30000,
        ensures
            final(self).wf(),
            final(self).values@ == old(self).values@.update(
                address as int,
                ABFCell { value: old(self).values@[address as int].value, used: false },
            ),
            final(self).last_address == old(self).last_address,
    {
        let cell = self.get_cell_mut(address);
        cell.used = false;
    }
}


/// Builds an ABF program over the cells of the tape, choosing for each new value a free cell
/// near the last one set whose known value is close to it.
pub struct ABFProgramBuilder {
    program_stack: Vec<ABFProgram>,
    state: ABFState,
}

impl ABFProgramBuilder {
    /// There is the program and a body for each open loop, every cell they mention is on the
    /// tape, and the state is well formed.
    pub closed spec fn wf(&self) -> bool {
        &&& self.program_stack@.len() >= 1
        &&& self.state.wf()
        &&& forall|k: int| 0 <= k < self.program_stack@.len() ==> on_tape(used_seq(#[trigger] self.program_stack@[k]@))
    }

    /// How many programs are being built: one, and one more for each open loop.
    pub closed spec fn depth(&self) -> nat {
        self.program_stack@.len()
    }

    /// Cell `i` is free.
    pub closed spec fn is_free(&self, i: int) -> bool {
        !self.state.values@[i].used
    }

    /// Cell `i` is in use.
    pub closed spec fn is_used(&self, i: int) -> bool {
        self.state.values@[i].used
    }

    /// What is known of the value of cell `i`.
    pub closed spec fn known(&self, i: int) -> ABFValue {
        self.state.values@[i].value
    }

    /// The code of the innermost part being built: the program, or the body of the innermost
    /// open loop.
    pub closed spec fn code(&self) -> Seq<SpecInstruction> {
        self.program_stack@.last()@
    }

    /// The parts being built below the innermost one.
    pub closed spec fn outer(&self) -> Seq<ABFProgram> {
        self.program_stack@.drop_last()
    }

    /// `r` is the free cell that a new cell expected to hold `expected` takes: the free cell
    /// closest to the last cell set, counting the distance of its value from `expected` too; the
    /// first of those at the least distance.
    pub closed spec fn chosen_cell(&self, expected: Option<u8>, r: int) -> bool {
        &&& 0 <= r < 30000
        &&& !self.state.values@[r].used
        &&& forall|j: int|
            0 <= j < 30000 && !(#[trigger] self.state.values@[j]).used ==> cell_distance(
                self.state.last_address,
                expected,
                self.state.values@[j],
                j,
            ) >= cell_distance(self.state.last_address, expected, self.state.values@[r], r)
        &&& forall|j: int|
            0 <= j < r && !(#[trigger] self.state.values@[j]).used ==> cell_distance(
                self.state.last_address,
                expected,
                self.state.values@[j],
                j,
            ) > cell_distance(self.state.last_address, expected, self.state.values@[r], r)
    }

    pub fn new() -> (r: Self)
        ensures
            r.wf(),
            r.depth() == 1,
            forall|i: int| 0 <= i < 30000 ==> #[trigger] r.is_free(i),
    {
        let mut program_stack: Vec<ABFProgram> = Vec::new();
        program_stack.push(ABFProgram::new(Vec::new()));
        assert(used_seq(program_stack@[0]@) =~= Set::empty());
        Self { program_stack, state: ABFState::new() }
    }

    /// The program built, once every loop is closed.
    pub fn program(self) -> (r: ABFProgram)
        requires
            self.wf(),
            self.depth() == 1,
        ensures
            on_tape(used_seq(r@)),
    {
        let mut program_stack = self.program_stack;
        program_stack.pop().unwrap()
    }

    fn add_instruction(&mut self, instruction: ABFInstruction)
        requires
            old(self).wf(),
            on_tape(used_of(instruction@)),
        ensures
            final(self).wf(),
            final(self).depth() == old(self).depth(),
            final(self).state == old(self).state,
            final(self).code() == old(self).code().push(instruction@),
            final(self).outer() == old(self).outer(),
    {
        let ghost n = self.program_stack@.len();
        let mut top = self.program_stack.pop().unwrap();
        let ghost before = top@;
        top.add_instruction(instruction);
        proof {
            lemma_push_sets(before, instruction@);
        }
        self.program_stack.push(top);
        assert forall|k: int| 0 <= k < self.program_stack@.len() implies on_tape(used_seq(#[trigger] self.program_stack@[k]@)) by {
            if k < n - 1 {
                assert(self.program_stack@[k] == old(self).program_stack@[k]);
            }
        }
        assert(self.program_stack@.drop_last() =~= old(self).program_stack@.drop_last());
    }

    /// Declares a cell with `value` and gives its number.
    pub fn new_address(&mut self, value: u8) -> (r: u16)
        requires
            old(self).wf(),
            exists|i: int| 0 <= i < 30000 && #[trigger] old(self).is_free(i),
        ensures
            final(self).wf(),
            final(self).depth() == old(self).depth(),
            r < 30000,
            old(self).is_free(r as int),
            final(self).is_used(r as int),
            forall|i: int| 0 <= i < 30000 && i != r ==> #[trigger] final(self).is_used(i) == old(self).is_used(i),
            old(self).chosen_cell(Some(value), r as int),
            final(self).known(r as int) == ABFValue::CompileTime(value),
            forall|i: int| 0 <= i < 30000 && i != r ==> #[trigger] final(self).known(i) == old(self).known(i),
            final(self).code() == old(self).code().push(SpecInstruction::New(r, value)),
            final(self).outer() == old(self).outer(),
    {
        let address = self.state.find_address(Some(value));
        self.state.set_value(address, ABFValue::CompileTime(value));
        self.add_instruction(ABFInstruction::New(address, value));
        address
    }

    /// Declares a cell with a byte of input and gives its number.
    pub fn read(&mut self) -> (r: u16)
        requires
            old(self).wf(),
            exists|i: int| 0 <= i < 30000 && #[trigger] old(self).is_free(i),
        ensures
            final(self).wf(),
            final(self).depth() == old(self).depth(),
            r < 30000,
            old(self).is_free(r as int),
            final(self).is_used(r as int),
            forall|i: int| 0 <= i < 30000 && i != r ==> #[trigger] final(self).is_used(i) == old(self).is_used(i),
            old(self).chosen_cell(None, r as int),
            final(self).known(r as int) == ABFValue::Runtime,
            forall|i: int| 0 <= i < 30000 && i != r ==> #[trigger] final(self).known(i) == old(self).known(i),
            final(self).code() == old(self).code().push(SpecInstruction::Read(r)),
            final(self).outer() == old(self).outer(),
    {
        let address = self.state.find_address(None);
        self.state.set_value(address, ABFValue::Runtime);
        self.add_instruction(ABFInstruction::Read(address));
        address
    }

    /// Ends the life of a cell.
    pub fn free(&mut self, address: u16)
        requires
            old(self).wf(),
            address < 30000,
        ensures
            final(self).wf(),
            final(self).depth() == old(self).depth(),
            final(self).is_free(address as int),
            forall|i: int| 0 <= i < 30000 && i != address ==> #[trigger] final(self).is_used(i) == old(self).is_used(i),
            forall|i: int| 0 <= i < 30000 ==> #[trigger] final(self).known(i) == old(self).known(i),
            final(self).code() == old(self).code().push(SpecInstruction::Free(address)),
            final(self).outer() == old(self).outer(),
    {
        self.state.free(address);
        self.add_instruction(ABFInstruction::Free(address));
    }

    pub fn write(&mut self, address: u16)
        requires
            old(self).wf(),
            address < 30000,
        ensures
            final(self).wf(),
            final(self).depth() == old(self).depth(),
            forall|i: int| 0 <= i < 30000 ==> #[trigger] final(self).is_used(i) == old(self).is_used(i),
            forall|i: int| 0 <= i < 30000 ==> #[trigger] final(self).known(i) == old(self).known(i),
            final(self).code() == old(self).code().push(SpecInstruction::Write(address)),
            final(self).outer() == old(self).outer(),
    {
        self.add_instruction(ABFInstruction::Write(address));
    }

    /// Adds to a cell in use; what is known of its value follows.
    pub fn add(&mut self, address: u16, amount: i8)
        requires
            old(self).wf(),
            address < 30000,
            old(self).is_used(address as int),
        ensures
            final(self).wf(),
            final(self).depth() == old(self).depth(),
            forall|i: int| 0 <= i < 30000 ==> #[trigger] final(self).is_used(i) == old(self).is_used(i),
            forall|i: int| 0 <= i < 30000 && i != address ==> #[trigger] final(self).known(i) == old(self).known(i),
            final(self).known(address as int) == match old(self).known(address as int) {
                ABFValue::CompileTime(x) => ABFValue::CompileTime(x.wrapping_add(amount as u8)),
                ABFValue::Runtime => ABFValue::Runtime,
            },
            final(self).code() == old(self).code().push(SpecInstruction::Add(address, amount)),
            final(self).outer() == old(self).outer(),
    {
        let cell = self.state.get_cell_mut(address);
        match cell.value {
            ABFValue::CompileTime(x) => {
                #[verifier::truncate]
                let delta = amount as u8;
                cell.value = ABFValue::CompileTime(x.wrapping_add(delta));
            },
            ABFValue::Runtime => {},
        }
        self.add_instruction(ABFInstruction::Add(address, amount));
    }

    /// Opens the body of a loop.
    pub fn begin_loop(&mut self)
        requires
            old(self).wf(),
        ensures
            final(self).wf(),
            final(self).depth() == old(self).depth() + 1,
            forall|i: int| 0 <= i < 30000 ==> #[trigger] final(self).is_used(i) == old(self).is_used(i),
    {
        self.program_stack.push(ABFProgram::new(Vec::new()));
        assert(used_seq(self.program_stack@.last()@) =~= Set::empty());
        assert forall|k: int| 0 <= k < self.program_stack@.len() implies on_tape(used_seq(#[trigger] self.program_stack@[k]@)) by {
            if k < old(self).program_stack@.len() {
                assert(self.program_stack@[k] == old(self).program_stack@[k]);
            }
        }
    }

    /// Closes the innermost loop, on cell `address`: every cell its body changes is then known
    /// only when running, and the cell of the condition is zero.
    pub fn end_loop(&mut self, address: u16)
        requires
            old(self).wf(),
            old(self).depth() > 1,
            address < 30000,
        ensures
            final(self).wf(),
            final(self).depth() == old(self).depth() - 1,
            final(self).is_used(address as int),
            final(self).code() == old(self).outer().last()@.push(SpecInstruction::While(address, old(self).code())),
            final(self).outer() == old(self).outer().drop_last(),
            final(self).known(address as int) == ABFValue::CompileTime(0),
            forall|i: int|
                0 <= i < 30000 && i != address ==> #[trigger] final(self).known(i) == if modified_seq(old(self).code()).contains(i as u16) {
                    ABFValue::Runtime
                } else {
                    old(self).known(i)
                },
    {
        let body = self.program_stack.pop().unwrap();
        let ghost n = old(self).program_stack@.len();
        assert(on_tape(used_seq(old(self).program_stack@[n - 1]@)));
        proof {
            lemma_modified_used(body@);
        }
        let modified_addresses = body.modified_addresses();
        let mut a: u32 = 0;
        while a < 65536
            invariant
                self.state.wf(),
                self.program_stack@ == old(self).program_stack@.drop_last(),
                modified_addresses@.subset_of(used_seq(body@)),
                on_tape(used_seq(body@)),
                body@ == old(self).code(),
                a <= 65536,
                forall|i: int|
                    0 <= i < 30000 ==> #[trigger] self.state.values@[i].value == if i < a && modified_addresses@.contains(i as u16) {
                        ABFValue::Runtime
                    } else {
                        old(self).state.values@[i].value
                    },
            decreases 65536 - a,
        {
            if modified_addresses.contains(&(a as u16)) {
                let cell = self.state.get_cell_mut(a as u16);
                cell.value = ABFValue::Runtime;
            }
            a = a + 1;
        }
        self.state.set_value(address, ABFValue::CompileTime(0));
        assert forall|k: int| 0 <= k < self.program_stack@.len() implies on_tape(used_seq(#[trigger] self.program_stack@[k]@)) by {
            assert(self.program_stack@[k] == old(self).program_stack@[k]);
        }
        assert(on_tape(used_of(ABFInstruction::While(address, body)@)));
        self.add_instruction(ABFInstruction::While(address, body));
    }
}

impl Default for ABFProgramBuilder {
    fn default() -> (r: Self)
        ensures
            r.wf(),
            r.depth() == 1,
    {
        Self::new()
    }
}


/// Every instruction mentions only cells that its sequence mentions.
proof fn lemma_used_index(s: Seq<SpecInstruction>, i: int)
    requires
        0 <= i < s.len(),
    ensures
        used_of(s[i]).subset_of(used_seq(s)),
    decreases s.len(),
{
    if i < s.len() - 1 {
        lemma_used_index(s.drop_last(), i);
        assert(s.drop_last()[i] == s[i]);
    }
}

/// The first place in `usage` that holds `address`.
pub open spec fn first_entry(usage: Seq<(u16, usize)>, address: u16, k: int) -> bool {
    &&& 0 <= k < usage.len()
    &&& usage[k].0 == address
    &&& forall|j: int| 0 <= j < k ==> usage[j].0 != address
}

/// Sets where `address` was last mentioned to `index`, adding it if `add` holds or it is there.
fn note_usage(usage: &mut Vec<(u16, usize)>, address: u16, index: usize, add: bool)
    ensures
        forall|k: int| #[trigger] first_entry(old(usage)@, address, k) ==> final(usage)@ == old(usage)@.update(k, (address, index)),
        (forall|k: int| 0 <= k < old(usage)@.len() ==> #[trigger] old(usage)@[k].0 != address) ==> final(usage)@ == if add {
            old(usage)@.push((address, index))
        } else {
            old(usage)@
        },
{
    let mut k: usize = 0;
    while k < usage.len()
        invariant
            usage@ == old(usage)@,
            k <= usage@.len(),
            forall|j: int| 0 <= j < k ==> usage@[j].0 != address,
        decreases usage@.len() - k,
    {
        if usage[k].0 == address {
            proof {
                assert forall|q: int| #[trigger] first_entry(old(usage)@, address, q) implies q == k by {
                    if q < k {
                    } else if q > k {
                        assert(old(usage)@[k as int].0 == address);
                    }
                }
                assert(first_entry(old(usage)@, address, k as int));
            }
            usage.set(k, (address, index));
            return;
        }
        k = k + 1;
    }
    if add {
        usage.push((address, index));
    }
}

/// The entry at place `k` is last mentioned at `index` and is below `upper`.
pub open spec fn freed_at(usage: Seq<(u16, usize)>, index: usize, upper: u32, k: int) -> bool {
    0 <= k < usage.len() && usage[k].1 == index && (usage[k].0 as u32) < upper
}

/// The largest address below `upper` whose last mention is at `index`.
fn largest_freed_below(usage: &Vec<(u16, usize)>, index: usize, upper: u32) -> (r: Option<u16>)
    ensures
        r is None <==> forall|k: int| !#[trigger] freed_at(usage@, index, upper, k),
        r matches Some(a) ==> (a as u32) < upper && (exists|k: int| #[trigger] freed_at(usage@, index, upper, k) && usage@[k].0 == a)
            && (forall|k: int| #[trigger] freed_at(usage@, index, upper, k) ==> usage@[k].0 <= a),
{
    let mut best: Option<u16> = None;
    let mut k: usize = 0;
    while k < usage.len()
        invariant
            k <= usage@.len(),
            best is None <==> forall|j: int| 0 <= j < k ==> !#[trigger] freed_at(usage@, index, upper, j),
            best matches Some(a) ==> (a as u32) < upper && (exists|j: int| 0 <= j < k && #[trigger] freed_at(usage@, index, upper, j)
                && usage@[j].0 == a) && (forall|j: int| 0 <= j < k && #[trigger] freed_at(usage@, index, upper, j) ==> usage@[j].0 <= a),
        decreases usage@.len() - k,
    {
        let (address, last) = usage[k];
        if last == index && (address as u32) < upper {
            assert(freed_at(usage@, index, upper, k as int));
            match best {
                Some(b) => {
                    if address > b {
                        best = Some(address);
                    }
                },
                None => {
                    best = Some(address);
                },
            }
        }
        k = k + 1;
    }
    assert forall|j: int| #[trigger] freed_at(usage@, index, upper, j) implies 0 <= j < k by {}
    best
}

/// The instruction declares the cell `a`: a `New` or a `Read` of it.
pub open spec fn declares(i: SpecInstruction, a: u16) -> bool {
    match i {
        SpecInstruction::New(b, _) => b == a,
        SpecInstruction::Read(b) => b == a,
        _ => false,
    }
}

/// Every `Free` of the sequence follows, in the same sequence, an instruction that declares its
/// cell.
pub open spec fn frees_follow_declarations(s: Seq<SpecInstruction>) -> bool {
    forall|p: int|
        #![trigger s[p]]
        0 <= p < s.len() ==> (s[p] matches SpecInstruction::Free(a) ==> exists|q: int| 0 <= q < p && #[trigger] declares(s[q], a))
}

/// Each entry of `usage` was last mentioned at or before `index`, and its cell is declared by
/// an instruction of `view` at or before that place.
pub open spec fn usage_declared(usage: Seq<(u16, usize)>, view: Seq<SpecInstruction>, index: int) -> bool {
    forall|k: int| #![trigger usage[k]] 0 <= k < usage.len() ==> usage[k].1 <= index && declared_by(view, usage[k].0, usage[k].1 as int)
}

/// Some instruction of `view` at or before `upto` declares `a`.
pub open spec fn declared_by(view: Seq<SpecInstruction>, a: u16, upto: int) -> bool {
    exists|j: int| 0 <= j <= upto && #[trigger] declares(view[j], a)
}

/// Where `usage` holds `address` somewhere, its first place holding it exists.
proof fn lemma_first_entry(usage: Seq<(u16, usize)>, address: u16, k: int)
    requires
        0 <= k < usage.len(),
        usage[k].0 == address,
    ensures
        exists|q: int| #[trigger] first_entry(usage, address, q),
    decreases k,
{
    if exists|j: int| 0 <= j < k && usage[j].0 == address {
        let j = choose|j: int| 0 <= j < k && usage[j].0 == address;
        lemma_first_entry(usage, address, j);
    } else {
        assert(first_entry(usage, address, k));
    }
}

/// Noting a mention at `index` keeps every entry declared, where a cell added is declared at
/// `index`.
proof fn lemma_note_usage_declared(
    u0: Seq<(u16, usize)>,
    u1: Seq<(u16, usize)>,
    address: u16,
    index: usize,
    add: bool,
    view: Seq<SpecInstruction>,
)
    requires
        index < view.len(),
        forall|k: int| #[trigger] first_entry(u0, address, k) ==> u1 == u0.update(k, (address, index)),
        (forall|k: int| 0 <= k < u0.len() ==> #[trigger] u0[k].0 != address) ==> u1 == if add {
            u0.push((address, index))
        } else {
            u0
        },
        add ==> declares(view[index as int], address),
        usage_declared(u0, view, index as int),
    ensures
        usage_declared(u1, view, index as int),
{
    if exists|k: int| 0 <= k < u0.len() && u0[k].0 == address {
        let k = choose|k: int| 0 <= k < u0.len() && u0[k].0 == address;
        lemma_first_entry(u0, address, k);
        let q = choose|q: int| #[trigger] first_entry(u0, address, q);
        assert(u1 == u0.update(q, (address, index)));
        assert forall|m: int| #![trigger u1[m]] 0 <= m < u1.len() implies u1[m].1 <= index && declared_by(view, u1[m].0, u1[m].1 as int) by {
            assert(u0[m].1 <= index);
            let j = choose|j: int| 0 <= j <= u0[m].1 && #[trigger] declares(view[j], u0[m].0);
            assert(declares(view[j], u1[m].0));
        }
        assert(usage_declared(u1, view, index as int));
    } else {
        assert(forall|k: int| 0 <= k < u0.len() ==> #[trigger] u0[k].0 != address);
        if add {
            assert forall|m: int| #![trigger u1[m]] 0 <= m < u1.len() implies u1[m].1 <= index && declared_by(view, u1[m].0, u1[m].1 as int) by {
                if m < u0.len() {
                    assert(u1[m] == u0[m]);
                    assert(u0[m].1 <= index);
                } else {
                    assert(declares(view[index as int], u1[m].0));
                }
            }
            assert(usage_declared(u1, view, index as int));
        } else {
            assert(u1 == u0);
        }
    }
}

/// Some instruction of `s` before `p` declares `a`.
pub open spec fn declared_before(s: Seq<SpecInstruction>, a: u16, p: int) -> bool {
    exists|q: int| 0 <= q < p && #[trigger] declares(s[q], a)
}

/// `usage` holds `a` as last mentioned at or after `j`.
pub open spec fn covered(usage: Seq<(u16, usize)>, a: u16, j: int) -> bool {
    exists|k: int| 0 <= k < usage.len() && #[trigger] usage[k].0 == a && usage[k].1 >= j
}

/// Every cell that one of the first `n` instructions of `view` declares is held in `usage` as
/// last mentioned at or after that instruction.
pub open spec fn usage_covers(usage: Seq<(u16, usize)>, view: Seq<SpecInstruction>, n: int) -> bool {
    forall|j: int, a: u16| 0 <= j < n && #[trigger] declares(view[j], a) ==> covered(usage, a, j)
}

/// Every instruction of the sequence that declares a cell is followed, in the same sequence, by
/// a `Free` of it.
pub open spec fn declarations_freed(s: Seq<SpecInstruction>) -> bool {
    forall|q: int, a: u16| 0 <= q < s.len() && #[trigger] declares(s[q], a) ==> freed_after(s, q, a)
}

/// A `Free` of `a` follows place `q` in the sequence.
pub open spec fn freed_after(s: Seq<SpecInstruction>, q: int, a: u16) -> bool {
    exists|p: int| 0 <= q < p < s.len() && #[trigger] s[p] == SpecInstruction::Free(a)
}

/// Noting a mention at `index`, where every entry was last mentioned at or before it, keeps
/// every declared cell covered, and covers the cell noted from `index` on where it is added.
proof fn lemma_note_usage_covers(
    u0: Seq<(u16, usize)>,
    u1: Seq<(u16, usize)>,
    address: u16,
    index: usize,
    add: bool,
    view: Seq<SpecInstruction>,
    n: int,
)
    requires
        forall|k: int| #[trigger] first_entry(u0, address, k) ==> u1 == u0.update(k, (address, index)),
        (forall|k: int| 0 <= k < u0.len() ==> #[trigger] u0[k].0 != address) ==> u1 == if add {
            u0.push((address, index))
        } else {
            u0
        },
        forall|k: int| 0 <= k < u0.len() ==> #[trigger] u0[k].1 <= index,
        usage_covers(u0, view, n),
    ensures
        usage_covers(u1, view, n),
        add ==> covered(u1, address, index as int),
{
    if exists|k: int| 0 <= k < u0.len() && u0[k].0 == address {
        let k = choose|k: int| 0 <= k < u0.len() && u0[k].0 == address;
        lemma_first_entry(u0, address, k);
        let q = choose|q: int| #[trigger] first_entry(u0, address, q);
        assert(u1 == u0.update(q, (address, index)));
        assert forall|j: int, a: u16| 0 <= j < n && #[trigger] declares(view[j], a) implies covered(u1, a, j) by {
            let w = choose|w: int| 0 <= w < u0.len() && #[trigger] u0[w].0 == a && u0[w].1 >= j;
            if w == q {
                assert(u1[q].0 == a);
            } else {
                assert(u1[w] == u0[w]);
            }
        }
        assert(u1[q].0 == address);
    } else {
        assert(forall|k: int| 0 <= k < u0.len() ==> #[trigger] u0[k].0 != address);
        assert forall|j: int, a: u16| 0 <= j < n && #[trigger] declares(view[j], a) implies covered(u1, a, j) by {
            let w = choose|w: int| 0 <= w < u0.len() && #[trigger] u0[w].0 == a && u0[w].1 >= j;
            assert(u1[w] == u0[w]);
        }
        if add {
            assert(u1[u0.len() as int].0 == address);
        }
    }
}

/// Pushing an instruction keeps every cell covered that was, and covers the cells it declares
/// where `usage` covers them from its place on.
proof fn lemma_covers_push(u: Seq<(u16, usize)>, v: Seq<SpecInstruction>, x: SpecInstruction)
    requires
        usage_covers(u, v, v.len() as int),
        forall|a: u16| declares(x, a) ==> #[trigger] covered(u, a, v.len() as int),
    ensures
        usage_covers(u, v.push(x), v.len() as int + 1),
{
    let t = v.push(x);
    assert forall|j: int, a: u16| 0 <= j < v.len() + 1 && #[trigger] declares(t[j], a) implies covered(u, a, j) by {
        if j < v.len() {
            assert(t[j] == v[j]);
            assert(declares(v[j], a));
        } else {
            assert(t[j] == x);
        }
    }
}

/// Pushing an instruction keeps every `Free` that followed a place.
proof fn lemma_freed_push(s: Seq<SpecInstruction>, y: SpecInstruction)
    ensures
        forall|q: int, a: u16| freed_after(s, q, a) ==> #[trigger] freed_after(s.push(y), q, a),
{
    assert forall|q: int, a: u16| freed_after(s, q, a) implies #[trigger] freed_after(s.push(y), q, a) by {
        let p = choose|p: int| 0 <= q < p < s.len() && #[trigger] s[p] == SpecInstruction::Free(a);
        assert(s.push(y)[p] == s[p]);
    }
}

/// `usage` holds `a` as last mentioned at `index`, and `a` is below `upper`.
pub open spec fn pending_at(usage: Seq<(u16, usize)>, a: u16, index: usize, upper: u32) -> bool {
    exists|k: int| 0 <= k < usage.len() && #[trigger] usage[k].0 == a && usage[k].1 == index && (a as u32) < upper
}

/// No two entries of `usage` hold the same cell.
pub open spec fn usage_distinct(u: Seq<(u16, usize)>) -> bool {
    forall|k1: int, k2: int| #![trigger u[k1], u[k2]] 0 <= k1 < k2 < u.len() ==> u[k1].0 != u[k2].0
}

/// No instruction of `view` after an entry's place, and before `n`, mentions the entry's cell.
pub open spec fn usage_last(u: Seq<(u16, usize)>, view: Seq<SpecInstruction>, n: int) -> bool {
    forall|k: int, j: int|
        #![trigger u[k], view[j]]
        0 <= k < u.len() && u[k].1 < j < n ==> !used_of(view[j]).contains(u[k].0)
}

/// No instruction after a `Free` mentions its cell.
pub open spec fn no_use_after_free(s: Seq<SpecInstruction>) -> bool {
    forall|p: int, q: int| #![trigger s[p], s[q]] 0 <= p < q < s.len() && s[p] is Free ==> !used_of(s[q]).contains(s[p]->Free_0)
}

/// `usage` holds `a` at a place before `i`, or at `i` with `a` at or above `upper`.
pub open spec fn free_settled(u: Seq<(u16, usize)>, a: u16, i: int, upper: u32) -> bool {
    exists|k: int| 0 <= k < u.len() && #[trigger] u[k].0 == a && (u[k].1 < i || (u[k].1 == i && a as u32 >= upper))
}

/// Pushing an instruction that mentions no freed cell keeps no use after a `Free`.
proof fn lemma_no_use_push(s: Seq<SpecInstruction>, x: SpecInstruction)
    requires
        no_use_after_free(s),
        forall|p: int| 0 <= p < s.len() && (#[trigger] s[p]) is Free ==> !used_of(x).contains(s[p]->Free_0),
    ensures
        no_use_after_free(s.push(x)),
{
    let t = s.push(x);
    assert forall|p: int, q: int| #![trigger t[p], t[q]] 0 <= p < q < t.len() && t[p] is Free implies !used_of(t[q]).contains(t[p]->Free_0) by {
        assert(t[p] == s[p]);
        if q < s.len() {
            assert(t[q] == s[q]);
            assert(!used_of(s[q]).contains(s[p]->Free_0));
        } else {
            assert(t[q] == x);
        }
    }
}

/// Every entry of `usage` is placed at an instruction of `view` that mentions its cell, or
/// just past `view` where its cell is one of `cells`.
pub open spec fn usage_mentioned(u: Seq<(u16, usize)>, view: Seq<SpecInstruction>, cells: Set<u16>) -> bool {
    forall|k: int|
        0 <= k < u.len() ==> ((#[trigger] u[k]).1 < view.len() && used_of(view[u[k].1 as int]).contains(u[k].0)) || (u[k].1
            == view.len() && cells.contains(u[k].0))
}

/// The `Free` at `p` follows the instruction at `j`, which mentions its cell, past frees only.
pub open spec fn follows_use(s: Seq<SpecInstruction>, p: int, j: int) -> bool {
    &&& 0 <= j < p
    &&& !(s[j] is Free)
    &&& used_of(s[j]).contains(s[p]->Free_0)
    &&& forall|q: int| j < q < p ==> (#[trigger] s[q]) is Free
}

/// Every `Free` follows, past other frees only, an instruction that mentions its cell.
pub open spec fn frees_follow_use(s: Seq<SpecInstruction>) -> bool {
    forall|p: int| 0 <= p < s.len() && (#[trigger] s[p]) is Free ==> exists|j: int| #[trigger] follows_use(s, p, j)
}

proof fn lemma_mentioned_widen(u: Seq<(u16, usize)>, view: Seq<SpecInstruction>, c1: Set<u16>, c2: Set<u16>)
    requires
        usage_mentioned(u, view, c1),
        c1.subset_of(c2),
    ensures
        usage_mentioned(u, view, c2),
{
}

/// Placing the entry of `address` just past `view`, and keeping every other, keeps every
/// entry placed at a mention where `address` is one of `cells`.
proof fn lemma_note_mentioned(
    u0: Seq<(u16, usize)>,
    u1: Seq<(u16, usize)>,
    address: u16,
    view: Seq<SpecInstruction>,
    cells: Set<u16>,
)
    requires
        usage_mentioned(u0, view, cells),
        cells.contains(address),
        forall|k: int| 0 <= k < u1.len() && (#[trigger] u1[k]).0 == address ==> u1[k].1 == view.len(),
        forall|k: int| 0 <= k < u1.len() && (#[trigger] u1[k]).0 != address ==> k < u0.len() && u1[k] == u0[k],
    ensures
        usage_mentioned(u1, view, cells),
{
    assert forall|k: int| 0 <= k < u1.len() implies ((#[trigger] u1[k]).1 < view.len() && used_of(view[u1[k].1 as int]).contains(
        u1[k].0,
    )) || (u1[k].1 == view.len() && cells.contains(u1[k].0)) by {
        if u1[k].0 != address {
            assert(u1[k] == u0[k]);
        }
    }
}

/// Pushing an instruction that mentions the cells of the entries placed past the view
/// places every entry at a mention.
proof fn lemma_mentioned_push(u: Seq<(u16, usize)>, view: Seq<SpecInstruction>, x: SpecInstruction)
    requires
        usage_mentioned(u, view, used_of(x)),
    ensures
        usage_mentioned(u, view.push(x), Set::empty()),
{
    let t = view.push(x);
    assert forall|k: int| 0 <= k < u.len() implies ((#[trigger] u[k]).1 < t.len() && used_of(t[u[k].1 as int]).contains(u[k].0))
        || (u[k].1 == t.len() && Set::<u16>::empty().contains(u[k].0)) by {
        if u[k].1 < view.len() {
            assert(t[u[k].1 as int] == view[u[k].1 as int]);
        } else {
            assert(t[u[k].1 as int] == x);
        }
    }
}

/// Pushing an instruction that is no `Free` keeps every `Free` after a mention.
proof fn lemma_follow_push_plain(s: Seq<SpecInstruction>, x: SpecInstruction)
    requires
        frees_follow_use(s),
        !(x is Free),
    ensures
        frees_follow_use(s.push(x)),
{
    let t = s.push(x);
    assert forall|p: int| 0 <= p < t.len() && (#[trigger] t[p]) is Free implies exists|j: int| #[trigger] follows_use(t, p, j) by {
        assert(t[p] == s[p]);
        let j = choose|j: int| #[trigger] follows_use(s, p, j);
        assert(t[j] == s[j]);
        assert forall|q: int| j < q < p implies (#[trigger] t[q]) is Free by {
            assert(t[q] == s[q]);
        }
        assert(follows_use(t, p, j));
    }
}

/// Pushing a `Free` of a cell that the last instruction other than a `Free` mentions keeps
/// every `Free` after a mention.
proof fn lemma_follow_push_free(s: Seq<SpecInstruction>, b: u16, j: int)
    requires
        frees_follow_use(s),
        0 <= j < s.len(),
        !(s[j] is Free),
        used_of(s[j]).contains(b),
        forall|q: int| j < q < s.len() ==> (#[trigger] s[q]) is Free,
    ensures
        frees_follow_use(s.push(SpecInstruction::Free(b))),
{
    let t = s.push(SpecInstruction::Free(b));
    assert forall|p: int| 0 <= p < t.len() && (#[trigger] t[p]) is Free implies exists|j2: int| #[trigger] follows_use(t, p, j2) by {
        if p < s.len() {
            assert(t[p] == s[p]);
            let j2 = choose|j2: int| #[trigger] follows_use(s, p, j2);
            assert(t[j2] == s[j2]);
            assert forall|q: int| j2 < q < p implies (#[trigger] t[q]) is Free by {
                assert(t[q] == s[q]);
            }
            assert(follows_use(t, p, j2));
        } else {
            assert(t[j] == s[j]);
            assert forall|q: int| j < q < p implies (#[trigger] t[q]) is Free by {
                assert(t[q] == s[q]);
            }
            assert(follows_use(t, p, j));
        }
    }
}

/// Noting a mention of `address` at `index` keeps the cells distinct, sets the place of
/// `address` to `index`, and keeps every other entry.
proof fn lemma_note_last(u0: Seq<(u16, usize)>, u1: Seq<(u16, usize)>, address: u16, index: usize, add: bool)
    requires
        usage_distinct(u0),
        forall|k: int| #[trigger] first_entry(u0, address, k) ==> u1 == u0.update(k, (address, index)),
        (forall|k: int| 0 <= k < u0.len() ==> #[trigger] u0[k].0 != address) ==> u1 == if add {
            u0.push((address, index))
        } else {
            u0
        },
    ensures
        usage_distinct(u1),
        forall|k: int| 0 <= k < u1.len() && #[trigger] u1[k].0 == address ==> u1[k].1 == index,
        forall|k: int| 0 <= k < u1.len() && #[trigger] u1[k].0 != address ==> k < u0.len() && u1[k] == u0[k],
{
    if exists|k: int| 0 <= k < u0.len() && u0[k].0 == address {
        let k = choose|k: int| 0 <= k < u0.len() && u0[k].0 == address;
        lemma_first_entry(u0, address, k);
        let q = choose|q: int| #[trigger] first_entry(u0, address, q);
        assert(u1 == u0.update(q, (address, index)));
        assert forall|k1: int, k2: int| #![trigger u1[k1], u1[k2]] 0 <= k1 < k2 < u1.len() implies u1[k1].0 != u1[k2].0 by {
            assert(u0[k1].0 != u0[k2].0);
        }
        assert forall|k1: int| 0 <= k1 < u1.len() && #[trigger] u1[k1].0 == address implies u1[k1].1 == index by {
            if k1 != q {
                assert(u0[k1].0 == address);
                if k1 < q {
                    assert(u0[k1].0 != address);
                } else {
                    assert(u0[q].0 != u0[k1].0);
                }
            }
        }
    } else {
        assert(forall|k: int| 0 <= k < u0.len() ==> #[trigger] u0[k].0 != address);
        if add {
            assert forall|k1: int, k2: int| #![trigger u1[k1], u1[k2]] 0 <= k1 < k2 < u1.len() implies u1[k1].0 != u1[k2].0 by {
                if k2 < u0.len() {
                    assert(u0[k1].0 != u0[k2].0);
                } else {
                    assert(u1[k1] == u0[k1]);
                }
            }
            assert forall|k1: int| 0 <= k1 < u1.len() && #[trigger] u1[k1].0 == address implies u1[k1].1 == index by {
                if k1 < u0.len() {
                    assert(u1[k1] == u0[k1]);
                }
            }
        }
    }
}

/// Noting a mention of `address` at `index` keeps the cells distinct and every entry's cell
/// unmentioned after its place, before `index`; the entry of `address` is placed at `index`
/// and every other entry is kept.
proof fn lemma_note_keeps_last(
    u0: Seq<(u16, usize)>,
    u1: Seq<(u16, usize)>,
    address: u16,
    index: usize,
    add: bool,
    view: Seq<SpecInstruction>,
)
    requires
        usage_distinct(u0),
        usage_last(u0, view, index as int),
        forall|k: int| #[trigger] first_entry(u0, address, k) ==> u1 == u0.update(k, (address, index)),
        (forall|k: int| 0 <= k < u0.len() ==> #[trigger] u0[k].0 != address) ==> u1 == if add {
            u0.push((address, index))
        } else {
            u0
        },
    ensures
        usage_distinct(u1),
        usage_last(u1, view, index as int),
        forall|k: int| 0 <= k < u1.len() && (#[trigger] u1[k]).0 == address ==> u1[k].1 == index,
        forall|k: int| 0 <= k < u1.len() && (#[trigger] u1[k]).0 != address ==> k < u0.len() && u1[k] == u0[k],
{
    lemma_note_last(u0, u1, address, index, add);
    assert forall|k: int, j: int| #![trigger u1[k], view[j]] 0 <= k < u1.len() && u1[k].1 < j < index implies !used_of(view[j]).contains(u1[k].0) by {
        if u1[k].0 == address {
            assert(u1[k].1 == index);
        } else {
            assert(u1[k] == u0[k]);
            assert(!used_of(view[j]).contains(u0[k].0));
        }
    }
}

/// Pushing an instruction whose cells all have their entry placed at its own place keeps
/// every entry's cell unmentioned after its place.
proof fn lemma_last_push(u: Seq<(u16, usize)>, view: Seq<SpecInstruction>, x: SpecInstruction)
    requires
        usage_last(u, view, view.len() as int),
        forall|k: int| 0 <= k < u.len() && used_of(x).contains((#[trigger] u[k]).0) ==> u[k].1 == view.len(),
    ensures
        usage_last(u, view.push(x), view.len() as int + 1),
{
    let t = view.push(x);
    assert forall|k: int, j: int| #![trigger u[k], t[j]] 0 <= k < u.len() && u[k].1 < j < view.len() + 1 implies !used_of(t[j]).contains(u[k].0) by {
        if j < view.len() {
            assert(t[j] == view[j]);
            assert(!used_of(view[j]).contains(u[k].0));
        } else {
            assert(t[j] == x);
        }
    }
}

/// A view with more instructions after the same ones, read up to a later place, still
/// declares every entry.
proof fn lemma_usage_extend(u: Seq<(u16, usize)>, v1: Seq<SpecInstruction>, v2: Seq<SpecInstruction>, i1: int, i2: int)
    requires
        usage_declared(u, v1, i1),
        i1 < v1.len(),
        i1 <= i2,
        v1.len() <= v2.len(),
        forall|j: int| 0 <= j < v1.len() ==> #[trigger] v2[j] == v1[j],
    ensures
        usage_declared(u, v2, i2),
{
    assert forall|k: int| #![trigger u[k]] 0 <= k < u.len() implies u[k].1 <= i2 && declared_by(v2, u[k].0, u[k].1 as int) by {
        let j = choose|j: int| 0 <= j <= u[k].1 && #[trigger] declares(v1[j], u[k].0);
        assert(v2[j] == v1[j]);
    }
}

/// The instruction stands somewhere in the sequence.
pub open spec fn appears_in(s: Seq<SpecInstruction>, x: SpecInstruction) -> bool {
    exists|q: int| 0 <= q < s.len() && #[trigger] s[q] == x
}

/// Pushing an instruction keeps every instruction that stood there, and adds it.
proof fn lemma_appears_push(s: Seq<SpecInstruction>, x: SpecInstruction)
    ensures
        forall|y: SpecInstruction| appears_in(s, y) ==> #[trigger] appears_in(s.push(x), y),
        appears_in(s.push(x), x),
{
    assert forall|y: SpecInstruction| appears_in(s, y) implies #[trigger] appears_in(s.push(x), y) by {
        let q = choose|q: int| 0 <= q < s.len() && #[trigger] s[q] == y;
        assert(s.push(x)[q] == y);
    }
    assert(s.push(x)[s.len() as int] == x);
}

/// Pushing an instruction that is no `Free`, or a `Free` of a cell declared before, keeps every
/// `Free` after a declaration of its cell.
proof fn lemma_frees_push(s: Seq<SpecInstruction>, x: SpecInstruction)
    requires
        frees_follow_declarations(s),
        x is Free ==> declared_before(s, x->Free_0, s.len() as int),
    ensures
        frees_follow_declarations(s.push(x)),
{
    let t = s.push(x);
    assert forall|p: int| #![trigger t[p]] 0 <= p < t.len() implies (t[p] matches SpecInstruction::Free(a) ==> exists|q: int| 0 <= q < p && #[trigger] declares(t[q], a)) by {
        if p < s.len() {
            assert(t[p] == s[p]);
            if let SpecInstruction::Free(a) = s[p] {
                let q = choose|q: int| 0 <= q < p && #[trigger] declares(s[q], a);
                assert(t[q] == s[q]);
            }
        } else {
            if let SpecInstruction::Free(a) = x {
                let q = choose|q: int| 0 <= q < s.len() && #[trigger] declares(s[q], a);
                assert(t[q] == s[q]);
            }
        }
    }
}

/// The instruction mentions a cell beyond the tape, or, other than to declare it, a cell that
/// is not in use in `state`.
pub open spec fn refused_in(i: SpecInstruction, state: ABFState) -> bool {
    match i {
        SpecInstruction::New(a, _) => a >= 30000,
        SpecInstruction::Read(a) => a >= 30000,
        SpecInstruction::Free(a) => a >= 30000 || !state.values@[a as int].used,
        SpecInstruction::Write(a) => a >= 30000 || !state.values@[a as int].used,
        SpecInstruction::Add(a, _) => a >= 30000 || !state.values@[a as int].used,
        SpecInstruction::While(a, _) => a >= 30000 || !state.values@[a as int].used,
        SpecInstruction::WriteConst(_) => false,
    }
}

/// The instruction mentions a cell beyond the tape, or, other than to declare it, any cell.
pub open spec fn refused_at_start(i: SpecInstruction) -> bool {
    match i {
        SpecInstruction::New(a, _) => a >= 30000,
        SpecInstruction::Read(a) => a >= 30000,
        SpecInstruction::WriteConst(_) => false,
        _ => true,
    }
}

/// The program neither reads nor loops.
pub open spec fn straight(s: Seq<SpecInstruction>) -> bool {
    forall|i: int| #![trigger s[i]] 0 <= i < s.len() ==> !(s[i] is Read) && !(s[i] is While)
}

/// The program only prints constants.
pub open spec fn only_constant_writes(s: Seq<SpecInstruction>) -> bool {
    forall|i: int| #![trigger s[i]] 0 <= i < s.len() ==> s[i] is WriteConst
}

/// Printing a constant keeps a program that only prints constants.
proof fn lemma_constant_write_push(s: Seq<SpecInstruction>, x: SpecInstruction)
    requires
        only_constant_writes(s),
        x is WriteConst,
    ensures
        only_constant_writes(s.push(x)),
{
    assert forall|i: int| #![trigger s.push(x)[i]] 0 <= i < s.len() + 1 implies s.push(x)[i] is WriteConst by {
        if i < s.len() {
            assert(s.push(x)[i] == s[i]);
        }
    }
}

/// The state after one instruction, where it ends within `fuel` rounds of each loop it runs;
/// `None` where a loop needs more, or a byte is read from empty input. `WriteConst` prints its
/// byte; the others act as in [`crate::abf::abf_semantics::run_instr`].
pub open spec fn run_one(i: SpecInstruction, st: AbfState, fuel: nat) -> Option<AbfState>
    decreases fuel, 0nat,
{
    match i {
        SpecInstruction::New(a, v) => Some(AbfState { cells: st.cells.insert(a, v), ..st }),
        SpecInstruction::Read(a) => if st.input.len() == 0 {
            None
        } else {
            Some(AbfState { cells: st.cells.insert(a, st.input[0]), input: st.input.drop_first(), output: st.output })
        },
        SpecInstruction::Free(a) => Some(AbfState { cells: st.cells.remove(a), ..st }),
        SpecInstruction::Write(a) => Some(AbfState { output: st.output.push(cell(st.cells, a)), ..st }),
        SpecInstruction::WriteConst(v) => Some(AbfState { output: st.output.push(v), ..st }),
        SpecInstruction::Add(a, d) => Some(AbfState { cells: st.cells.insert(a, wrap_add(cell(st.cells, a), d as int)), ..st }),
        SpecInstruction::While(a, body) => if cell(st.cells, a) == 0 {
            Some(st)
        } else if fuel == 0 {
            None
        } else {
            match run_all(body, st, (fuel - 1) as nat) {
                Some(next) => run_one(i, next, (fuel - 1) as nat),
                None => None,
            }
        },
    }
}

/// The state after the instructions, in order; `None` where one of them gives none.
pub open spec fn run_all(s: Seq<SpecInstruction>, st: AbfState, fuel: nat) -> Option<AbfState>
    decreases fuel, s.len(),
{
    if s.len() == 0 {
        Some(st)
    } else {
        match run_all(s.drop_last(), st, fuel) {
            Some(mid) => run_one(s.last(), mid, fuel),
            None => None,
        }
    }
}

/// Running a sequence with one more instruction runs it after the others.
proof fn lemma_run_all_push(a: Seq<SpecInstruction>, x: SpecInstruction, st: AbfState, fuel: nat)
    ensures
        run_all(a.push(x), st, fuel) == match run_all(a, st, fuel) {
            Some(mid) => run_one(x, mid, fuel),
            None => None,
        },
{
    assert(a.push(x).drop_last() =~= a);
}

/// Running two sequences one after the other is running them joined.
proof fn lemma_run_all_append(a: Seq<SpecInstruction>, b: Seq<SpecInstruction>, st: AbfState, fuel: nat)
    ensures
        run_all(a + b, st, fuel) == match run_all(a, st, fuel) {
            Some(mid) => run_all(b, mid, fuel),
            None => None,
        },
    decreases b.len(),
{
    if b.len() == 0 {
        assert(a + b =~= a);
    } else {
        lemma_run_all_append(a, b.drop_last(), st, fuel);
        assert((a + b).drop_last() =~= a + b.drop_last());
        assert((a + b).last() == b.last());
    }
}

/// The program has no loop.
pub open spec fn no_loops(s: Seq<SpecInstruction>) -> bool {
    forall|i: int| #![trigger s[i]] 0 <= i < s.len() ==> !(s[i] is While)
}

/// The folded code, run to `so`, stands for the input code run to `si`, where `vals` is
/// what the folding knows of each cell: the same input is left and the same was printed; a
/// cell in use whose value is known holds it in `si`, and one whose value is known only when
/// running holds the same in both.
pub open spec fn folded_sim(vals: Seq<ABFCell>, si: AbfState, so: AbfState) -> bool {
    &&& si.input == so.input
    &&& si.output == so.output
    &&& forall|a: u16|
        #![trigger vals[a as int]]
        a < 30000 && vals[a as int].used ==> match vals[a as int].value {
            ABFValue::CompileTime(v) => cell(si.cells, a) == v,
            ABFValue::Runtime => cell(so.cells, a) == cell(si.cells, a),
        }
}

/// Both runs end or neither does, and where they end the folded one stands for the other.
pub open spec fn folded_related(vals: Seq<ABFCell>, a: Option<AbfState>, b: Option<AbfState>) -> bool {
    &&& (a is Some <==> b is Some)
    &&& a is Some ==> folded_sim(vals, a->Some_0, b->Some_0)
}

/// What folding one instruction does to what is known and emits.
pub open spec fn folded_step(vals: Seq<ABFCell>, vals2: Seq<ABFCell>, x: SpecInstruction, e: Seq<SpecInstruction>) -> bool {
    match x {
        SpecInstruction::New(a, v) => a < 30000 && vals2 == vals.update(a as int, ABFCell { value: ABFValue::CompileTime(v), used: true })
            && e == Seq::<SpecInstruction>::empty(),
        SpecInstruction::Read(a) => a < 30000 && vals2 == vals.update(a as int, ABFCell { value: ABFValue::Runtime, used: true }) && e
            == seq![SpecInstruction::Read(a)],
        SpecInstruction::Free(a) => a < 30000 && vals[a as int].used && vals2 == vals.update(
            a as int,
            ABFCell { value: vals[a as int].value, used: false },
        ) && e == if vals[a as int].value is Runtime {
            seq![SpecInstruction::Free(a)]
        } else {
            Seq::<SpecInstruction>::empty()
        },
        SpecInstruction::Write(a) => a < 30000 && vals[a as int].used && vals2 == vals && e == match vals[a as int].value {
            ABFValue::CompileTime(v) => seq![SpecInstruction::WriteConst(v)],
            ABFValue::Runtime => seq![SpecInstruction::Write(a)],
        },
        SpecInstruction::WriteConst(v) => vals2 == vals && e == seq![SpecInstruction::WriteConst(v)],
        SpecInstruction::Add(a, k) => a < 30000 && vals[a as int].used && match vals[a as int].value {
            ABFValue::CompileTime(v) => vals2 == vals.update(a as int, ABFCell { value: ABFValue::CompileTime(v.wrapping_add(k as u8)), used: true })
                && e == Seq::<SpecInstruction>::empty(),
            ABFValue::Runtime => vals2 == vals && e == seq![SpecInstruction::Add(a, k)],
        },
        SpecInstruction::While(_, _) => false,
    }
}

/// One folded instruction keeps the runs related.
proof fn lemma_folded_step(
    vals: Seq<ABFCell>,
    vals2: Seq<ABFCell>,
    x: SpecInstruction,
    e: Seq<SpecInstruction>,
    si: AbfState,
    so: AbfState,
    fuel: nat,
)
    requires
        vals.len() == 30000,
        folded_step(vals, vals2, x, e),
        folded_sim(vals, si, so),
    ensures
        folded_related(vals2, run_one(x, si, fuel), run_all(e, so, fuel)),
{
    reveal_with_fuel(run_all, 2);
    if e.len() == 1 {
        assert(e.drop_last() =~= Seq::<SpecInstruction>::empty());
    }
    match x {
        SpecInstruction::Add(a, k) => {
            if vals[a as int].value is CompileTime {
                lemma_wrap_add_i8(vals[a as int].value->CompileTime_0, k);
            }
        },
        _ => {},
    }
    let ri = run_one(x, si, fuel);
    let ro = run_all(e, so, fuel);
    if ri is Some {
        let si2 = ri->Some_0;
        let so2 = ro->Some_0;
        assert forall|b: u16|
            #![trigger vals2[b as int]]
            b < 30000 && vals2[b as int].used implies match vals2[b as int].value {
            ABFValue::CompileTime(v) => cell(si2.cells, b) == v,
            ABFValue::Runtime => cell(so2.cells, b) == cell(si2.cells, b),
        } by {
            assert(vals[b as int].used || vals2[b as int] != vals[b as int]);
        }
    }
}

/// From every pair of states `vals0` relates, running `a` and running `b` end in states
/// `vals` relates.
pub open spec fn folded_prefix(vals0: Seq<ABFCell>, vals: Seq<ABFCell>, a: Seq<SpecInstruction>, b: Seq<SpecInstruction>, fuel: nat) -> bool {
    forall|si: AbfState, so: AbfState| #[trigger] folded_sim(vals0, si, so) ==> folded_related(vals, run_all(a, si, fuel), run_all(b, so, fuel))
}

/// A related prefix followed by a folded step is a related prefix.
proof fn lemma_folded_compose(
    vals0: Seq<ABFCell>,
    vals: Seq<ABFCell>,
    vals2: Seq<ABFCell>,
    a: Seq<SpecInstruction>,
    b: Seq<SpecInstruction>,
    x: SpecInstruction,
    e: Seq<SpecInstruction>,
    fuel: nat,
)
    requires
        vals.len() == 30000,
        folded_prefix(vals0, vals, a, b, fuel),
        folded_step(vals, vals2, x, e),
    ensures
        folded_prefix(vals0, vals2, a.push(x), b + e, fuel),
{
    assert forall|si: AbfState, so: AbfState| #[trigger] folded_sim(vals0, si, so) implies folded_related(
        vals2,
        run_all(a.push(x), si, fuel),
        run_all(b + e, so, fuel),
    ) by {
        lemma_run_all_push(a, x, si, fuel);
        lemma_run_all_append(b, e, so, fuel);
        let ra = run_all(a, si, fuel);
        if ra is Some {
            lemma_folded_step(vals, vals2, x, e, ra->Some_0, run_all(b, so, fuel)->Some_0, fuel);
        }
    }
}

/// Every cell in use whose value is known when compiling holds that value in `cells`.
pub open spec fn known_hold(vals: Seq<ABFCell>, cells: Map<u16, u8>) -> bool {
    forall|a: u16|
        #![trigger vals[a as int]]
        a < 30000 && vals[a as int].used ==> match vals[a as int].value {
            ABFValue::CompileTime(v) => cell(cells, a) == v,
            ABFValue::Runtime => true,
        }
}

/// The instructions only add and print.
pub open spec fn simple_body(s: Seq<SpecInstruction>) -> bool {
    forall|j: int| 0 <= j < s.len() ==> (#[trigger] s[j] is Add || s[j] is Write || s[j] is WriteConst)
}

/// Every loop among the instructions has a body that only adds and prints.
pub open spec fn simple_loops(s: Seq<SpecInstruction>) -> bool {
    forall|j: int| 0 <= j < s.len() ==> (#[trigger] s[j] is While ==> simple_body(s[j]->While_1))
}

/// Running `x` from cells that hold what `vals` knows ends, where it ends, in cells that hold
/// what `vals2` knows.
pub open spec fn step_kept(vals: Seq<ABFCell>, vals2: Seq<ABFCell>, x: SpecInstruction) -> bool {
    forall|st: AbfState, fuel: nat|
        known_hold(vals, st.cells) && #[trigger] run_one(x, st, fuel) is Some ==> known_hold(vals2, run_one(x, st, fuel)->Some_0.cells)
}

/// Running `s` from cells that hold what `vals` knows ends, where it ends, in cells that hold
/// what `vals2` knows.
pub open spec fn knowledge_kept(vals: Seq<ABFCell>, vals2: Seq<ABFCell>, s: Seq<SpecInstruction>) -> bool {
    forall|st: AbfState, fuel: nat|
        known_hold(vals, st.cells) && #[trigger] run_all(s, st, fuel) is Some ==> known_hold(vals2, run_all(s, st, fuel)->Some_0.cells)
}

/// Folding an instruction other than a loop keeps what is known true.
proof fn lemma_known_step(vals: Seq<ABFCell>, vals2: Seq<ABFCell>, x: SpecInstruction, e: Seq<SpecInstruction>)
    requires
        vals.len() == 30000,
        folded_step(vals, vals2, x, e),
    ensures
        step_kept(vals, vals2, x),
{
    assert forall|st: AbfState, fuel: nat| known_hold(vals, st.cells) && #[trigger] run_one(x, st, fuel) is Some implies known_hold(
        vals2,
        run_one(x, st, fuel)->Some_0.cells,
    ) by {
        let after = run_one(x, st, fuel)->Some_0;
        assert forall|b: u16| #![trigger vals2[b as int]] b < 30000 && vals2[b as int].used implies match vals2[b as int].value {
            ABFValue::CompileTime(v) => cell(after.cells, b) == v,
            ABFValue::Runtime => true,
        } by {
            match x {
                SpecInstruction::Add(a, k) => {
                    if b == a {
                        if vals[a as int].value is CompileTime {
                            lemma_wrap_add_i8(vals[a as int].value->CompileTime_0, k);
                        }
                    } else {
                        assert(vals2[b as int] == vals[b as int]);
                    }
                },
                SpecInstruction::Free(a) => {
                    if b != a {
                        assert(vals2[b as int] == vals[b as int]);
                    }
                },
                SpecInstruction::New(a, _) => {
                    if b != a {
                        assert(vals2[b as int] == vals[b as int]);
                    }
                },
                SpecInstruction::Read(a) => {
                    if b != a {
                        assert(vals2[b as int] == vals[b as int]);
                    }
                },
                _ => {
                    assert(vals2[b as int] == vals[b as int]);
                },
            }
        }
    }
}

/// What is known stays true over a sequence and one more instruction.
proof fn lemma_knowledge_push(v0: Seq<ABFCell>, v1: Seq<ABFCell>, v2: Seq<ABFCell>, a: Seq<SpecInstruction>, x: SpecInstruction)
    requires
        knowledge_kept(v0, v1, a),
        step_kept(v1, v2, x),
    ensures
        knowledge_kept(v0, v2, a.push(x)),
{
    assert forall|st: AbfState, fuel: nat| known_hold(v0, st.cells) && #[trigger] run_all(a.push(x), st, fuel) is Some implies known_hold(
        v2,
        run_all(a.push(x), st, fuel)->Some_0.cells,
    ) by {
        lemma_run_all_push(a, x, st, fuel);
        let mid = run_all(a, st, fuel)->Some_0;
        assert(known_hold(v1, mid.cells));
        assert(run_one(x, mid, fuel) is Some);
    }
}

/// A loop whose body keeps `vals` true (it changes no cell known there) ends, where it ends, on
/// cells that hold what `vals` knows, and with its own cell at zero.
proof fn lemma_loop_keeps(vals: Seq<ABFCell>, a: u16, body: Seq<SpecInstruction>, st: AbfState, fuel: nat)
    requires
        knowledge_kept(vals, vals, body),
        known_hold(vals, st.cells),
        run_one(SpecInstruction::While(a, body), st, fuel) is Some,
    ensures
        known_hold(vals, run_one(SpecInstruction::While(a, body), st, fuel)->Some_0.cells),
        cell(run_one(SpecInstruction::While(a, body), st, fuel)->Some_0.cells, a) == 0,
    decreases fuel,
{
    if cell(st.cells, a) != 0 {
        let f = (fuel - 1) as nat;
        let next = run_all(body, st, f)->Some_0;
        assert(run_all(body, st, f) is Some);
        assert(known_hold(vals, next.cells));
        lemma_loop_keeps(vals, a, body, next, f);
    }
}

/// A loop unrolled until its cell is known zero keeps what is known true: from cells that hold
/// what `vals` knows, the loop ends where some run of it from cells that hold what `nv` knows
/// ends, and there its cell is zero.
proof fn lemma_unrolled_kept(vals: Seq<ABFCell>, nv: Seq<ABFCell>, a: u16, body: Seq<SpecInstruction>)
    requires
        a < 30000,
        nv.len() == 30000,
        nv[a as int].used,
        nv[a as int].value == ABFValue::CompileTime(0),
        forall|st: AbfState, fuel: nat| known_hold(vals, st.cells) && #[trigger] run_one(SpecInstruction::While(a, body), st, fuel) is Some
            ==> exists|st2: AbfState, f2: nat| known_hold(nv, st2.cells) && #[trigger] run_one(SpecInstruction::While(a, body), st2, f2)
            == run_one(SpecInstruction::While(a, body), st, fuel),
    ensures
        step_kept(vals, nv.update(a as int, ABFCell { value: ABFValue::CompileTime(0), used: true }), SpecInstruction::While(a, body)),
{
    let w = SpecInstruction::While(a, body);
    let fv = nv.update(a as int, ABFCell { value: ABFValue::CompileTime(0), used: true });
    assert forall|st: AbfState, fuel: nat| known_hold(vals, st.cells) && #[trigger] run_one(w, st, fuel) is Some implies known_hold(
        fv,
        run_one(w, st, fuel)->Some_0.cells,
    ) by {
        let (st2, f2) = choose|st2: AbfState, f2: nat| known_hold(nv, st2.cells) && #[trigger] run_one(w, st2, f2) == run_one(w, st, fuel);
        assert(cell(st2.cells, a) == 0);
        assert(run_one(w, st2, f2) == Some(st2));
        assert forall|c: u16| #![trigger fv[c as int]] c < 30000 && fv[c as int].used implies match fv[c as int].value {
            ABFValue::CompileTime(x) => cell(st2.cells, c) == x,
            ABFValue::Runtime => true,
        } by {
            if c != a {
                assert(fv[c as int] == nv[c as int]);
            }
        }
    }
}

/// A loop kept as a loop, its body folded once from `s1` (what is known before it, with every
/// cell in use that the body changes made unknown) to `s2`, keeps what is known true: from
/// cells that hold what `vals` knows, it ends on cells that hold what `s3` (`s2` with every cell
/// in use that the body changes made unknown) knows, its own cell zero.
proof fn lemma_materialized_kept(
    vals: Seq<ABFCell>,
    s1: Seq<ABFCell>,
    s2: Seq<ABFCell>,
    s3: Seq<ABFCell>,
    a: u16,
    body: Seq<SpecInstruction>,
)
    requires
        a < 30000,
        vals.len() == 30000,
        s1.len() == 30000,
        s2.len() == 30000,
        s3.len() == 30000,
        knowledge_kept(s1, s2, body),
        forall|c: int| 0 <= c < 30000 && !modified_seq(body).contains(c as u16) ==> #[trigger] s2[c] == s1[c],
        forall|c: int|
            0 <= c < 30000 ==> #[trigger] s1[c] == if modified_seq(body).contains(c as u16) && vals[c].used {
                ABFCell { value: ABFValue::Runtime, used: true }
            } else {
                vals[c]
            },
        forall|c: int|
            0 <= c < 30000 ==> #[trigger] s3[c] == if modified_seq(body).contains(c as u16) && s2[c].used {
                ABFCell { value: ABFValue::Runtime, used: true }
            } else {
                s2[c]
            },
    ensures
        step_kept(vals, s3.update(a as int, ABFCell { value: ABFValue::CompileTime(0), used: true }), SpecInstruction::While(a, body)),
{
    let w = SpecInstruction::While(a, body);
    assert forall|st: AbfState, fuel: nat| known_hold(s1, st.cells) && #[trigger] run_all(body, st, fuel) is Some implies known_hold(
        s1,
        run_all(body, st, fuel)->Some_0.cells,
    ) by {
        let after = run_all(body, st, fuel)->Some_0;
        assert(known_hold(s2, after.cells));
        assert forall|c: u16| #![trigger s1[c as int]] c < 30000 && s1[c as int].used implies match s1[c as int].value {
            ABFValue::CompileTime(x) => cell(after.cells, c) == x,
            ABFValue::Runtime => true,
        } by {
            if !modified_seq(body).contains(c) {
                assert(s2[c as int] == s1[c as int]);
            }
        }
    }
    let fv = s3.update(a as int, ABFCell { value: ABFValue::CompileTime(0), used: true });
    assert forall|st: AbfState, fuel: nat| known_hold(vals, st.cells) && #[trigger] run_one(w, st, fuel) is Some implies known_hold(
        fv,
        run_one(w, st, fuel)->Some_0.cells,
    ) by {
        assert forall|c: u16| #![trigger s1[c as int]] c < 30000 && s1[c as int].used implies match s1[c as int].value {
            ABFValue::CompileTime(x) => cell(st.cells, c) == x,
            ABFValue::Runtime => true,
        } by {
            assert(vals[c as int].used);
        }
        lemma_loop_keeps(s1, a, body, st, fuel);
        let fin = run_one(w, st, fuel)->Some_0;
        assert forall|c: u16| #![trigger fv[c as int]] c < 30000 && fv[c as int].used implies match fv[c as int].value {
            ABFValue::CompileTime(x) => cell(fin.cells, c) == x,
            ABFValue::Runtime => true,
        } by {
            if c != a {
                assert(fv[c as int] == s3[c as int]);
                if !modified_seq(body).contains(c) {
                    assert(s2[c as int] == s1[c as int]);
                    assert(s1[c as int].used);
                }
            }
        }
    }
}

/// Rewrites ABF programs over the cells of the tape.
pub struct ABFCompiler;

impl ABFCompiler {
    /// Moves every `Free` right after the last instruction that mentions its cell, in loop
    /// bodies too; a cell declared in a body is freed in that body. Where several cells are
    /// last mentioned by one instruction, their frees follow it by decreasing cell.
    #[verifier::rlimit(60)]
    #[verifier::spinoff_prover]
    pub fn optimize_frees(program: &mut ABFProgram)
        ensures
            deep_strip(final(program)@) == deep_strip(old(program)@),
            frees_follow_declarations(final(program)@),
            declarations_freed(final(program)@),
            no_use_after_free(final(program)@),
            frees_follow_use(final(program)@),
        decreases *old(program),
    {
        let mut instructions: Vec<ABFInstruction> = Vec::new();
        std::mem::swap(&mut instructions, &mut program.instructions);
        let ghost orig = instructions@;
        let ghost s = instructions_view(orig);
        let n = instructions.len();
        let mut src = reversed(instructions);
        let mut kept: Vec<ABFInstruction> = Vec::new();
        let mut last_address_usage: Vec<(u16, usize)> = Vec::new();
        let mut k: usize = 0;
        proof {
            assert(s.take(0) =~= Seq::<SpecInstruction>::empty());
            assert(instructions_view(kept@) =~= Seq::<SpecInstruction>::empty());
        }
        while src.len() > 0
            invariant
                src@.len() + k == n,
                n == orig.len(),
                s == instructions_view(orig),
                orig == old(program).instructions@,
                forall|j: int| 0 <= j < src@.len() ==> #[trigger] src@[j] == orig[n - 1 - j],
                deep_strip(instructions_view(kept@)) == deep_strip(s.take(k as int)),
                forall|j: int| 0 <= j < kept@.len() ==> !(#[trigger] instructions_view(kept@)[j] is Free),
                usage_declared(last_address_usage@, instructions_view(kept@), kept@.len() - 1),
                usage_covers(last_address_usage@, instructions_view(kept@), kept@.len() as int),
                usage_distinct(last_address_usage@),
                usage_last(last_address_usage@, instructions_view(kept@), kept@.len() as int),
                usage_mentioned(last_address_usage@, instructions_view(kept@), Set::empty()),
            decreases src@.len(),
        {
            let x = src.pop().unwrap();
            let ghost u_before = last_address_usage@;
            assert(x == orig[k as int]);
            assert(s[k as int] == x@);
            proof {
                lemma_take_sets(s, k as int);
            }
            let ghost before = kept@;
            let index = kept.len();
            match x {
                ABFInstruction::Free(_) => {
                    proof {
                        assert(strip_one(x@) =~= Seq::<SpecInstruction>::empty());
                        assert(deep_strip(s.take(k + 1)) =~= deep_strip(s.take(k as int)));
                    }
                },
                ABFInstruction::While(address, body) => {
                    proof {
                        broadcast use vstd::std_specs::vec::axiom_vec_index_decreases;

                        assert(decreases_to!(old(program).instructions => old(program).instructions[k as int]));
                        assert(decreases_to!(orig[k as int] => orig[k as int]->While_1));
                    }
                    let mut body = body;
                    Self::optimize_frees(&mut body);
                    let ghost fv = instructions_view(before).push(SpecInstruction::While(address, instructions_view(body.instructions@)));
                    proof {
                        if index > 0 {
                            lemma_usage_extend(u_before, instructions_view(before), fv, index - 1, index as int);
                        }
                    }
                    note_usage(&mut last_address_usage, address, index, false);
                    proof {
                        lemma_note_keeps_last(u_before, last_address_usage@, address, index, false, instructions_view(before));
                        lemma_mentioned_widen(u_before, instructions_view(before), Set::empty(), set![address] + used_seq(body@));
                        lemma_note_mentioned(u_before, last_address_usage@, address, instructions_view(before), set![address] + used_seq(body@));
                        lemma_note_usage_declared(u_before, last_address_usage@, address, index, false, fv);
                        if index > 0 {
                            lemma_usage_extend(u_before, instructions_view(before), fv, index - 1, index as int);
                        }
                        lemma_note_usage_covers(u_before, last_address_usage@, address, index, false, instructions_view(before), index as int);
                    }
                    let used = body.used_addresses();
                    let mut a: u32 = 0;
                    while a < 65536
                        invariant
                            index < fv.len(),
                            index == before.len(),
                            usage_declared(last_address_usage@, fv, index as int),
                            usage_covers(last_address_usage@, instructions_view(before), index as int),
                            used@ == used_seq(body@),
                            a <= 65536,
                            usage_distinct(last_address_usage@),
                            usage_last(last_address_usage@, instructions_view(before), index as int),
                            usage_mentioned(last_address_usage@, instructions_view(before), set![address] + used_seq(body@)),
                            forall|k: int|
                                0 <= k < last_address_usage@.len() && ((#[trigger] last_address_usage@[k]).0 == address || (
                                (last_address_usage@[k].0 as u32) < a && used@.contains(last_address_usage@[k].0))) ==> last_address_usage@[k].1
                                    == index,
                        decreases 65536 - a,
                    {
                        if used.contains(&(a as u16)) {
                            let ghost u0 = last_address_usage@;
                            note_usage(&mut last_address_usage, a as u16, index, false);
                            proof {
                                lemma_note_keeps_last(u0, last_address_usage@, a as u16, index, false, instructions_view(before));
                                lemma_note_mentioned(u0, last_address_usage@, a as u16, instructions_view(before), set![address] + used_seq(body@));
                                assert forall|k: int|
                                    0 <= k < last_address_usage@.len() && ((#[trigger] last_address_usage@[k]).0 == address || (
                                    (last_address_usage@[k].0 as u32) < a + 1 && used@.contains(last_address_usage@[k].0))) implies last_address_usage@[k].1
                                        == index by {
                                    if last_address_usage@[k].0 != a as u16 {
                                        assert(last_address_usage@[k] == u0[k]);
                                    }
                                }
                                lemma_note_usage_declared(u0, last_address_usage@, a as u16, index, false, fv);
                                lemma_note_usage_covers(u0, last_address_usage@, a as u16, index, false, instructions_view(before), index as int);
                            }
                        }
                        a = a + 1;
                    }
                    let y = ABFInstruction::While(address, body);
                    proof {
                        assert(used_of(y@) == set![address] + used_seq(body@));
                        lemma_last_push(last_address_usage@, instructions_view(before), y@);
                        lemma_mentioned_push(last_address_usage@, instructions_view(before), y@);
                    }
                    kept.push(y);
                    proof {
                        lemma_covers_push(last_address_usage@, instructions_view(before), y@);
                        lemma_view_push(before, y);
                        lemma_push_sets(instructions_view(before), y@);
                        assert(strip_one(y@) =~= strip_one(x@));
                    }
                },
                other => {
                    let ghost fv = instructions_view(before).push(other@);
                    proof {
                        if index > 0 {
                            lemma_usage_extend(u_before, instructions_view(before), fv, index - 1, index as int);
                        }
                    }
                    match &other {
                        ABFInstruction::New(address, _) | ABFInstruction::Read(address) => {
                            note_usage(&mut last_address_usage, *address, index, true);
                            proof {
                                lemma_note_keeps_last(u_before, last_address_usage@, *address, index, true, instructions_view(before));
                                assert(used_of(other@) =~= set![*address]);
                                lemma_mentioned_widen(u_before, instructions_view(before), Set::empty(), used_of(other@));
                                lemma_note_mentioned(u_before, last_address_usage@, *address, instructions_view(before), used_of(other@));
                                lemma_note_usage_declared(u_before, last_address_usage@, *address, index, true, fv);
                                lemma_note_usage_covers(u_before, last_address_usage@, *address, index, true, instructions_view(before), index as int);
                            }
                        },
                        ABFInstruction::Write(address) | ABFInstruction::Add(address, _) => {
                            note_usage(&mut last_address_usage, *address, index, false);
                            proof {
                                lemma_note_keeps_last(u_before, last_address_usage@, *address, index, false, instructions_view(before));
                                assert(used_of(other@) =~= set![*address]);
                                lemma_mentioned_widen(u_before, instructions_view(before), Set::empty(), used_of(other@));
                                lemma_note_mentioned(u_before, last_address_usage@, *address, instructions_view(before), used_of(other@));
                                lemma_note_usage_declared(u_before, last_address_usage@, *address, index, false, fv);
                                lemma_note_usage_covers(u_before, last_address_usage@, *address, index, false, instructions_view(before), index as int);
                            }
                        },
                        _ => {
                            proof {
                                assert(used_of(other@) =~= Set::empty());
                                lemma_mentioned_widen(u_before, instructions_view(before), Set::empty(), used_of(other@));
                            }
                        },
                    }
                    proof {
                        lemma_last_push(last_address_usage@, instructions_view(before), other@);
                        lemma_mentioned_push(last_address_usage@, instructions_view(before), other@);
                    }
                    kept.push(other);
                    proof {
                        lemma_covers_push(last_address_usage@, instructions_view(before), other@);
                        lemma_view_push(before, other);
                        lemma_push_sets(instructions_view(before), other@);
                    }
                },
            }
            k = k + 1;
        }
        assert(s.take(n as int) =~= s);
        let m = kept.len();
        let ghost kept_view = instructions_view(kept@);
        let ghost kept_all = kept@;
        let mut ksrc = reversed(kept);
        let mut out: Vec<ABFInstruction> = Vec::new();
        let mut i: usize = 0;
        proof {
            assert(kept_view.take(0) =~= Seq::<SpecInstruction>::empty());
            assert(instructions_view(out@) =~= Seq::<SpecInstruction>::empty());
        }
        while ksrc.len() > 0
            invariant
                ksrc@.len() + i == m,
                m == kept_all.len(),
                kept_view == instructions_view(kept_all),
                forall|j: int| 0 <= j < ksrc@.len() ==> #[trigger] ksrc@[j] == kept_all[m - 1 - j],
                deep_strip(instructions_view(out@)) == deep_strip(kept_view.take(i as int)),
                forall|j: int| 0 <= j < m ==> !(#[trigger] kept_view[j] is Free),
                usage_declared(last_address_usage@, kept_view, m - 1),
                frees_follow_declarations(instructions_view(out@)),
                forall|j: int| 0 <= j < i ==> appears_in(instructions_view(out@), #[trigger] kept_view[j]),
                usage_covers(last_address_usage@, kept_view, m as int),
                forall|q: int, a: u16|
                    0 <= q < instructions_view(out@).len() && #[trigger] declares(instructions_view(out@)[q], a) ==> freed_after(
                        instructions_view(out@),
                        q,
                        a,
                    ) || covered(last_address_usage@, a, i as int),
                usage_distinct(last_address_usage@),
                usage_last(last_address_usage@, kept_view, m as int),
                no_use_after_free(instructions_view(out@)),
                forall|p: int|
                    0 <= p < instructions_view(out@).len() && (#[trigger] instructions_view(out@)[p]) is Free ==> free_settled(
                        last_address_usage@,
                        instructions_view(out@)[p]->Free_0,
                        i as int,
                        65536,
                    ),
                usage_mentioned(last_address_usage@, kept_view, Set::empty()),
                frees_follow_use(instructions_view(out@)),
            decreases ksrc@.len(),
        {
            let x = ksrc.pop().unwrap();
            assert(x == kept_all[i as int]);
            proof {
                lemma_take_sets(kept_view, i as int);
                lemma_view_push(out@, x);
                lemma_push_sets(instructions_view(out@), x@);
                assert(x@ == kept_view[i as int]);
                lemma_appears_push(instructions_view(out@), x@);
                lemma_frees_push(instructions_view(out@), x@);
                lemma_freed_push(instructions_view(out@), x@);
                let ob = instructions_view(out@);
                assert forall|p: int| 0 <= p < ob.len() && (#[trigger] ob[p]) is Free implies !used_of(x@).contains(ob[p]->Free_0) by {
                    let k = choose|k: int| 0 <= k < last_address_usage@.len() && #[trigger] last_address_usage@[k].0 == ob[p]->Free_0 && (
                    last_address_usage@[k].1 < i || (last_address_usage@[k].1 == i && ob[p]->Free_0 as u32 >= 65536));
                    assert(!used_of(kept_view[i as int]).contains(last_address_usage@[k].0));
                }
                lemma_no_use_push(ob, x@);
                assert(!(x@ is Free));
                lemma_follow_push_plain(ob, x@);
                let nb = ob.push(x@);
                assert forall|p: int| 0 <= p < nb.len() && (#[trigger] nb[p]) is Free implies free_settled(last_address_usage@, nb[p]->Free_0, i as int, 65536) by {
                    assert(nb[p] == ob[p]);
                }
            }
            let ghost q0 = out@.len() as int;
            let ghost ob = instructions_view(out@);
            out.push(x);
            proof {
                let ov = instructions_view(out@);
                assert(ov == ob.push(x@));
                assert forall|q: int, a: u16| 0 <= q < ov.len() && #[trigger] declares(ov[q], a) implies freed_after(ov, q, a)
                    || covered(last_address_usage@, a, i + 1) || (q <= q0 && pending_at(last_address_usage@, a, i, 65536)) by {
                    if q < q0 {
                        assert(ov[q] == ob[q]);
                        assert(declares(ob[q], a));
                    } else {
                        assert(declares(kept_view[i as int], a));
                    }
                    if covered(last_address_usage@, a, i as int) && !freed_after(ov, q, a) {
                        let k = choose|k: int| 0 <= k < last_address_usage@.len() && #[trigger] last_address_usage@[k].0 == a
                            && last_address_usage@[k].1 >= i;
                        if last_address_usage@[k].1 == i {
                            assert(pending_at(last_address_usage@, a, i, 65536));
                        } else {
                            assert(covered(last_address_usage@, a, i + 1));
                        }
                    }
                }
            }
            let mut upper: u32 = 65536;
            loop
                invariant
                    deep_strip(instructions_view(out@)) == deep_strip(kept_view.take(i + 1)),
                    i < m,
                    kept_view.len() == m,
                    usage_declared(last_address_usage@, kept_view, m - 1),
                    frees_follow_declarations(instructions_view(out@)),
                    forall|j: int| 0 <= j <= i ==> appears_in(instructions_view(out@), #[trigger] kept_view[j]),
                    q0 < out@.len(),
                    forall|q: int, a: u16|
                        0 <= q < instructions_view(out@).len() && #[trigger] declares(instructions_view(out@)[q], a) ==> freed_after(
                            instructions_view(out@),
                            q,
                            a,
                        ) || covered(last_address_usage@, a, i + 1) || (q <= q0 && pending_at(last_address_usage@, a, i, upper)),
                    usage_distinct(last_address_usage@),
                    no_use_after_free(instructions_view(out@)),
                    forall|p: int|
                        0 <= p < instructions_view(out@).len() && (#[trigger] instructions_view(out@)[p]) is Free ==> free_settled(
                            last_address_usage@,
                            instructions_view(out@)[p]->Free_0,
                            i as int,
                            upper,
                        ),
                    usage_mentioned(last_address_usage@, kept_view, Set::empty()),
                    forall|j: int| 0 <= j < m ==> !(#[trigger] kept_view[j] is Free),
                    frees_follow_use(instructions_view(out@)),
                    instructions_view(out@)[q0] == kept_view[i as int],
                    forall|q: int| q0 < q < instructions_view(out@).len() ==> (#[trigger] instructions_view(out@)[q]) is Free,
                ensures
                    forall|k: int| !#[trigger] freed_at(last_address_usage@, i, upper, k),
                decreases upper,
            {
                match largest_freed_below(&last_address_usage, i, upper) {
                    None => break,
                    Some(b) => {
                        let f = ABFInstruction::Free(b);
                        proof {
                            let k = choose|k: int| #[trigger] freed_at(last_address_usage@, i, upper, k) && last_address_usage@[k].0 == b;
                            assert(last_address_usage@[k].1 == i);
                            assert(declared_by(kept_view, b, i as int));
                            let j = choose|j: int| 0 <= j <= i && #[trigger] declares(kept_view[j], b);
                            assert(appears_in(instructions_view(out@), kept_view[j]));
                            let q = choose|q: int| 0 <= q < instructions_view(out@).len() && #[trigger] instructions_view(out@)[q] == kept_view[j];
                            assert(declares(instructions_view(out@)[q], b));
                            assert(f@ == SpecInstruction::Free(b));
                            assert(declared_before(instructions_view(out@), b, instructions_view(out@).len() as int));
                            lemma_frees_push(instructions_view(out@), f@);
                            lemma_appears_push(instructions_view(out@), f@);
                            lemma_freed_push(instructions_view(out@), f@);
                            lemma_view_push(out@, f);
                            let ov = instructions_view(out@);
                            let nv = ov.push(f@);
                            assert(nv[ov.len() as int] == SpecInstruction::Free(b));
                            assert forall|p: int| 0 <= p < ov.len() && (#[trigger] ov[p]) is Free implies !used_of(f@).contains(ov[p]->Free_0) by {
                                let a = ov[p]->Free_0;
                                let w = choose|w: int| 0 <= w < last_address_usage@.len() && #[trigger] last_address_usage@[w].0 == a && (
                                last_address_usage@[w].1 < i || (last_address_usage@[w].1 == i && a as u32 >= upper));
                                if a == b {
                                    if w != k {
                                        if w < k {
                                            assert(last_address_usage@[w].0 != last_address_usage@[k].0);
                                        } else {
                                            assert(last_address_usage@[k].0 != last_address_usage@[w].0);
                                        }
                                    }
                                }
                                assert(used_of(f@) =~= set![b]);
                            }
                            lemma_no_use_push(ov, f@);
                            assert(used_of(kept_view[i as int]).contains(b));
                            lemma_follow_push_free(ov, b, q0);
                            assert(nv[q0] == ov[q0]);
                            assert forall|q: int| q0 < q < nv.len() implies (#[trigger] nv[q]) is Free by {
                                if q < ov.len() {
                                    assert(nv[q] == ov[q]);
                                }
                            }
                            assert forall|p: int| 0 <= p < nv.len() && (#[trigger] nv[p]) is Free implies free_settled(last_address_usage@, nv[p]->Free_0, i as int, b as u32) by {
                                if p < ov.len() {
                                    assert(nv[p] == ov[p]);
                                    let a = ov[p]->Free_0;
                                    let w = choose|w: int| 0 <= w < last_address_usage@.len() && #[trigger] last_address_usage@[w].0 == a && (
                                    last_address_usage@[w].1 < i || (last_address_usage@[w].1 == i && a as u32 >= upper));
                                    assert(last_address_usage@[w].0 == a);
                                } else {
                                    assert(last_address_usage@[k].0 == b);
                                }
                            }
                            assert forall|q: int, a: u16| 0 <= q < nv.len() && #[trigger] declares(nv[q], a) implies freed_after(nv, q, a)
                                || covered(last_address_usage@, a, i + 1) || (q <= q0 && pending_at(last_address_usage@, a, i, b as u32)) by {
                                if q < ov.len() {
                                    assert(nv[q] == ov[q]);
                                    assert(declares(ov[q], a));
                                    if !freed_after(ov, q, a) && !covered(last_address_usage@, a, i + 1) {
                                        let w = choose|w: int| 0 <= w < last_address_usage@.len() && #[trigger] last_address_usage@[w].0 == a
                                            && last_address_usage@[w].1 == i && (a as u32) < upper;
                                        assert(freed_at(last_address_usage@, i, upper, w));
                                        if a == b {
                                            assert(freed_after(nv, q, a));
                                        } else {
                                            assert(pending_at(last_address_usage@, a, i, b as u32));
                                        }
                                    }
                                }
                            }
                            lemma_push_sets(instructions_view(out@), f@);
                            assert(strip_one(f@) =~= Seq::<SpecInstruction>::empty());
                            assert(deep_strip(instructions_view(out@)) + strip_one(f@) =~= deep_strip(instructions_view(out@)));
                        }
                        out.push(f);
                        upper = b as u32;
                    },
                }
            }
            proof {
                let ov = instructions_view(out@);
                assert forall|q: int, a: u16| 0 <= q < ov.len() && #[trigger] declares(ov[q], a) implies freed_after(ov, q, a)
                    || covered(last_address_usage@, a, i + 1) by {
                    if !freed_after(ov, q, a) && !covered(last_address_usage@, a, i + 1) {
                        let w = choose|w: int| 0 <= w < last_address_usage@.len() && #[trigger] last_address_usage@[w].0 == a
                            && last_address_usage@[w].1 == i && (a as u32) < upper;
                        assert(freed_at(last_address_usage@, i, upper, w));
                    }
                }
                assert forall|p: int| 0 <= p < ov.len() && (#[trigger] ov[p]) is Free implies free_settled(last_address_usage@, ov[p]->Free_0, i + 1, 65536) by {
                    let a = ov[p]->Free_0;
                    let w = choose|w: int| 0 <= w < last_address_usage@.len() && #[trigger] last_address_usage@[w].0 == a && (
                    last_address_usage@[w].1 < i || (last_address_usage@[w].1 == i && a as u32 >= upper));
                    assert(last_address_usage@[w].0 == a);
                }
            }
            i = i + 1;
        }
        assert(kept_view.take(m as int) =~= kept_view);
        program.instructions = out;
    }

    /// Folds what is known when compiling into `output`; `false` where the program mentions a
    /// cell beyond the tape or one that is not in use.
    #[verifier::spinoff_prover]
    #[verifier::rlimit(100)]
    fn optimize_impl(abf: &ABFProgram, state: &mut ABFState, output: &mut ABFProgram, Ghost(ctx): Ghost<Set<u16>>) -> (ok: bool)
        requires
            old(state).wf(),
            used_seq(abf@).subset_of(ctx),
            used_seq(old(output)@).subset_of(ctx),
        ensures
            final(state).wf(),
            used_seq(final(output)@).subset_of(ctx),
            abf@.len() == 0 ==> ok && *final(state) == *old(state) && *final(output) == *old(output),
            abf@.len() > 0 && refused_in(abf@[0], *old(state)) ==> !ok,
            straight(abf@) && old(state).all_known() && only_constant_writes(old(output)@) ==> final(state).all_known()
                && only_constant_writes(final(output)@),
            no_loops(abf@) && ok ==> final(output)@.len() >= old(output)@.len() && forall|fuel: nat|
                #[trigger] folded_prefix(old(state).values@, final(state).values@, abf@, final(output)@.skip(old(output)@.len() as int), fuel),
            simple_loops(abf@) && ok ==> knowledge_kept(old(state).values@, final(state).values@, abf@),
            simple_body(abf@) && ok ==> forall|c: int|
                0 <= c < 30000 && !modified_seq(abf@).contains(c as u16) ==> #[trigger] final(state).values@[c] == old(state).values@[c],
            simple_body(abf@) && ok ==> forall|c: int| 0 <= c < 30000 ==> #[trigger] final(state).values@[c].used == old(state).values@[c].used,
        decreases abf,
    {
        let ghost s = abf@;
        let ghost l0 = old(output)@.len() as int;
        proof {
            assert forall|fuel: nat| #[trigger] folded_prefix(old(state).values@, state.values@, s.take(0), output@.skip(l0), fuel) by {
                assert(s.take(0) =~= Seq::<SpecInstruction>::empty());
                assert(output@.skip(l0) =~= Seq::<SpecInstruction>::empty());
            }
        }
        proof {
            assert(s.take(0) =~= Seq::<SpecInstruction>::empty());
            assert forall|st: AbfState, fuel: nat| known_hold(old(state).values@, st.cells) && #[trigger] run_all(s.take(0), st, fuel) is Some
                implies known_hold(state.values@, run_all(s.take(0), st, fuel)->Some_0.cells) by {}
        }
        let mut i: usize = 0;
        while i < abf.instructions.len()
            invariant
                i <= abf.instructions@.len(),
                s == abf@,
                used_seq(s).subset_of(ctx),
                state.wf(),
                used_seq(output@).subset_of(ctx),
                i == 0 ==> *state == *old(state) && *output == *old(output),
                i > 0 ==> !refused_in(s[0], *old(state)),
                straight(s) && old(state).all_known() && only_constant_writes(old(output)@) ==> state.all_known()
                    && only_constant_writes(output@),
                l0 == old(output)@.len(),
                no_loops(s) ==> output@.len() >= l0 && forall|fuel: nat|
                    #[trigger] folded_prefix(old(state).values@, state.values@, s.take(i as int), output@.skip(l0), fuel),
                simple_loops(s) ==> knowledge_kept(old(state).values@, state.values@, s.take(i as int)),
                simple_body(s) ==> forall|c: int|
                    0 <= c < 30000 && !modified_seq(s.take(i as int)).contains(c as u16) ==> #[trigger] state.values@[c] == old(state).values@[c],
                simple_body(s) ==> forall|c: int| 0 <= c < 30000 ==> #[trigger] state.values@[c].used == old(state).values@[c].used,
            decreases abf.instructions@.len() - i,
        {
            proof {
                lemma_used_index(s, i as int);
                broadcast use vstd::std_specs::vec::axiom_vec_index_decreases;

                assert(decreases_to!(abf.instructions => abf.instructions[i as int]));
                assert(s[i as int] == abf.instructions@[i as int]@);
            }
            let ghost out_before = output@;
            let ghost vals_i = state.values@;
            let ghost mut e: Seq<SpecInstruction> = Seq::empty();
            match &abf.instructions[i] {
                ABFInstruction::New(address, value) => {
                    if *address >= 30000 {
                        return false;
                    }
                    state.set_value(*address, ABFValue::CompileTime(*value));
                },
                ABFInstruction::Read(address) => {
                    if *address >= 30000 {
                        return false;
                    }
                    output.add_instruction(ABFInstruction::Read(*address));
                    proof {
                        lemma_push_sets(out_before, SpecInstruction::Read(*address));
                        e = seq![SpecInstruction::Read(*address)];
                    }
                    state.set_value(*address, ABFValue::Runtime);
                },
                ABFInstruction::Free(address) => {
                    if *address >= 30000 || !state.get_cell(*address).used {
                        return false;
                    }
                    if state.get_cell(*address).value == ABFValue::Runtime {
                        output.add_instruction(ABFInstruction::Free(*address));
                        proof {
                            lemma_push_sets(out_before, SpecInstruction::Free(*address));
                            e = seq![SpecInstruction::Free(*address)];
                        }
                    }
                    state.free(*address);
                },
                ABFInstruction::Write(address) => {
                    if *address >= 30000 || !state.get_cell(*address).used {
                        return false;
                    }
                    match state.get_cell(*address).value {
                        ABFValue::CompileTime(value) => {
                            output.add_instruction(ABFInstruction::WriteConst(value));
                            proof {
                                e = seq![SpecInstruction::WriteConst(value)];
                                lemma_push_sets(out_before, SpecInstruction::WriteConst(value));
                                assert(used_of(SpecInstruction::WriteConst(value)) =~= Set::empty());
                                if only_constant_writes(out_before) {
                                    lemma_constant_write_push(out_before, SpecInstruction::WriteConst(value));
                                }
                            }
                        },
                        ABFValue::Runtime => {
                            output.add_instruction(ABFInstruction::Write(*address));
                            proof {
                                lemma_push_sets(out_before, SpecInstruction::Write(*address));
                                e = seq![SpecInstruction::Write(*address)];
                            }
                        },
                    }
                },
                ABFInstruction::WriteConst(value) => {
                    output.add_instruction(ABFInstruction::WriteConst(*value));
                    proof {
                        e = seq![SpecInstruction::WriteConst(*value)];
                        lemma_push_sets(out_before, SpecInstruction::WriteConst(*value));
                        assert(used_of(SpecInstruction::WriteConst(*value)) =~= Set::empty());
                        if only_constant_writes(out_before) {
                            lemma_constant_write_push(out_before, SpecInstruction::WriteConst(*value));
                        }
                    }
                },
                ABFInstruction::Add(address, amount) => {
                    if *address >= 30000 || !state.get_cell(*address).used {
                        return false;
                    }
                    match state.get_cell(*address).value {
                        ABFValue::CompileTime(value) => {
                            #[verifier::truncate]
                            let delta = *amount as u8;
                            let cell = state.get_cell_mut(*address);
                            cell.value = ABFValue::CompileTime(value.wrapping_add(delta));
                        },
                        ABFValue::Runtime => {
                            output.add_instruction(ABFInstruction::Add(*address, *amount));
                            proof {
                                lemma_push_sets(out_before, SpecInstruction::Add(*address, *amount));
                                e = seq![SpecInstruction::Add(*address, *amount)];
                            }
                        },
                    }
                },
                ABFInstruction::While(address, body) => {
                    proof {
                        assert(decreases_to!(abf.instructions[i as int] => abf.instructions[i as int]->While_1));
                        lemma_modified_used(body@);
                    }
                    if *address >= 30000 || !state.get_cell(*address).used {
                        return false;
                    }
                    assert(!straight(abf@));
                    let ghost sl = simple_loops(s);
                    let ghost w = SpecInstruction::While(*address, body@);
                    proof {
                        assert(s[i as int] == w);
                        if sl {
                            assert(s[i as int] is While);
                            assert(simple_body(body@));
                        }
                        assert forall|st: AbfState, fuel: nat| known_hold(vals_i, st.cells) && #[trigger] run_one(w, st, fuel) is Some
                            implies exists|st2: AbfState, f2: nat| known_hold(vals_i, st2.cells) && #[trigger] run_one(w, st2, f2) == run_one(w, st, fuel) by {
                            assert(run_one(w, st, fuel) == run_one(w, st, fuel));
                        }
                    }
                    let mut new_state = state.clone();
                    let mut new_output = output.clone();
                    let mut unrolled_successfully = false;
                    let mut round: u32 = 0;
                    while round < 10000
                        invariant
                            state.values@ == vals_i,
                            w == SpecInstruction::While(*address, body@),
                            sl ==> simple_body(body@),
                            sl ==> new_state.values@[*address as int].used,
                            unrolled_successfully ==> new_state.values@[*address as int].value == ABFValue::CompileTime(0),
                            sl ==> forall|st: AbfState, fuel: nat| known_hold(vals_i, st.cells) && #[trigger] run_one(w, st, fuel) is Some
                                ==> exists|st2: AbfState, f2: nat| known_hold(new_state.values@, st2.cells) && #[trigger] run_one(w, st2, f2) == run_one(w, st, fuel),
                            new_state.wf(),
                            state.wf(),
                            used_seq(new_output@).subset_of(ctx),
                            used_seq(output@).subset_of(ctx),
                            used_seq(body@).subset_of(ctx),
                            *address < 30000,
                            i < abf.instructions@.len(),
                            abf.instructions@[i as int] == ABFInstruction::While(*address, *body),
                            !straight(abf@),
                        decreases 10000 - round,
                    {
                        proof {
                            broadcast use vstd::std_specs::vec::axiom_vec_index_decreases;

                            assert(decreases_to!(abf.instructions => abf.instructions[i as int]));
                            assert(decreases_to!(abf.instructions[i as int] => abf.instructions[i as int]->While_1));
                        }
                        let cell = new_state.get_cell(*address);
                        if cell.value == ABFValue::CompileTime(0) {
                            unrolled_successfully = true;
                            break;
                        }
                        if cell.value == ABFValue::Runtime {
                            unrolled_successfully = false;
                            break;
                        }
                        let ghost nv0 = new_state.values@;
                        let ghost v = cell.value->CompileTime_0;
                        if !Self::optimize_impl(body, &mut new_state, &mut new_output, Ghost(ctx)) {
                            return false;
                        }
                        proof {
                            if sl {
                                assert forall|j: int| 0 <= j < body@.len() implies !(#[trigger] body@[j] is While) by {
                                    assert(body@[j] is Add || body@[j] is Write || body@[j] is WriteConst);
                                }
                                assert(simple_loops(body@));
                                assert(new_state.values@[*address as int].used);
                                assert forall|st: AbfState, fuel: nat| known_hold(vals_i, st.cells) && #[trigger] run_one(w, st, fuel) is Some
                                    implies exists|st2: AbfState, f2: nat| known_hold(new_state.values@, st2.cells) && #[trigger] run_one(w, st2, f2) == run_one(w, st, fuel) by {
                                    let (st2, f2) = choose|st2: AbfState, f2: nat| known_hold(nv0, st2.cells) && #[trigger] run_one(w, st2, f2) == run_one(w, st, fuel);
                                    assert(nv0[*address as int].used);
                                    assert(crate::abf::abf_semantics::cell(st2.cells, *address) == v);
                                    let f3 = (f2 - 1) as nat;
                                    let next = run_all(body@, st2, f3)->Some_0;
                                    assert(run_all(body@, st2, f3) is Some);
                                    assert(known_hold(new_state.values@, next.cells));
                                    assert(run_one(w, next, f3) == run_one(w, st, fuel));
                                }
                            }
                        }
                        round = round + 1;
                    }
                    if unrolled_successfully {
                        *state = new_state;
                        *output = new_output;
                    } else {
                        let mut new_body = ABFProgram::new(Vec::new());
                        let modified_addresses = body.modified_addresses();
                        let mut a: u32 = 0;
                        while a < 65536
                            invariant
                                state.wf(),
                                modified_addresses@ == modified_seq(body@),
                                sl ==> forall|c: int|
                                    0 <= c < 30000 ==> #[trigger] state.values@[c] == if c < a && modified_addresses@.contains(c as u16)
                                        && vals_i[c].used {
                                        ABFCell { value: ABFValue::Runtime, used: true }
                                    } else {
                                        vals_i[c]
                                    },
                                used_seq(output@).subset_of(ctx),
                                modified_addresses@.subset_of(ctx),
                                abf@.len() > 0,
                                !straight(abf@),
                            decreases 65536 - a,
                        {
                            if modified_addresses.contains(&(a as u16)) {
                                if a >= 30000 {
                                    return false;
                                }
                                let cell = state.get_cell(a as u16);
                                if cell.used {
                                    match cell.value {
                                        ABFValue::CompileTime(x) => {
                                            let ghost ob = output@;
                                            output.add_instruction(ABFInstruction::New(a as u16, x));
                                            proof { lemma_push_sets(ob, SpecInstruction::New(a as u16, x)); }
                                        },
                                        ABFValue::Runtime => {},
                                    }
                                    let cell = state.get_cell_mut(a as u16);
                                    cell.value = ABFValue::Runtime;
                                }
                            }
                            a = a + 1;
                        }
                        proof {
                            assert(new_body@ =~= Seq::<SpecInstruction>::empty());
                        }
                        let ghost s1 = state.values@;
                        if !Self::optimize_impl(body, state, &mut new_body, Ghost(ctx)) {
                            return false;
                        }
                        let ghost s2 = state.values@;
                        let mut a: u32 = 0;
                        while a < 30000
                            invariant
                                state.wf(),
                                modified_addresses@ == modified_seq(body@),
                                forall|c: int|
                                    0 <= c < 30000 ==> #[trigger] state.values@[c] == if c < a && modified_addresses@.contains(c as u16)
                                        && s2[c].used {
                                        ABFCell { value: ABFValue::Runtime, used: true }
                                    } else {
                                        s2[c]
                                    },
                            decreases 30000 - a,
                        {
                            if modified_addresses.contains(&(a as u16)) {
                                let cell = state.get_cell_mut(a as u16);
                                if cell.used {
                                    cell.value = ABFValue::Runtime;
                                }
                            }
                            a = a + 1;
                        }
                        let ghost s3 = state.values@;
                        proof {
                            if sl {
                                assert forall|j: int| 0 <= j < body@.len() implies !(#[trigger] body@[j] is While) by {
                                    assert(body@[j] is Add || body@[j] is Write || body@[j] is WriteConst);
                                }
                                assert(simple_loops(body@));
                                lemma_materialized_kept(vals_i, s1, s2, s3, *address, body@);
                            }
                        }
                        let ghost ob = output@;
                        let w = ABFInstruction::While(*address, new_body);
                        output.add_instruction(w);
                        proof { lemma_push_sets(ob, w@); }
                    }
                    proof {
                        if sl && unrolled_successfully {
                            lemma_unrolled_kept(vals_i, state.values@, *address, body@);
                        }
                    }
                    state.set_value(*address, ABFValue::CompileTime(0));
                    proof {
                        if sl {
                            assert(step_kept(vals_i, state.values@, w));
                        }
                    }
                },
            }
            proof {
                assert(s.take(i + 1) =~= s.take(i as int).push(s[i as int]));
                assert(s.take(i + 1).drop_last() =~= s.take(i as int));
                if !(s[i as int] is While) {
                    assert(folded_step(vals_i, state.values@, s[i as int], e));
                    lemma_known_step(vals_i, state.values@, s[i as int], e);
                }
                if simple_loops(s) {
                    assert(step_kept(vals_i, state.values@, s[i as int]));
                    lemma_knowledge_push(old(state).values@, vals_i, state.values@, s.take(i as int), s[i as int]);
                }
                if simple_body(s) {
                    assert(s[i as int] is Add || s[i as int] is Write || s[i as int] is WriteConst);
                    assert forall|c: int| 0 <= c < 30000 && !modified_seq(s.take(i + 1)).contains(c as u16) implies #[trigger] state.values@[c]
                        == old(state).values@[c] by {
                        assert(!modified_seq(s.take(i as int)).contains(c as u16));
                        assert(!modified_of(s[i as int]).contains(c as u16));
                        assert(state.values@[c] == vals_i[c]);
                    }
                    assert forall|c: int| 0 <= c < 30000 implies #[trigger] state.values@[c].used == old(state).values@[c].used by {
                        assert(state.values@[c].used == vals_i[c].used);
                    }
                }
                if no_loops(s) {
                    assert(folded_step(vals_i, state.values@, s[i as int], e));
                    assert(output@ =~= out_before + e);
                    assert(output@.skip(l0) =~= out_before.skip(l0) + e);
                    assert(s.take(i + 1) =~= s.take(i as int).push(s[i as int]));
                    assert forall|fuel: nat| #[trigger] folded_prefix(old(state).values@, state.values@, s.take(i + 1), output@.skip(l0), fuel) by {
                        assert(folded_prefix(old(state).values@, vals_i, s.take(i as int), out_before.skip(l0), fuel));
                        lemma_folded_compose(old(state).values@, vals_i, state.values@, s.take(i as int), out_before.skip(l0), s[i as int], e, fuel);
                    }
                }
            }
            i = i + 1;
        }
        assert(s.take(i as int) =~= s);
        true
    }

    /// Folds what is known when compiling: cells whose value is known are not emitted, writes of
    /// them become writes of constants, and loops whose condition is known are unrolled up to
    /// 10000 rounds. `None` where the program mentions a cell beyond the tape or one that is not
    /// in use. The result mentions no cell that the program does not.
    pub fn optimize(program: &ABFProgram) -> (r: Option<ABFProgram>)
        ensures
            r matches Some(out) ==> used_seq(out@).subset_of(used_seq(program@)),
            program@.len() == 0 ==> (r matches Some(out) && out@ == Seq::<SpecInstruction>::empty()),
            program@.len() > 0 && refused_at_start(program@[0]) ==> r is None,
            straight(program@) ==> (r matches Some(out) ==> only_constant_writes(out@)),
            no_loops(program@) ==> (r matches Some(out) ==> forall|input: Seq<u8>, fuel: nat|
                #[trigger] runs_agree(run_all(program@, start_state(input), fuel), run_all(out@, start_state(input), fuel))),
    {
        let mut state = ABFState::new();
        let mut output = ABFProgram::new(Vec::new());
        proof {
            assert(output@ =~= Seq::<SpecInstruction>::empty());
            if program@.len() > 0 && refused_at_start(program@[0]) {
                match program@[0] {
                    SpecInstruction::Free(a) => { if a < 30000 { assert(!state.values@[a as int].used); } },
                    SpecInstruction::Write(a) => { if a < 30000 { assert(!state.values@[a as int].used); } },
                    SpecInstruction::Add(a, _) => { if a < 30000 { assert(!state.values@[a as int].used); } },
                    SpecInstruction::While(a, _) => { if a < 30000 { assert(!state.values@[a as int].used); } },
                    _ => {},
                }
                assert(refused_in(program@[0], state));
            }
        }
        let ghost vals0 = state.values@;
        if Self::optimize_impl(program, &mut state, &mut output, Ghost(used_seq(program@))) {
            proof {
                if no_loops(program@) {
                    assert(output@.skip(0) =~= output@);
                    assert forall|input: Seq<u8>, fuel: nat|
                        #[trigger] runs_agree(run_all(program@, start_state(input), fuel), run_all(output@, start_state(input), fuel)) by {
                        let st = start_state(input);
                        assert forall|a: u16| #![trigger vals0[a as int]] a < 30000 && vals0[a as int].used implies match vals0[a as int].value {
                            ABFValue::CompileTime(v) => cell(st.cells, a) == v,
                            ABFValue::Runtime => cell(st.cells, a) == cell(st.cells, a),
                        } by {
                            assert(vals0[a as int] == (ABFCell { value: ABFValue::CompileTime(0), used: false }));
                        }
                        assert(folded_sim(vals0, st, st));
                        assert(folded_prefix(vals0, state.values@, program@, output@.skip(0), fuel));
                    }
                }
            }
            Some(output)
        } else {
            None
        }
    }
}

} // verus!

verus! {

/// How deeply loops nest in the instruction: a loop counts one more than its body.
pub open spec fn loop_depth(i: SpecInstruction) -> nat
    decreases i,
{
    match i {
        SpecInstruction::While(_, body) => 1 + seq_loop_depth(body),
        _ => 0,
    }
}

/// How deeply loops nest in the instructions.
pub open spec fn seq_loop_depth(s: Seq<SpecInstruction>) -> nat
    decreases s,
{
    if s.len() == 0 {
        0
    } else {
        let a = seq_loop_depth(s.drop_last());
        let b = loop_depth(s.last());
        if a >= b {
            a
        } else {
            b
        }
    }
}

proof fn lemma_loop_depth_index(s: Seq<SpecInstruction>, i: int)
    requires
        0 <= i < s.len(),
    ensures
        loop_depth(s[i]) <= seq_loop_depth(s),
    decreases s.len(),
{
    if i < s.len() - 1 {
        lemma_loop_depth_index(s.drop_last(), i);
    }
}

/// The text of the instruction, indented by four spaces per level, a line per instruction.
pub open spec fn instruction_text(i: SpecInstruction, indent: nat) -> Seq<char>
    decreases i,
{
    spaces(4 * indent) + match i {
        SpecInstruction::New(a, v) => "&"@ + decimal(a as nat) + " = "@ + decimal(v as nat) + ";\n"@,
        SpecInstruction::Read(a) => "&"@ + decimal(a as nat) + " = read();\n"@,
        SpecInstruction::Free(a) => "free(&"@ + decimal(a as nat) + ");\n"@,
        SpecInstruction::Write(a) => "write(&"@ + decimal(a as nat) + ");\n"@,
        SpecInstruction::WriteConst(v) => "write("@ + decimal(v as nat) + ");\n"@,
        SpecInstruction::Add(a, v) => "&"@ + decimal(a as nat) + " += "@ + signed_decimal(v as int) + ";\n"@,
        SpecInstruction::While(a, body) => "while &"@ + decimal(a as nat) + " {\n"@ + instructions_text(body, indent + 1)
            + spaces(4 * indent) + "}\n"@,
    }
}

/// The text of the instructions, one after another.
pub open spec fn instructions_text(s: Seq<SpecInstruction>, indent: nat) -> Seq<char>
    decreases s,
{
    if s.len() == 0 {
        Seq::empty()
    } else {
        instructions_text(s.drop_last(), indent) + instruction_text(s.last(), indent)
    }
}

impl ABFInstruction {
    fn write_text(&self, indent: u8, r: &mut String)
        requires
            indent + loop_depth(self@) <= 255,
        ensures
            final(r)@ == old(r)@ + instruction_text(self@, indent as nat),
        decreases self,
    {
        let ghost start = r@;
        push_spaces(r, 4 * indent as usize);
        match self {
            ABFInstruction::New(address, value) => {
                append_text(r, "&");
                let a = decimal_text(*address);
                append_text(r, a.as_str());
                append_text(r, " = ");
                let v = decimal_text(*value as u16);
                append_text(r, v.as_str());
                append_text(r, ";\n");
            },
            ABFInstruction::Read(address) => {
                append_text(r, "&");
                let a = decimal_text(*address);
                append_text(r, a.as_str());
                append_text(r, " = read();\n");
            },
            ABFInstruction::Free(address) => {
                append_text(r, "free(&");
                let a = decimal_text(*address);
                append_text(r, a.as_str());
                append_text(r, ");\n");
            },
            ABFInstruction::Write(address) => {
                append_text(r, "write(&");
                let a = decimal_text(*address);
                append_text(r, a.as_str());
                append_text(r, ");\n");
            },
            ABFInstruction::WriteConst(value) => {
                append_text(r, "write(");
                let v = decimal_text(*value as u16);
                append_text(r, v.as_str());
                append_text(r, ");\n");
            },
            ABFInstruction::Add(address, amount) => {
                append_text(r, "&");
                let a = decimal_text(*address);
                append_text(r, a.as_str());
                append_text(r, " += ");
                let v = signed_text(*amount);
                append_text(r, v.as_str());
                append_text(r, ";\n");
            },
            ABFInstruction::While(address, body) => {
                append_text(r, "while &");
                let a = decimal_text(*address);
                append_text(r, a.as_str());
                append_text(r, " {\n");
                let ghost s = instructions_view(body.instructions@);
                let ghost before = r@;
                let mut i: usize = 0;
                proof {
                    assert(s.take(0) =~= Seq::<SpecInstruction>::empty());
                    assert(before =~= before + instructions_text(s.take(0), indent as nat + 1));
                }
                while i < body.instructions.len()
                    invariant
                        i <= body.instructions@.len(),
                        s == instructions_view(body.instructions@),
                        *self == ABFInstruction::While(*address, *body),
                        indent + 1 + seq_loop_depth(s) <= 255,
                        r@ == before + instructions_text(s.take(i as int), indent as nat + 1),
                    decreases body.instructions@.len() - i,
                {
                    proof {
                        broadcast use vstd::std_specs::vec::axiom_vec_index_decreases;

                        assert(decreases_to!(*self => self->While_1));
                        assert(decreases_to!(*body => body.instructions));
                        assert(decreases_to!(body.instructions => body.instructions[i as int]));
                        lemma_loop_depth_index(s, i as int);
                        assert(s.take(i + 1).drop_last() =~= s.take(i as int));
                        assert(s[i as int] == body.instructions@[i as int]@);
                    }
                    body.instructions[i].write_text(indent + 1, r);
                    i = i + 1;
                    assert(r@ =~= before + instructions_text(s.take(i as int), indent as nat + 1));
                }
                assert(s.take(i as int) =~= s);
                push_spaces(r, 4 * indent as usize);
                append_text(r, "}\n");
            },
        }
        assert(r@ =~= start + instruction_text(self@, indent as nat));
    }

    /// The text of the instruction: a line per instruction, the body of a loop indented by four
    /// spaces.
    pub fn to_string(&self) -> (r: String)
        requires
            loop_depth(self@) <= 255,
        ensures
            r@ == instruction_text(self@, 0),
    {
        let mut r = String::new();
        self.write_text(0, &mut r);
        assert(r@ =~= Seq::<char>::empty() + instruction_text(self@, 0));
        r
    }
}

impl ABFProgram {
    /// The text of the program: a line per instruction, the body of a loop indented by four
    /// spaces.
    pub fn to_string(&self) -> (r: String)
        requires
            seq_loop_depth(self@) <= 255,
        ensures
            r@ == instructions_text(self@, 0),
    {
        let ghost s = self@;
        let mut r = String::new();
        let mut i: usize = 0;
        proof {
            assert(s.take(0) =~= Seq::<SpecInstruction>::empty());
        }
        while i < self.instructions.len()
            invariant
                i <= self.instructions@.len(),
                s == self@,
                seq_loop_depth(s) <= 255,
                r@ == instructions_text(s.take(i as int), 0),
            decreases self.instructions@.len() - i,
        {
            proof {
                lemma_loop_depth_index(s, i as int);
                assert(s.take(i + 1).drop_last() =~= s.take(i as int));
                assert(s[i as int] == self.instructions@[i as int]@);
            }
            self.instructions[i].write_text(0, &mut r);
            i = i + 1;
            assert(r@ =~= instructions_text(s.take(i as int), 0));
        }
        assert(s.take(i as int) =~= s);
        r
    }
}

} // verus!
