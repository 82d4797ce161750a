use vstd::prelude::*;

use super::abf_ast::{ABFInstruction, ABFProgram, SpecABF};

verus! {

/// The variables the instructions declare, in the order they come, loop bodies included.
pub open spec fn declared_in_order(s: Seq<SpecABF>) -> Seq<u16>
    decreases s,
{
    if s.len() == 0 {
        Seq::empty()
    } else {
        declared_in_order(s.drop_last()) + declared_by(s.last())
    }
}

/// The variables one instruction declares, in order.
pub open spec fn declared_by(x: SpecABF) -> Seq<u16>
    decreases x,
{
    match x {
        SpecABF::New(a, _) => seq![a],
        SpecABF::Read(a) => seq![a],
        SpecABF::While(_, b) => declared_in_order(b),
        _ => Seq::empty(),
    }
}

/// The numbers from `from` up to `to`, `to` left out, in order.
pub open spec fn numbers(from: int, to: int) -> Seq<u16> {
    Seq::new((to - from) as nat, |i: int| (from + i) as u16)
}

/// The declarations of `p + q` are those of `p`, then those of `q`.
proof fn lemma_declared_append(p: Seq<SpecABF>, q: Seq<SpecABF>)
    ensures
        declared_in_order(p + q) == declared_in_order(p) + declared_in_order(q),
    decreases q.len(),
{
    if q.len() == 0 {
        assert(p + q =~= p);
        assert(declared_in_order(p) + declared_in_order(q) =~= declared_in_order(p));
    } else {
        lemma_declared_append(p, q.drop_last());
        assert((p + q).drop_last() =~= p + q.drop_last());
        assert((p + q).last() == q.last());
        assert(declared_in_order(p + q) =~= declared_in_order(p) + declared_in_order(q));
    }
}

/// The numbers from `f` to `c`, then from `c` to `d`, are those from `f` to `d`.
proof fn lemma_numbers_append(f: int, c: int, d: int)
    requires
        f <= c <= d,
    ensures
        numbers(f, c) + numbers(c, d) == numbers(f, d),
{
    assert(numbers(f, c) + numbers(c, d) =~= numbers(f, d));
}

/// The declarations after pushing `x` are those before, then those of `x`.
proof fn lemma_declared_push(p: Seq<SpecABF>, x: SpecABF)
    ensures
        declared_in_order(p.push(x)) == declared_in_order(p) + declared_by(x),
{
    assert(p.push(x).drop_last() =~= p);
    assert(p.push(x).last() == x);
}

/// Builds an ABF program, numbering new variables in order.
#[derive(Debug)]
pub struct ABFProgramBuilder {
    pub program: ABFProgram,
    pub value_counter: u16,
}

impl ABFProgramBuilder {
    /// The program declares the numbers from `from` up to the counter, in order.
    pub open spec fn numbered(&self, from: int) -> bool {
        from <= self.value_counter && declared_in_order(self.program@) == numbers(from, self.value_counter as int)
    }

    pub fn new() -> (r: Self)
        ensures
            r.program@ == Seq::<SpecABF>::empty(),
            r.value_counter == 0,
            r.numbered(0),
    {
        let r = Self { program: ABFProgram::new(Vec::new()), value_counter: 0 };
        assert(numbers(0, 0) =~= Seq::<u16>::empty());
        r
    }

    /// The program built so far.
    pub fn build(self) -> (r: ABFProgram)
        ensures
            r@ == self.program@,
    {
        self.program
    }

    fn add_instruction(&mut self, instruction: ABFInstruction)
        ensures
            final(self).program@ == old(self).program@.push(instruction@),
            final(self).value_counter == old(self).value_counter,
    {
        self.program.add_instruction(instruction);
    }

    /// Declares the next variable with `value` and gives its number.
    pub fn new_address(&mut self, value: u8) -> (r: u16)
        requires
            old(self).value_counter < u16::MAX,
        ensures
            r == old(self).value_counter,
            final(self).value_counter == old(self).value_counter + 1,
            final(self).program@ == old(self).program@.push(SpecABF::New(r, value)),
            forall|f: int| #[trigger] old(self).numbered(f) ==> final(self).numbered(f),
    {
        let address = self.value_counter;
        self.value_counter = self.value_counter + 1;
        self.add_instruction(ABFInstruction::New(address, value));
        proof {
            lemma_declared_push(old(self).program@, SpecABF::New(address, value));
            assert forall|f: int| old(self).numbered(f) implies #[trigger] self.numbered(f) by {
                assert(declared_in_order(self.program@) == declared_in_order(old(self).program@) + seq![address]);
                assert(numbers(f, old(self).value_counter as int) + seq![address] =~= numbers(f, self.value_counter as int));
            }
        }
        address
    }

    /// Declares the next variable with a byte of input and gives its number.
    pub fn read(&mut self) -> (r: u16)
        requires
            old(self).value_counter < u16::MAX,
        ensures
            r == old(self).value_counter,
            final(self).value_counter == old(self).value_counter + 1,
            final(self).program@ == old(self).program@.push(SpecABF::Read(r)),
            forall|f: int| #[trigger] old(self).numbered(f) ==> final(self).numbered(f),
    {
        let address = self.value_counter;
        self.value_counter = self.value_counter + 1;
        self.add_instruction(ABFInstruction::Read(address));
        proof {
            lemma_declared_push(old(self).program@, SpecABF::Read(address));
            assert forall|f: int| old(self).numbered(f) implies #[trigger] self.numbered(f) by {
                assert(declared_in_order(self.program@) == declared_in_order(old(self).program@) + seq![address]);
                assert(numbers(f, old(self).value_counter as int) + seq![address] =~= numbers(f, self.value_counter as int));
            }
        }
        address
    }

    pub fn write(&mut self, address: u16)
        ensures
            final(self).value_counter == old(self).value_counter,
            final(self).program@ == old(self).program@.push(SpecABF::Write(address)),
            forall|f: int| #[trigger] old(self).numbered(f) ==> final(self).numbered(f),
    {
        self.add_instruction(ABFInstruction::Write(address));
        proof {
            lemma_declared_push(old(self).program@, SpecABF::Write(address));
        }
    }

    pub fn add(&mut self, address: u16, amount: i8)
        ensures
            final(self).value_counter == old(self).value_counter,
            final(self).program@ == old(self).program@.push(SpecABF::Add(address, amount)),
            forall|f: int| #[trigger] old(self).numbered(f) ==> final(self).numbered(f),
    {
        self.add_instruction(ABFInstruction::Add(address, amount));
        proof {
            lemma_declared_push(old(self).program@, SpecABF::Add(address, amount));
        }
    }

    /// An empty builder that goes on numbering where this one stands.
    pub fn create_child(&self) -> (r: Self)
        ensures
            r.program@ == Seq::<SpecABF>::empty(),
            r.value_counter == self.value_counter,
            r.numbered(self.value_counter as int),
    {
        let r = Self { program: ABFProgram::new(Vec::new()), value_counter: self.value_counter };
        assert(numbers(self.value_counter as int, self.value_counter as int) =~= Seq::<u16>::empty());
        r
    }

    /// Appends what a child built and goes on numbering where it stopped.
    pub fn merge_child(&mut self, rhs: Self)
        ensures
            final(self).value_counter == rhs.value_counter,
            final(self).program@ == old(self).program@ + rhs.program@,
            forall|f: int| #[trigger] old(self).numbered(f) && rhs.numbered(old(self).value_counter as int) ==> final(self).numbered(f),
    {
        let ghost c0 = self.value_counter as int;
        let ghost p0 = self.program@;
        let ghost q0 = rhs.program@;
        let ghost d0 = rhs.value_counter as int;
        self.value_counter = rhs.value_counter;
        let mut instructions = rhs.build().instructions;
        let ghost added = super::abf_ast::abf_view(instructions@);
        let ghost start = self.program@;
        let mut src = super::abf_ast::reversed(instructions);
        let n = src.len();
        let mut k: usize = 0;
        while src.len() > 0
            invariant
                src@.len() + k == n,
                n == added.len(),
                forall|j: int| 0 <= j < src@.len() ==> (#[trigger] src@[j])@ == added[n - 1 - j],
                self.program@ == start + added.take(k as int),
                self.value_counter == rhs.value_counter,
            decreases src@.len(),
        {
            let x = src.pop().unwrap();
            self.add_instruction(x);
            assert(added.take(k + 1) =~= added.take(k as int).push(added[k as int]));
            k = k + 1;
        }
        assert(added.take(n as int) =~= added);
        proof {
            lemma_declared_append(p0, q0);
            assert forall|f: int| old(self).numbered(f) && rhs.numbered(c0) implies #[trigger] self.numbered(f) by {
                lemma_numbers_append(f, c0, d0);
            }
        }
    }

    /// A builder for the body of a loop.
    pub fn start_loop(&mut self) -> (r: Self)
        ensures
            r.program@ == Seq::<SpecABF>::empty(),
            r.value_counter == old(self).value_counter,
            *final(self) == *old(self),
            r.numbered(old(self).value_counter as int),
    {
        self.create_child()
    }

    /// Appends a loop on `address` whose body `body_builder` built.
    pub fn end_loop(&mut self, address: u16, body_builder: ABFProgramBuilder)
        ensures
            final(self).value_counter == body_builder.value_counter,
            final(self).program@ == old(self).program@.push(SpecABF::While(address, body_builder.program@)),
            forall|f: int|
                #[trigger] old(self).numbered(f) && body_builder.numbered(old(self).value_counter as int) ==> final(self).numbered(f),
    {
        let ghost c0 = self.value_counter as int;
        let ghost body_view = body_builder.program@;
        let ghost d0 = body_builder.value_counter as int;
        self.value_counter = body_builder.value_counter;
        self.add_instruction(ABFInstruction::While(address, body_builder.program));
        proof {
            lemma_declared_push(old(self).program@, SpecABF::While(address, body_view));
            assert forall|f: int| old(self).numbered(f) && body_builder.numbered(c0) implies #[trigger] self.numbered(f) by {
                lemma_numbers_append(f, c0, d0);
            }
        }
    }

    /// Sets the variable to zero: a loop that subtracts one while it is not zero.
    pub fn zero(&mut self, address: u16)
        ensures
            final(self).value_counter == old(self).value_counter,
            final(self).program@ == old(self).program@.push(
                SpecABF::While(address, seq![SpecABF::Add(address, -1i8)]),
            ),
            forall|f: int| #[trigger] old(self).numbered(f) ==> final(self).numbered(f),
    {
        let mut body_builder = self.start_loop();
        body_builder.add(address, -1);
        proof {
            assert(body_builder.numbered(old(self).value_counter as int));
        }
        self.end_loop(address, body_builder);
    }
}

impl Default for ABFProgramBuilder {
    fn default() -> (r: Self)
        ensures
            r.program@ == Seq::<SpecABF>::empty(),
            r.value_counter == 0,
    {
        Self::new()
    }
}

} // verus!
