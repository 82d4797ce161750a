use vstd::prelude::*;

use super::abf_ast::{instruction_address, keep_seq, seq_used, used_set, SpecABF};

verus! {

/// What running ABF code acts on: the values of the variables, the bytes of input not read yet,
/// and the bytes printed so far.
pub struct AbfState {
    pub cells: Map<u16, u8>,
    pub input: Seq<u8>,
    pub output: Seq<u8>,
}

/// The value of a variable; zero for one that holds none.
pub open spec fn cell(cells: Map<u16, u8>, a: u16) -> u8 {
    if cells.contains_key(a) {
        cells[a]
    } else {
        0
    }
}

/// The byte `v + d`, wrapping around.
pub open spec fn wrap_add(v: u8, d: int) -> u8 {
    ((v + d) % 256) as u8
}

/// Adding twice, wrapping, is adding the sum once.
pub proof fn lemma_wrap_add_twice(x: u8, d1: int, d2: int)
    ensures
        wrap_add(wrap_add(x, d1), d2) == wrap_add(x, d1 + d2),
        wrap_add(x, 0) == x,
{
    let m = (x + d1) % 256;
    assert(0 <= m < 256);
    assert((m + d2) % 256 == (x + d1 + d2) % 256) by (nonlinear_arith)
        requires
            m == (x + d1) % 256,
    {
        vstd::arithmetic::div_mod::lemma_add_mod_noop(x + d1, d2, 256);
        vstd::arithmetic::div_mod::lemma_mod_twice(d2, 256);
    }
}

/// Adding amounts that differ by a multiple of 256 gives the same byte.
pub proof fn lemma_wrap_add_congruent(x: u8, d1: int, d2: int)
    requires
        d1 % 256 == d2 % 256,
    ensures
        wrap_add(x, d1) == wrap_add(x, d2),
{
    assert((x + d1) % 256 == (x + d2) % 256) by (nonlinear_arith)
        requires
            d1 % 256 == d2 % 256,
    {
        vstd::arithmetic::div_mod::lemma_add_mod_noop(x as int, d1, 256);
        vstd::arithmetic::div_mod::lemma_add_mod_noop(x as int, d2, 256);
    }
}

/// The state after one instruction, where it ends within `fuel` rounds of each loop it runs;
/// `None` where a loop needs more, or a byte is read from empty input. A loop runs its body
/// while its variable is not zero; `Free` forgets the variable.
pub open spec fn run_instr(i: SpecABF, st: AbfState, fuel: nat) -> Option<AbfState>
    decreases fuel, 0nat,
{
    match i {
        SpecABF::New(a, v) => Some(AbfState { cells: st.cells.insert(a, v), ..st }),
        SpecABF::Read(a) => if st.input.len() == 0 {
            None
        } else {
            Some(AbfState { cells: st.cells.insert(a, st.input[0]), input: st.input.drop_first(), output: st.output })
        },
        SpecABF::Free(a) => Some(AbfState { cells: st.cells.remove(a), ..st }),
        SpecABF::Write(a) => Some(AbfState { output: st.output.push(cell(st.cells, a)), ..st }),
        SpecABF::Add(a, d) => Some(AbfState { cells: st.cells.insert(a, wrap_add(cell(st.cells, a), d as int)), ..st }),
        SpecABF::While(a, body) => if cell(st.cells, a) == 0 {
            Some(st)
        } else if fuel == 0 {
            None
        } else {
            match run_seq(body, st, (fuel - 1) as nat) {
                Some(next) => run_instr(i, next, (fuel - 1) as nat),
                None => None,
            }
        },
    }
}

/// The state after the instructions, in order; `None` where one of them gives none.
pub open spec fn run_seq(s: Seq<SpecABF>, st: AbfState, fuel: nat) -> Option<AbfState>
    decreases fuel, s.len(),
{
    if s.len() == 0 {
        Some(st)
    } else {
        match run_seq(s.drop_last(), st, fuel) {
            Some(mid) => run_instr(s.last(), mid, fuel),
            None => None,
        }
    }
}

/// Running two pieces of code one after the other is running them joined.
pub proof fn lemma_run_append(a: Seq<SpecABF>, b: Seq<SpecABF>, st: AbfState, fuel: nat)
    ensures
        run_seq(a + b, st, fuel) == match run_seq(a, st, fuel) {
            Some(mid) => run_seq(b, mid, fuel),
            None => None,
        },
    decreases b.len(),
{
    if b.len() == 0 {
        assert(a + b =~= a);
    } else {
        lemma_run_append(a, b.drop_last(), st, fuel);
        assert((a + b).drop_last() =~= a + b.drop_last());
        assert((a + b).last() == b.last());
    }
}

/// Running one more instruction.
pub proof fn lemma_run_push(a: Seq<SpecABF>, x: SpecABF, st: AbfState, fuel: nat)
    ensures
        run_seq(a.push(x), st, fuel) == match run_seq(a, st, fuel) {
            Some(mid) => run_instr(x, mid, fuel),
            None => None,
        },
{
    assert(a.push(x).drop_last() =~= a);
}

/// Code that does not mention a variable leaves its value alone.
pub proof fn lemma_run_seq_frame(s: Seq<SpecABF>, st: AbfState, fuel: nat, a: u16)
    requires
        run_seq(s, st, fuel) is Some,
        !seq_used(s).contains(a),
    ensures
        cell(run_seq(s, st, fuel)->Some_0.cells, a) == cell(st.cells, a),
    decreases fuel, s.len(), 1nat,
{
    if s.len() > 0 {
        lemma_run_seq_frame(s.drop_last(), st, fuel, a);
        let mid = run_seq(s.drop_last(), st, fuel)->Some_0;
        lemma_run_instr_frame(s.last(), mid, fuel, a);
    }
}

/// An instruction that does not mention a variable leaves its value alone.
pub proof fn lemma_run_instr_frame(i: SpecABF, st: AbfState, fuel: nat, a: u16)
    requires
        run_instr(i, st, fuel) is Some,
        !used_set(i).contains(a),
    ensures
        cell(run_instr(i, st, fuel)->Some_0.cells, a) == cell(st.cells, a),
    decreases fuel, 0nat, 0nat,
{
    if let SpecABF::While(c, body) = i {
        if cell(st.cells, c) != 0 {
            let f = (fuel - 1) as nat;
            lemma_run_seq_frame(body, st, f, a);
            let next = run_seq(body, st, f)->Some_0;
            lemma_run_instr_frame(i, next, f, a);
        }
    }
}

/// The variables that an instruction reads into, prints or tests, its loop body included.
pub open spec fn observed_set(i: SpecABF) -> Set<u16>
    decreases i,
{
    match i {
        SpecABF::Read(a) => set![a],
        SpecABF::Write(a) => set![a],
        SpecABF::While(a, body) => set![a] + observed_seq(body),
        _ => Set::empty(),
    }
}

/// The variables that a sequence of instructions reads into, prints or tests.
pub open spec fn observed_seq(s: Seq<SpecABF>) -> Set<u16>
    decreases s,
{
    if s.len() == 0 {
        Set::empty()
    } else {
        observed_seq(s.drop_last()) + observed_set(s.last())
    }
}

/// Two runs agree on the variables of `keep`, and have the same input left and output printed.
pub open spec fn agree_on(st: AbfState, st2: AbfState, keep: Set<u16>) -> bool {
    &&& forall|a: u16| #[trigger] keep.contains(a) ==> cell(st.cells, a) == cell(st2.cells, a)
    &&& st.input == st2.input
    &&& st.output == st2.output
}

/// Keeping only the instructions about the variables of `keep`, which holds every variable the
/// code reads into, prints or tests, changes nothing in what running it reads and prints.
pub proof fn lemma_run_kept(s: Seq<SpecABF>, keep: Set<u16>, st: AbfState, st2: AbfState, fuel: nat)
    requires
        observed_seq(s).subset_of(keep),
        agree_on(st, st2, keep),
    ensures
        run_seq(s, st, fuel) is Some <==> run_seq(keep_seq(s, keep), st2, fuel) is Some,
        run_seq(s, st, fuel) is Some ==> agree_on(run_seq(s, st, fuel)->Some_0, run_seq(keep_seq(s, keep), st2, fuel)->Some_0, keep),
    decreases fuel, s.len(), 1nat,
{
    if s.len() > 0 {
        let prev = s.drop_last();
        let x = s.last();
        let kp = keep_seq(prev, keep);
        lemma_run_kept(prev, keep, st, st2, fuel);
        let y = match x {
            SpecABF::While(a, body) => SpecABF::While(a, keep_seq(body, keep)),
            _ => x,
        };
        if keep.contains(instruction_address(x)) {
            assert(keep_seq(s, keep) == kp.push(y));
            lemma_run_push(kp, y, st2, fuel);
        } else {
            assert(keep_seq(s, keep) == kp);
        }
        if let Some(mid) = run_seq(prev, st, fuel) {
            let mid2 = run_seq(kp, st2, fuel)->Some_0;
            lemma_run_kept_instr(x, keep, mid, mid2, fuel);
        }
    }
}

/// One instruction, kept or left out as [`keep_seq`] keeps it.
proof fn lemma_run_kept_instr(i: SpecABF, keep: Set<u16>, st: AbfState, st2: AbfState, fuel: nat)
    requires
        observed_set(i).subset_of(keep),
        agree_on(st, st2, keep),
    ensures
        keep.contains(instruction_address(i)) ==> {
            let j = match i {
                SpecABF::While(a, body) => SpecABF::While(a, keep_seq(body, keep)),
                _ => i,
            };
            &&& run_instr(i, st, fuel) is Some <==> run_instr(j, st2, fuel) is Some
            &&& run_instr(i, st, fuel) is Some ==> agree_on(run_instr(i, st, fuel)->Some_0, run_instr(j, st2, fuel)->Some_0, keep)
        },
        !keep.contains(instruction_address(i)) ==> run_instr(i, st, fuel) is Some && agree_on(run_instr(i, st, fuel)->Some_0, st2, keep),
    decreases fuel, 0nat, 0nat,
{
    let a = instruction_address(i);
    match i {
        SpecABF::While(c, body) => {
            assert(observed_set(i).contains(c));
            assert(cell(st.cells, c) == cell(st2.cells, c));
            let j = SpecABF::While(c, keep_seq(body, keep));
            if cell(st.cells, c) != 0 && fuel > 0 {
                let f = (fuel - 1) as nat;
                assert(observed_seq(body).subset_of(keep));
                lemma_run_kept(body, keep, st, st2, f);
                if let Some(next) = run_seq(body, st, f) {
                    let next2 = run_seq(keep_seq(body, keep), st2, f)->Some_0;
                    lemma_run_kept_instr(i, keep, next, next2, f);
                }
            }
        },
        SpecABF::Read(x) => {
            assert(observed_set(i).contains(x));
        },
        SpecABF::Write(x) => {
            assert(observed_set(i).contains(x));
            assert(cell(st.cells, x) == cell(st2.cells, x));
        },
        _ => {
            if let Some(after) = run_instr(i, st, fuel) {
                assert forall|b: u16| #[trigger] keep.contains(b) implies cell(after.cells, b) == cell(
                    if keep.contains(a) {
                        run_instr(i, st2, fuel)->Some_0.cells
                    } else {
                        st2.cells
                    },
                    b,
                ) by {
                    assert(cell(st.cells, b) == cell(st2.cells, b));
                }
            }
        },
    }
}

} // verus!
