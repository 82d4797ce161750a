use vstd::prelude::*;

use std::collections::BTreeMap;

use super::abf_ast::{abf_view, deep_strip, lemma_deep_strip_push, reversed, strip_one, ABFInstruction, ABFProgram, SpecABF};
use super::abf_program_builder::{declared_in_order, numbers, ABFProgramBuilder};
use super::abf_semantics::{cell, run_instr, run_seq, wrap_add, AbfState, lemma_run_push};

verus! {

broadcast use vstd::std_specs::btree::group_btree_axioms;

/// An ABF instruction of a program whose frees were dropped.
#[derive(Debug)]
pub enum AnalyzedABFInstruction {
    New(u16, u8),
    Read(u16),
    Write(u16),
    Add(u16, i8),
    While(u16, AnalyzedABFProgram),
}

/// An ABF program without frees, with the sorted list of the variables it declares or changes.
#[derive(Debug)]
pub struct AnalyzedABFProgram {
    pub instructions: Vec<AnalyzedABFInstruction>,
    pub modified_addresses: Vec<u16>,
}

impl View for AnalyzedABFInstruction {
    type V = SpecABF;

    open spec fn view(&self) -> SpecABF
        decreases self,
    {
        match self {
            AnalyzedABFInstruction::New(a, v) => SpecABF::New(*a, *v),
            AnalyzedABFInstruction::Read(a) => SpecABF::Read(*a),
            AnalyzedABFInstruction::Write(a) => SpecABF::Write(*a),
            AnalyzedABFInstruction::Add(a, v) => SpecABF::Add(*a, *v),
            AnalyzedABFInstruction::While(a, body) => SpecABF::While(*a, analyzed_view(body.instructions@)),
        }
    }
}

/// The models of a sequence of analyzed instructions.
pub open spec fn analyzed_view(s: Seq<AnalyzedABFInstruction>) -> Seq<SpecABF>
    decreases s,
{
    Seq::new(
        s.len(),
        |i: int|
            if 0 <= i < s.len() {
                s[i]@
            } else {
                SpecABF::Free(0)
            },
    )
}

impl View for AnalyzedABFProgram {
    type V = Seq<SpecABF>;

    open spec fn view(&self) -> Seq<SpecABF> {
        analyzed_view(self.instructions@)
    }
}

/// The variables an instruction declares or changes, in loop bodies too.
pub open spec fn analysis_set(i: SpecABF) -> Set<u16>
    decreases i,
{
    match i {
        SpecABF::New(a, _) => set![a],
        SpecABF::Read(a) => set![a],
        SpecABF::Add(a, _) => set![a],
        SpecABF::While(a, body) => set![a] + analysis_seq(body),
        _ => Set::empty(),
    }
}

/// The variables a sequence declares or changes.
pub open spec fn analysis_seq(s: Seq<SpecABF>) -> Set<u16>
    decreases s,
{
    if s.len() == 0 {
        Set::empty()
    } else {
        analysis_seq(s.drop_last()) + analysis_set(s.last())
    }
}

/// The list is sorted, without repetition.
pub open spec fn strictly_increasing(v: Seq<u16>) -> bool {
    forall|i: int, j: int| 0 <= i < j < v.len() ==> v[i] < v[j]
}

/// The sorted list of the program holds exactly what it declares or changes, in every loop body too.
pub open spec fn analyzed_wf(p: AnalyzedABFProgram) -> bool
    decreases p,
{
    &&& strictly_increasing(p.modified_addresses@)
    &&& forall|x: u16| p.modified_addresses@.contains(x) <==> analysis_seq(p@).contains(x)
    &&& forall|k: int|
        #![trigger p.instructions@[k]]
        0 <= k < p.instructions@.len() ==> match p.instructions@[k] {
            AnalyzedABFInstruction::While(_, body) => analyzed_wf(body),
            _ => true,
        }
}

/// The elements of `v`, sorted, without repetition.
pub fn sort_dedup(v: &Vec<u16>) -> (r: Vec<u16>)
    ensures
        strictly_increasing(r@),
        forall|x: u16| r@.contains(x) <==> v@.contains(x),
{
    let mut r: Vec<u16> = Vec::new();
    let mut i: usize = 0;
    while i < v.len()
        invariant
            i <= v@.len(),
            strictly_increasing(r@),
            forall|x: u16| r@.contains(x) <==> v@.take(i as int).contains(x),
        decreases v@.len() - i,
    {
        let x = v[i];
        let mut pos: usize = 0;
        while pos < r.len() && r[pos] < x
            invariant
                pos <= r@.len(),
                forall|q: int| 0 <= q < pos ==> r@[q] < x,
            decreases r@.len() - pos,
        {
            pos = pos + 1;
        }
        let ghost before = r@;
        if pos == r.len() || r[pos] != x {
            r.insert(pos, x);
            assert forall|a: int, b: int| 0 <= a < b < r@.len() implies r@[a] < r@[b] by {
                if b < pos as int {
                } else if a < pos as int && b == pos as int {
                } else if a < pos as int {
                    assert(r@[b] == before[b - 1]);
                } else if a == pos as int {
                    assert(r@[b] == before[b - 1]);
                    assert(before[pos as int] > x);
                } else {
                    assert(r@[a] == before[a - 1]);
                    assert(r@[b] == before[b - 1]);
                }
            }
            assert forall|y: u16| r@.contains(y) <==> before.contains(y) || y == x by {
                if r@.contains(y) {
                    let q = choose|q: int| 0 <= q < r@.len() && #[trigger] r@[q] == y;
                    if q < pos {
                        assert(before[q] == y);
                    } else if q > pos {
                        assert(before[q - 1] == y);
                    }
                }
                if before.contains(y) {
                    let q = choose|q: int| 0 <= q < before.len() && #[trigger] before[q] == y;
                    if q < pos {
                        assert(r@[q] == y);
                    } else {
                        assert(r@[q + 1] == y);
                    }
                }
                if y == x {
                    assert(r@[pos as int] == x);
                }
            }
        } else {
            assert(before[pos as int] == x);
            assert(r@.contains(x));
        }
        assert(forall|y: u16| r@.contains(y) <==> before.contains(y) || y == x);
        let ghost t1 = v@.take(i + 1);
        let ghost t0 = v@.take(i as int);
        assert forall|y: u16| t1.contains(y) <==> t0.contains(y) || y == x by {
            assert(t1 =~= t0.push(x));
            if t1.contains(y) {
                let q = choose|q: int| 0 <= q < t1.len() && #[trigger] t1[q] == y;
                if q < i {
                    assert(t0[q] == y);
                }
            }
            if t0.contains(y) {
                let q = choose|q: int| 0 <= q < t0.len() && #[trigger] t0[q] == y;
                assert(t1[q] == y);
            }
            if y == x {
                assert(t1[i as int] == y);
            }
        }
        assert forall|y: u16| r@.contains(y) <==> t1.contains(y) by {
            assert(r@.contains(y) <==> before.contains(y) || y == x);
            assert(before.contains(y) <==> t0.contains(y));
        }
        i = i + 1;
    }
    assert(v@.take(i as int) =~= v@);
    r
}

/// `x` is in `v`.
pub fn vec_contains(v: &Vec<u16>, x: u16) -> (r: bool)
    ensures
        r == v@.contains(x),
{
    let mut i: usize = 0;
    while i < v.len()
        invariant
            i <= v@.len(),
            forall|q: int| 0 <= q < i ==> v@[q] != x,
        decreases v@.len() - i,
    {
        if v[i] == x {
            assert(v@[i as int] == x);
            return true;
        }
        i = i + 1;
    }
    false
}

/// What the optimizer knows of a variable: its value, or only that it is known when running.
#[derive(Debug, Clone, Copy, PartialEq, Eq, Structural)]
pub enum ABFValue {
    Runtime,
    CompileTime(u8),
}

impl From<u8> for ABFValue {
    fn from(value: u8) -> (r: Self) {
        ABFValue::CompileTime(value)
    }
}

impl vstd::std_specs::convert::FromSpecImpl<u8> for ABFValue {
    open spec fn obeys_from_spec() -> bool {
        true
    }

    open spec fn from_spec(value: u8) -> Self {
        ABFValue::CompileTime(value)
    }
}

/// The program neither reads nor loops: it only declares, adds to, prints and frees variables.
pub open spec fn straight_line(s: Seq<SpecABF>) -> bool {
    forall|i: int| #![trigger s[i]] 0 <= i < s.len() ==> (s[i] is New || s[i] is Add || s[i] is Write || s[i] is Free)
}

/// The program only declares variables with constants and prints them.
pub open spec fn only_constants_printed(s: Seq<SpecABF>) -> bool {
    forall|i: int| #![trigger s[i]] 0 <= i < s.len() ==> (s[i] is New || s[i] is Write)
}

/// The program has no loop.
pub open spec fn loop_free(s: Seq<SpecABF>) -> bool {
    forall|i: int| #![trigger s[i]] 0 <= i < s.len() ==> !(s[i] is While)
}

/// The program only declares, reads, prints and adds: no loop and no `Free`.
pub open spec fn plain(s: Seq<SpecABF>) -> bool {
    forall|i: int| #![trigger s[i]] 0 <= i < s.len() ==> (s[i] is New || s[i] is Read || s[i] is Write || s[i] is Add)
}

/// How many reads and prints the program has: each needs a variable of its own once folded.
pub open spec fn reads_and_writes(s: Seq<SpecABF>) -> nat
    decreases s.len(),
{
    if s.len() == 0 {
        0
    } else {
        reads_and_writes(s.drop_last()) + if s.last() is Read || s.last() is Write {
            1nat
        } else {
            0nat
        }
    }
}

/// A prefix has no more reads and prints than the whole.
proof fn lemma_reads_and_writes_take(s: Seq<SpecABF>, i: int)
    requires
        0 <= i <= s.len(),
    ensures
        reads_and_writes(s.take(i)) <= reads_and_writes(s),
    decreases s.len() - i,
{
    if i < s.len() {
        lemma_reads_and_writes_take(s, i + 1);
        assert(s.take(i + 1).drop_last() =~= s.take(i));
    } else {
        assert(s.take(i) =~= s);
    }
}

/// Every variable whose value is known only when running is mapped to one.
pub open spec fn runtime_mapped(state: ABFState, map: Map<u16, u16>) -> bool {
    forall|a: u16| #[trigger] state.value_of(a) is Runtime ==> map.contains_key(a)
}

/// The state a program starts from: no variable set, `input` to read, nothing printed.
pub open spec fn start_state(input: Seq<u8>) -> AbfState {
    AbfState { cells: Map::empty(), input, output: Seq::empty() }
}

/// Two runs agree: both end or neither does, and where they end they printed the same.
pub open spec fn runs_agree(a: Option<AbfState>, b: Option<AbfState>) -> bool {
    &&& (a is Some <==> b is Some)
    &&& a is Some ==> a->Some_0.output == b->Some_0.output
}

/// The optimized code, run to `so`, stands for the input code run to `si`: both have the
/// same input left and printed the same; a variable whose value is known holds that value in
/// `si`; one known only when running is mapped, below `counter`, to a variable of `so` that
/// holds its value; and no two of those share a variable.
pub open spec fn simulates(state: ABFState, map: Map<u16, u16>, counter: u16, si: AbfState, so: AbfState) -> bool {
    &&& si.input == so.input
    &&& si.output == so.output
    &&& forall|a: u16| #[trigger] state.value_of(a) is CompileTime ==> cell(si.cells, a) == state.value_of(a)->CompileTime_0
    &&& forall|a: u16|
        #[trigger] state.value_of(a) is Runtime ==> map.contains_key(a) && map[a] < counter && cell(so.cells, map[a]) == cell(
            si.cells,
            a,
        )
    &&& forall|a: u16, b: u16|
        #![trigger state.value_of(a), state.value_of(b)]
        a != b && state.value_of(a) is Runtime && state.value_of(b) is Runtime ==> map[a] != map[b]
}

/// The runs are related: both end or neither does, and where they end the second stands for
/// the first.
pub open spec fn runs_related(state: ABFState, map: Map<u16, u16>, counter: u16, a: Option<AbfState>, b: Option<AbfState>) -> bool {
    &&& (a is Some <==> b is Some)
    &&& a is Some ==> simulates(state, map, counter, a->Some_0, b->Some_0)
}

/// Adding to a byte, wrapping, is adding its truncation.
pub proof fn lemma_wrap_add_i8(v: u8, k: i8)
    ensures
        wrap_add(v, k as int) == v.wrapping_add(k as u8),
{
    let t: u8 = k as u8;
    if k >= 0 {
        assert(t == k as u8 && (k as u8) as i16 == k as i16) by (bit_vector)
            requires
                t == k as u8,
                k >= 0i8,
        ;
        assert(t as int == k as int);
    } else {
        assert((k as u8) as i16 == (k as i16) + 256i16) by (bit_vector)
            requires
                k < 0i8,
        ;
        assert(t as int == k as int + 256);
        assert((v + k) % 256 == (v + k + 256) % 256) by {
            vstd::arithmetic::div_mod::lemma_mod_add_multiples_vanish(v + k, 256);
        }
    }
    assert(0 <= v + t < 512);
    if v + t >= 256 {
        vstd::arithmetic::div_mod::lemma_mod_self_0(256);
        assert((v + t) % 256 == v + t - 256) by {
            vstd::arithmetic::div_mod::lemma_mod_sub_multiples_vanish(v + t, 256);
            vstd::arithmetic::div_mod::lemma_small_mod((v + t - 256) as nat, 256);
        }
    } else {
        vstd::arithmetic::div_mod::lemma_small_mod((v + t) as nat, 256);
    }
}

/// Setting a known value keeps the runs related.
proof fn lemma_sim_set_known(st: ABFState, st2: ABFState, map: Map<u16, u16>, counter: u16, si: AbfState, so: AbfState, a: u16, v: u8)
    requires
        simulates(st, map, counter, si, so),
        st2.value_of(a) == ABFValue::CompileTime(v),
        forall|b: u16| b != a ==> #[trigger] st2.value_of(b) == st.value_of(b),
    ensures
        simulates(st2, map, counter, AbfState { cells: si.cells.insert(a, v), ..si }, so),
{
    let si2 = AbfState { cells: si.cells.insert(a, v), ..si };
    assert forall|b: u16| #[trigger] st2.value_of(b) is CompileTime implies cell(si2.cells, b) == st2.value_of(b)->CompileTime_0 by {
        if b != a {
            assert(st2.value_of(b) == st.value_of(b));
        }
    }
    assert forall|b: u16| #[trigger] st2.value_of(b) is Runtime implies map.contains_key(b) && map[b] < counter && cell(so.cells, map[b])
        == cell(si2.cells, b) by {
        assert(st2.value_of(b) == st.value_of(b));
    }
    assert forall|b: u16, c: u16|
        #![trigger st2.value_of(b), st2.value_of(c)]
        b != c && st2.value_of(b) is Runtime && st2.value_of(c) is Runtime implies map[b] != map[c] by {
        assert(st2.value_of(b) == st.value_of(b));
        assert(st2.value_of(c) == st.value_of(c));
    }
}

/// Reading into a new variable of the optimized code keeps the runs related.
proof fn lemma_sim_read(st: ABFState, st2: ABFState, map: Map<u16, u16>, counter: u16, si: AbfState, so: AbfState, a: u16, fuel: nat)
    requires
        simulates(st, map, counter, si, so),
        counter < u16::MAX,
        st2.value_of(a) is Runtime,
        forall|b: u16| b != a ==> #[trigger] st2.value_of(b) == st.value_of(b),
    ensures
        runs_related(
            st2,
            map.insert(a, counter),
            (counter + 1) as u16,
            run_instr(SpecABF::Read(a), si, fuel),
            run_instr(SpecABF::Read(counter), so, fuel),
        ),
{
    if si.input.len() > 0 {
        let si2 = run_instr(SpecABF::Read(a), si, fuel)->Some_0;
        let so2 = run_instr(SpecABF::Read(counter), so, fuel)->Some_0;
        let m2 = map.insert(a, counter);
        let c2 = (counter + 1) as u16;
        assert forall|b: u16| #[trigger] st2.value_of(b) is CompileTime implies cell(si2.cells, b) == st2.value_of(b)->CompileTime_0 by {
            assert(st2.value_of(b) == st.value_of(b));
        }
        assert forall|b: u16| #[trigger] st2.value_of(b) is Runtime implies m2.contains_key(b) && m2[b] < c2 && cell(so2.cells, m2[b])
            == cell(si2.cells, b) by {
            if b != a {
                assert(st2.value_of(b) == st.value_of(b));
                assert(map[b] < counter);
            }
        }
        assert forall|b: u16, c: u16|
            #![trigger st2.value_of(b), st2.value_of(c)]
            b != c && st2.value_of(b) is Runtime && st2.value_of(c) is Runtime implies m2[b] != m2[c] by {
            if b != a {
                assert(st2.value_of(b) == st.value_of(b));
                assert(map[b] < counter);
            }
            if c != a {
                assert(st2.value_of(c) == st.value_of(c));
                assert(map[c] < counter);
            }
        }
    }
}

/// Printing a known value through a new variable keeps the runs related.
proof fn lemma_sim_write_known(st: ABFState, map: Map<u16, u16>, counter: u16, si: AbfState, so: AbfState, a: u16, v: u8, fuel: nat)
    requires
        simulates(st, map, counter, si, so),
        counter < u16::MAX,
        st.value_of(a) == ABFValue::CompileTime(v),
    ensures
        runs_related(
            st,
            map.insert(a, counter),
            (counter + 1) as u16,
            run_instr(SpecABF::Write(a), si, fuel),
            run_seq(seq![SpecABF::New(counter, v), SpecABF::Write(counter)], so, fuel),
        ),
{
    let e = seq![SpecABF::New(counter, v), SpecABF::Write(counter)];
    assert(e.drop_last() =~= seq![SpecABF::New(counter, v)]);
    assert(e.drop_last().drop_last() =~= Seq::<SpecABF>::empty());
    reveal_with_fuel(run_seq, 3);
    let so1 = AbfState { cells: so.cells.insert(counter, v), ..so };
    assert(run_seq(e.drop_last(), so, fuel) == Some(so1));
    let so2 = run_seq(e, so, fuel)->Some_0;
    let si2 = run_instr(SpecABF::Write(a), si, fuel)->Some_0;
    let m2 = map.insert(a, counter);
    let c2 = (counter + 1) as u16;
    assert(so2.output == si2.output);
    assert forall|b: u16| #[trigger] st.value_of(b) is Runtime implies m2.contains_key(b) && m2[b] < c2 && cell(so2.cells, m2[b])
        == cell(si2.cells, b) by {
        assert(b != a);
        assert(map[b] < counter);
    }
    assert forall|b: u16, c: u16|
        #![trigger st.value_of(b), st.value_of(c)]
        b != c && st.value_of(b) is Runtime && st.value_of(c) is Runtime implies m2[b] != m2[c] by {
        assert(b != a && c != a);
    }
}

/// Printing a variable known only when running, through the variable it is mapped to, keeps
/// the runs related.
proof fn lemma_sim_write_runtime(st: ABFState, map: Map<u16, u16>, counter: u16, si: AbfState, so: AbfState, a: u16, fuel: nat)
    requires
        simulates(st, map, counter, si, so),
        st.value_of(a) is Runtime,
    ensures
        runs_related(st, map.insert(a, map[a]), counter, run_instr(SpecABF::Write(a), si, fuel), run_instr(SpecABF::Write(map[a]), so, fuel)),
{
    assert(map.insert(a, map[a]) =~= map);
}

/// Adding to a variable known only when running, through the variable it is mapped to, keeps
/// the runs related.
proof fn lemma_sim_add_runtime(st: ABFState, map: Map<u16, u16>, counter: u16, si: AbfState, so: AbfState, a: u16, k: i8, fuel: nat)
    requires
        simulates(st, map, counter, si, so),
        st.value_of(a) is Runtime,
    ensures
        runs_related(st, map, counter, run_instr(SpecABF::Add(a, k), si, fuel), run_instr(SpecABF::Add(map[a], k), so, fuel)),
{
    let si2 = run_instr(SpecABF::Add(a, k), si, fuel)->Some_0;
    let so2 = run_instr(SpecABF::Add(map[a], k), so, fuel)->Some_0;
    assert forall|b: u16| #[trigger] st.value_of(b) is Runtime implies map.contains_key(b) && map[b] < counter && cell(so2.cells, map[b])
        == cell(si2.cells, b) by {
        if b != a {
            assert(map[b] != map[a]);
        }
    }
}

/// From every pair of states the first optimizer state relates, running `x` and running `e`
/// end in states the second optimizer state relates.
pub open spec fn step_simulated(
    st: ABFState,
    map: Map<u16, u16>,
    c: u16,
    st2: ABFState,
    map2: Map<u16, u16>,
    c2: u16,
    x: SpecABF,
    e: Seq<SpecABF>,
    fuel: nat,
) -> bool {
    forall|si: AbfState, so: AbfState|
        #[trigger] simulates(st, map, c, si, so) ==> runs_related(st2, map2, c2, run_instr(x, si, fuel), run_seq(e, so, fuel))
}

/// From every pair of states the first optimizer state relates, running `a` and running `b`
/// end in states the second optimizer state relates.
pub open spec fn prefix_simulated(
    st: ABFState,
    map: Map<u16, u16>,
    c: u16,
    st2: ABFState,
    map2: Map<u16, u16>,
    c2: u16,
    a: Seq<SpecABF>,
    b: Seq<SpecABF>,
    fuel: nat,
) -> bool {
    forall|si: AbfState, so: AbfState|
        #[trigger] simulates(st, map, c, si, so) ==> runs_related(st2, map2, c2, run_seq(a, si, fuel), run_seq(b, so, fuel))
}

/// A simulated prefix followed by a simulated step is a simulated prefix.
proof fn lemma_compose(
    st0: ABFState,
    map0: Map<u16, u16>,
    c0: u16,
    st: ABFState,
    map: Map<u16, u16>,
    c: u16,
    st2: ABFState,
    map2: Map<u16, u16>,
    c2: u16,
    a: Seq<SpecABF>,
    b: Seq<SpecABF>,
    x: SpecABF,
    e: Seq<SpecABF>,
    fuel: nat,
)
    requires
        prefix_simulated(st0, map0, c0, st, map, c, a, b, fuel),
        step_simulated(st, map, c, st2, map2, c2, x, e, fuel),
    ensures
        prefix_simulated(st0, map0, c0, st2, map2, c2, a.push(x), b + e, fuel),
{
    assert forall|si: AbfState, so: AbfState| #[trigger] simulates(st0, map0, c0, si, so) implies runs_related(
        st2,
        map2,
        c2,
        run_seq(a.push(x), si, fuel),
        run_seq(b + e, so, fuel),
    ) by {
        lemma_run_push(a, x, si, fuel);
        crate::abf::abf_semantics::lemma_run_append(b, e, so, fuel);
        let ra = run_seq(a, si, fuel);
        let rb = run_seq(b, so, fuel);
        if ra is Some {
            assert(simulates(st, map, c, ra->Some_0, rb->Some_0));
        }
    }
}

/// Running a single instruction is running it as a sequence.
proof fn lemma_run_one(x: SpecABF, st: AbfState, fuel: nat)
    ensures
        run_seq(seq![x], st, fuel) == run_instr(x, st, fuel),
{
    assert(seq![x].drop_last() =~= Seq::<SpecABF>::empty());
    reveal_with_fuel(run_seq, 2);
}

/// Declaring a constant or printing keeps a program that only declares constants and prints.
proof fn lemma_constants_push(s: Seq<SpecABF>, x: SpecABF)
    requires
        only_constants_printed(s),
        x is New || x is Write,
    ensures
        only_constants_printed(s.push(x)),
{
    assert forall|i: int| #![trigger s.push(x)[i]] 0 <= i < s.len() + 1 implies (s.push(x)[i] is New || s.push(x)[i] is Write) by {
        if i < s.len() {
            assert(s.push(x)[i] == s[i]);
        }
    }
}

/// The value and the declaredness the optimizer knows of each variable.
#[derive(Debug)]
pub struct ABFState {
    pub values: Vec<ABFValue>,
    pub used: Vec<bool>,
}

impl ABFState {
    /// There is a value and a flag for the same variables.
    pub open spec fn wf(&self) -> bool {
        self.values@.len() == self.used@.len()
    }

    /// The known value of a variable: a variable never set is zero.
    pub open spec fn value_of(&self, address: u16) -> ABFValue {
        if address < self.values@.len() {
            self.values@[address as int]
        } else {
            ABFValue::CompileTime(0)
        }
    }

    /// The value of every variable is known when compiling.
    pub open spec fn all_known(&self) -> bool {
        forall|a: u16| #[trigger] self.value_of(a) is CompileTime
    }

    fn new() -> (r: Self)
        ensures
            r.wf(),
            r.values@.len() == 0,
            r.all_known(),
    {
        Self { values: Vec::new(), used: Vec::new() }
    }

    /// Whether the variable was ever set; `None` for a variable beyond all that were set.
    fn is_used(&self, address: u16) -> (r: Option<bool>)
        requires
            self.wf(),
        ensures
            address < self.used@.len() ==> r == Some(self.used@[address as int]),
            address >= self.used@.len() ==> r is None,
    {
        if (address as usize) < self.used.len() {
            Some(self.used[address as usize])
        } else {
            None
        }
    }

    fn get_value(&self, address: u16) -> (r: ABFValue)
        ensures
            r == self.value_of(address),
    {
        if (address as usize) < self.values.len() {
            self.values[address as usize]
        } else {
            ABFValue::CompileTime(0)
        }
    }

    fn set_value(&mut self, address: u16, value: ABFValue)
        requires
            old(self).wf(),
        ensures
            final(self).wf(),
            final(self).values@.len() >= old(self).values@.len(),
            final(self).value_of(address) == value,
            final(self).used@[address as int],
            forall|b: u16| b != address ==> #[trigger] final(self).value_of(b) == old(self).value_of(b),
    {
        if address as usize >= self.values.len() {
            self.values.resize(address as usize + 1, ABFValue::CompileTime(0));
            self.used.resize(address as usize + 1, false);
        }
        self.values.set(address as usize, value);
        self.used.set(address as usize, true);
    }
}

impl Clone for ABFState {
    fn clone(&self) -> (r: Self)
        ensures
            r.values@ == self.values@,
            r.used@ == self.used@,
    {
        ABFState { values: self.values.clone(), used: self.used.clone() }
    }
}

/// The variables an instruction declares, in loop bodies too.
pub open spec fn instr_declared(i: SpecABF) -> Set<u16>
    decreases i,
{
    match i {
        SpecABF::New(a, _) => set![a],
        SpecABF::Read(a) => set![a],
        SpecABF::While(_, body) => deep_declared(body),
        _ => Set::empty(),
    }
}

/// The variables a sequence declares, in loop bodies too.
pub open spec fn deep_declared(s: Seq<SpecABF>) -> Set<u16>
    decreases s,
{
    if s.len() == 0 {
        Set::empty()
    } else {
        deep_declared(s.drop_last()) + instr_declared(s.last())
    }
}

/// Every variable an instruction mentions without declaring it is in `ctx`; a loop body must
/// itself be well declared from `ctx`.
pub open spec fn instr_well_declared(i: SpecABF, ctx: Set<u16>) -> bool
    decreases i,
{
    match i {
        SpecABF::New(_, _) => true,
        SpecABF::Read(_) => true,
        SpecABF::Write(a) => ctx.contains(a),
        SpecABF::Add(a, _) => ctx.contains(a),
        SpecABF::Free(a) => ctx.contains(a),
        SpecABF::While(a, body) => ctx.contains(a) && well_declared(body, ctx),
    }
}

/// Every variable the sequence mentions is in `ctx` or declared before, in reading order.
pub open spec fn well_declared(s: Seq<SpecABF>, ctx: Set<u16>) -> bool
    decreases s,
{
    if s.len() == 0 {
        true
    } else {
        well_declared(s.drop_last(), ctx) && instr_well_declared(s.last(), ctx + deep_declared(s.drop_last()))
    }
}

pub proof fn lemma_declared_push(s: Seq<SpecABF>, x: SpecABF, ctx: Set<u16>)
    ensures
        deep_declared(s.push(x)) == deep_declared(s) + instr_declared(x),
        well_declared(s.push(x), ctx) == (well_declared(s, ctx) && instr_well_declared(x, ctx + deep_declared(s))),
{
    assert(s.push(x).drop_last() =~= s);
}

proof fn lemma_declared_concat(s: Seq<SpecABF>, t: Seq<SpecABF>, ctx: Set<u16>)
    requires
        well_declared(s, ctx),
        well_declared(t, ctx + deep_declared(s)),
    ensures
        well_declared(s + t, ctx),
        deep_declared(s + t) == deep_declared(s) + deep_declared(t),
    decreases t.len(),
{
    if t.len() == 0 {
        assert(s + t =~= s);
        assert(deep_declared(s) + deep_declared(t) =~= deep_declared(s));
    } else {
        let t0 = t.drop_last();
        lemma_declared_push(t0, t.last(), ctx + deep_declared(s));
        assert(t0.push(t.last()) =~= t);
        lemma_declared_concat(s, t0, ctx);
        assert((s + t0).push(t.last()) =~= s + t);
        lemma_declared_push(s + t0, t.last(), ctx);
        assert(ctx + deep_declared(s) + deep_declared(t0) =~= ctx + deep_declared(s + t0));
        assert(deep_declared(s) + deep_declared(t0) + instr_declared(t.last()) =~= deep_declared(s) + deep_declared(t));
    }
}

proof fn lemma_analysis_single(t: Seq<SpecABF>)
    requires
        t.len() == 1,
    ensures
        analysis_seq(t) == analysis_set(t[0]),
{
    assert(t.drop_last() =~= Seq::<SpecABF>::empty());
    assert(t.last() == t[0]);
    assert(analysis_seq(t.drop_last()) == Set::<u16>::empty());
    assert(analysis_seq(t) == analysis_seq(t.drop_last()) + analysis_set(t.last()));
    assert(Set::<u16>::empty() + analysis_set(t[0]) =~= analysis_set(t[0]));
}

proof fn lemma_analysis_concat(s: Seq<SpecABF>, t: Seq<SpecABF>)
    requires
        t.len() <= 1,
    ensures
        analysis_seq(s + t) == analysis_seq(s) + analysis_seq(t),
{
    if t.len() == 0 {
        assert(s + t =~= s);
        assert(analysis_seq(s) + analysis_seq(t) =~= analysis_seq(s));
    } else {
        assert((s + t).drop_last() =~= s);
        assert((s + t).last() == t[0]);
        lemma_analysis_single(t);
    }
}

/// Folds what is known when compiling into an ABF program: variables with known values are
/// not emitted, and loops whose condition is known are unrolled.
/// The builder `after` numbers its declarations in order from wherever `before` did.
pub open spec fn numbering_kept(before: ABFProgramBuilder, after: ABFProgramBuilder) -> bool {
    forall|f: int| #[trigger] before.numbered(f) ==> after.numbered(f)
}

pub struct ABFOptimizer {
    state: ABFState,
    address_map: BTreeMap<u16, u16>,
    builder: ABFProgramBuilder,
}

impl ABFOptimizer {
    /// The optimizer is consistent: what it emitted so far is well declared from `ctx`, and
    /// every variable it maps maps to a variable of `ctx` or one it declared.
    pub closed spec fn inv(&self, ctx: Set<u16>) -> bool {
        &&& self.state.wf()
        &&& well_declared(self.builder.program@, ctx)
        &&& forall|a: u16|
            #[trigger] self.address_map@.contains_key(a) ==> (ctx + deep_declared(
                self.builder.program@,
            )).contains(self.address_map@[a])
    }

    fn new() -> (r: Self)
        ensures
            r.builder.numbered(0),
            r.inv(Set::empty()),
            r.builder.program@ == Seq::<SpecABF>::empty(),
            r.state.all_known(),
            r.state.values@.len() == 0,
            r.address_map@ == Map::<u16, u16>::empty(),
            r.builder.value_counter == 0,
    {
        Self { state: ABFState::new(), address_map: BTreeMap::new(), builder: ABFProgramBuilder::new() }
    }

    fn analyze_abf_program(program: &ABFProgram) -> (r: AnalyzedABFProgram)
        ensures
            r@ == deep_strip(program@),
            analyzed_wf(r),
        decreases program,
    {
        let ghost s = program@;
        let mut modified_addresses: Vec<u16> = Vec::new();
        let mut analyzed_instructions: Vec<AnalyzedABFInstruction> = Vec::new();
        let mut i: usize = 0;
        assert(analyzed_view(analyzed_instructions@) =~= deep_strip(s.take(0)));
        while i < program.instructions.len()
            invariant
                i <= program.instructions@.len(),
                s == program@,
                analyzed_view(analyzed_instructions@) == deep_strip(s.take(i as int)),
                forall|x: u16| modified_addresses@.contains(x) <==> analysis_seq(deep_strip(s.take(i as int))).contains(x),
                forall|k: int|
                    #![trigger analyzed_instructions@[k]]
                    0 <= k < analyzed_instructions@.len() ==> match analyzed_instructions@[k] {
                        AnalyzedABFInstruction::While(_, body) => analyzed_wf(body),
                        _ => true,
                    },
            decreases program.instructions@.len() - i,
        {
            let ghost before_instrs = analyzed_instructions@;
            let ghost before_mod = modified_addresses@;
            let ghost prefix = deep_strip(s.take(i as int));
            let ghost added = analysis_seq(strip_one(s[i as int]));
            proof {
                assert(s.take(i + 1) =~= s.take(i as int).push(s[i as int]));
                lemma_deep_strip_push(s.take(i as int), s[i as int]);
                broadcast use vstd::std_specs::vec::axiom_vec_index_decreases;

                assert(decreases_to!(program.instructions => program.instructions[i as int]));
            }
            let pushed: Option<AnalyzedABFInstruction> = match &program.instructions[i] {
                ABFInstruction::New(address, value) => {
                    modified_addresses.push(*address);
                    proof { lemma_analysis_single(strip_one(s[i as int])); }
                    Some(AnalyzedABFInstruction::New(*address, *value))
                },
                ABFInstruction::Read(address) => {
                    modified_addresses.push(*address);
                    proof { lemma_analysis_single(strip_one(s[i as int])); }
                    Some(AnalyzedABFInstruction::Read(*address))
                },
                ABFInstruction::Free(_) => {
                    proof { assert(added =~= Set::empty()); }
                    None
                },
                ABFInstruction::Write(address) => {
                    proof {
                        lemma_analysis_single(strip_one(s[i as int]));
                        assert(added =~= Set::empty());
                    }
                    Some(AnalyzedABFInstruction::Write(*address))
                },
                ABFInstruction::Add(address, value) => {
                    modified_addresses.push(*address);
                    proof { lemma_analysis_single(strip_one(s[i as int])); }
                    Some(AnalyzedABFInstruction::Add(*address, *value))
                },
                ABFInstruction::While(predicate, body) => {
                    proof {
                        assert(decreases_to!(program.instructions[i as int] => program.instructions[i as int]->While_1));
                    }
                    let analyzed_body = Self::analyze_abf_program(body);
                    modified_addresses.push(*predicate);
                    let mut j: usize = 0;
                    let ghost mid = modified_addresses@;
                    while j < analyzed_body.modified_addresses.len()
                        invariant
                            j <= analyzed_body.modified_addresses@.len(),
                            modified_addresses@ == mid + analyzed_body.modified_addresses@.take(j as int),
                        decreases analyzed_body.modified_addresses@.len() - j,
                    {
                        modified_addresses.push(analyzed_body.modified_addresses[j]);
                        j = j + 1;
                        assert(modified_addresses@ =~= mid + analyzed_body.modified_addresses@.take(j as int));
                    }
                    proof {
                        assert(analyzed_body.modified_addresses@.take(j as int) =~= analyzed_body.modified_addresses@);
                        lemma_analysis_single(strip_one(s[i as int]));
                        broadcast use vstd::seq_lib::lemma_seq_concat_contains_all_elements;
                        broadcast use vstd::seq_lib::lemma_seq_contains_after_push;
                        assert forall|x: u16| modified_addresses@.contains(x) <==> before_mod.contains(x) || added.contains(x) by {
                            assert(mid.contains(x) <==> before_mod.contains(x) || x == *predicate);
                        }
                    }
                    Some(AnalyzedABFInstruction::While(*predicate, analyzed_body))
                },
            };
            proof {
                broadcast use vstd::seq_lib::lemma_seq_contains_after_push;
                assert(forall|x: u16| modified_addresses@.contains(x) <==> before_mod.contains(x) || added.contains(x));
                lemma_analysis_concat(prefix, strip_one(s[i as int]));
            }
            match pushed {
                Some(x) => {
                    analyzed_instructions.push(x);
                    assert(analyzed_view(analyzed_instructions@) =~= analyzed_view(before_instrs).push(x@));
                },
                None => {},
            }
            i = i + 1;
        }
        assert(s.take(i as int) =~= s);
        let sorted = sort_dedup(&modified_addresses);
        AnalyzedABFProgram { instructions: analyzed_instructions, modified_addresses: sorted }
    }

    fn create_child(&self) -> (r: Self)
        ensures
            r.state.values@ == self.state.values@,
            r.state.used@ == self.state.used@,
            r.address_map@ == self.address_map@,
            r.builder.program@ == Seq::<SpecABF>::empty(),
            r.builder.value_counter == self.builder.value_counter,
            r.builder.numbered(self.builder.value_counter as int),
    {
        Self { state: self.state.clone(), address_map: self.address_map.clone(), builder: self.builder.create_child() }
    }

    fn merge_child(&mut self, rhs: Self)
        ensures
            final(self).state == rhs.state,
            final(self).address_map == rhs.address_map,
            final(self).builder.program@ == old(self).builder.program@ + rhs.builder.program@,
            final(self).builder.value_counter == rhs.builder.value_counter,
            forall|f: int|
                #[trigger] old(self).builder.numbered(f) && rhs.builder.numbered(old(self).builder.value_counter as int)
                    ==> final(self).builder.numbered(f),
    {
        self.state = rhs.state;
        self.address_map = rhs.address_map;
        self.builder.merge_child(rhs.builder);
    }

    fn set_value(&mut self, address: u16, value: ABFValue)
        requires
            old(self).state.wf(),
        ensures
            final(self).state.wf(),
            final(self).state.value_of(address) == value,
            forall|b: u16| b != address ==> #[trigger] final(self).state.value_of(b) == old(self).state.value_of(b),
            final(self).builder == old(self).builder,
            final(self).address_map == old(self).address_map,
    {
        self.state.set_value(address, value);
    }

    fn get_value(&self, address: u16) -> (r: ABFValue)
        ensures
            r == self.state.value_of(address),
    {
        self.state.get_value(address)
    }

    fn address_is_used(&self, address: u16) -> (r: Option<bool>)
        requires
            self.state.wf(),
        ensures
            address < self.state.used@.len() ==> r == Some(self.state.used@[address as int]),
            address >= self.state.used@.len() ==> r is None,
    {
        self.state.is_used(address)
    }

    fn set_mapped_address(&mut self, source: u16, destination: u16)
        ensures
            final(self).address_map@ == old(self).address_map@.insert(source, destination),
            final(self).state == old(self).state,
            final(self).builder == old(self).builder,
    {
        self.address_map.insert(source, destination);
    }

    fn get_mapped_address(&self, source: u16) -> (r: Option<u16>)
        ensures
            self.address_map@.contains_key(source) ==> r == Some(self.address_map@[source]),
            !self.address_map@.contains_key(source) ==> r is None,
    {
        match self.address_map.get(&source) {
            Some(destination) => Some(*destination),
            None => None,
        }
    }

    /// The variable that `address` is mapped to, declaring one with its known value if there is
    /// none; `None` where its value is known only when running and it is mapped to nothing, or
    /// no variable number is left.
    fn create_or_reuse_mapped_address(&mut self, address: u16, Ghost(ctx): Ghost<Set<u16>>) -> (r: Option<u16>)
        requires
            old(self).inv(ctx),
        ensures
            final(self).inv(ctx),
            final(self).state == old(self).state,
            numbering_kept(old(self).builder, final(self).builder),
            r is Some ==> (ctx + deep_declared(final(self).builder.program@)).contains(r.unwrap()),
            old(self).address_map@.contains_key(address) ==> r == Some(old(self).address_map@[address])
                && final(self).address_map@ == old(self).address_map@ && final(self).builder == old(self).builder,
            !old(self).address_map@.contains_key(address) && (old(self).state.value_of(address) is Runtime
                || old(self).builder.value_counter == u16::MAX) ==> r is None && final(self).address_map@ == old(self).address_map@
                && final(self).builder == old(self).builder,
            !old(self).address_map@.contains_key(address) && old(self).builder.value_counter < u16::MAX ==> (
            old(self).state.value_of(address) matches ABFValue::CompileTime(v) ==> r == Some(old(self).builder.value_counter)
                && final(self).address_map@ == old(self).address_map@.insert(address, old(self).builder.value_counter)
                && final(self).builder.value_counter == old(self).builder.value_counter + 1
                && final(self).builder.program@ == old(self).builder.program@.push(SpecABF::New(old(self).builder.value_counter, v))),
    {
        match self.get_mapped_address(address) {
            Some(destination) => Some(destination),
            None => {
                match self.get_value(address) {
                    ABFValue::CompileTime(value) => {
                        if self.builder.value_counter == u16::MAX {
                            return None;
                        }
                        let ghost p = self.builder.program@;
                        let destination = self.builder.new_address(value);
                        proof { lemma_declared_push(p, SpecABF::New(destination, value), ctx); }
                        self.set_mapped_address(address, destination);
                        Some(destination)
                    },
                    ABFValue::Runtime => None,
                }
            },
        }
    }

    /// Folds `abf` into the program being built; `false` where a variable known only when
    /// running is mapped to nothing, a variable beyond all that were set is asked whether it is
    /// in use, or no variable number is left.
    fn optimize_abf_impl(&mut self, abf: &AnalyzedABFProgram, Ghost(ctx): Ghost<Set<u16>>) -> (ok: bool)
        requires
            old(self).inv(ctx),
        ensures
            final(self).inv(ctx),
            numbering_kept(old(self).builder, final(self).builder),
            abf.instructions@.len() == 0 ==> ok && *final(self) == *old(self),
            straight_line(abf@) && old(self).state.all_known() && only_constants_printed(old(self).builder.program@) ==> final(self).state.all_known()
                && only_constants_printed(final(self).builder.program@),
            loop_free(abf@) && runtime_mapped(old(self).state, old(self).address_map@) && old(self).builder.value_counter
                + reads_and_writes(abf@) < u16::MAX ==> ok,
            loop_free(abf@) && ok ==> plain(final(self).builder.program@.skip(old(self).builder.program@.len() as int)),
            loop_free(abf@) && ok ==> final(self).builder.program@.len() >= old(self).builder.program@.len() && forall|fuel: nat|
                #[trigger] prefix_simulated(
                old(self).state, old(self).address_map@, old(self).builder.value_counter,
                final(self).state, final(self).address_map@, final(self).builder.value_counter,
                abf@,
                final(self).builder.program@.skip(old(self).builder.program@.len() as int),
                fuel,
            ),
        decreases abf, 0int,
    {
        let ghost l0 = self.builder.program@.len() as int;
        proof {
            assert forall|fuel: nat| #[trigger] prefix_simulated(
                old(self).state, old(self).address_map@, old(self).builder.value_counter,
                self.state, self.address_map@, self.builder.value_counter,
                abf@.take(0),
                self.builder.program@.skip(l0),
                fuel,
            ) by {
                assert(abf@.take(0) =~= Seq::<SpecABF>::empty());
                assert(self.builder.program@.skip(l0) =~= Seq::<SpecABF>::empty());
            }
        }
        assert(self.builder.program@.skip(l0) =~= Seq::<SpecABF>::empty());
        let mut i: usize = 0;
        while i < abf.instructions.len()
            invariant
                i <= abf.instructions@.len(),
                self.inv(ctx),
                numbering_kept(old(self).builder, self.builder),
                abf.instructions@.len() == 0 ==> *self == *old(self),
                straight_line(abf@) && old(self).state.all_known() && only_constants_printed(old(self).builder.program@) ==> self.state.all_known()
                    && only_constants_printed(self.builder.program@),
                l0 == old(self).builder.program@.len(),
                loop_free(abf@) && runtime_mapped(old(self).state, old(self).address_map@) ==> runtime_mapped(self.state, self.address_map@)
                    && self.builder.value_counter <= old(self).builder.value_counter + reads_and_writes(abf@.take(i as int)),
                loop_free(abf@) ==> plain(self.builder.program@.skip(l0)),
                loop_free(abf@) ==> self.builder.program@.len() >= l0 && forall|fuel: nat|
                    #[trigger] prefix_simulated(
                    old(self).state, old(self).address_map@, old(self).builder.value_counter,
                    self.state, self.address_map@, self.builder.value_counter,
                    abf@.take(i as int),
                    self.builder.program@.skip(l0),
                    fuel,
                ),
            decreases abf.instructions@.len() - i,
        {
            proof {
                broadcast use vstd::std_specs::vec::axiom_vec_index_decreases;

                assert(decreases_to!(abf.instructions => abf.instructions[i as int]));
                assert(abf@[i as int] == abf.instructions@[i as int]@);
                lemma_reads_and_writes_take(abf@, i + 1);
                assert(abf@.take(i + 1).drop_last() =~= abf@.take(i as int));
                assert(abf@.take(i + 1).last() == abf@[i as int]);
            }
            let ghost st_i = self.state;
            let ghost map_i = self.address_map@;
            let ghost c_i = self.builder.value_counter;
            let ghost prog_i = self.builder.program@;
            let ghost mut e: Seq<SpecABF> = Seq::empty();
            match &abf.instructions[i] {
                AnalyzedABFInstruction::New(address, value) => {
                    self.set_value(*address, ABFValue::CompileTime(*value));
                    proof {
                        assert forall|fuel: nat| #[trigger] step_simulated(st_i, map_i, c_i, self.state, self.address_map@, self.builder.value_counter, abf@[i as int], e, fuel) by {
                            assert forall|si: AbfState, so: AbfState| #[trigger] simulates(st_i, map_i, c_i, si, so) implies runs_related(
                                self.state, self.address_map@, self.builder.value_counter,
                                run_instr(abf@[i as int], si, fuel),
                                run_seq(e, so, fuel),
                            ) by {
                                lemma_sim_set_known(st_i, self.state, map_i, c_i, si, so, *address, *value);
                            }
                        }
                    }
                },
                AnalyzedABFInstruction::Read(address) => {
                    self.set_value(*address, ABFValue::Runtime);
                    if self.builder.value_counter == u16::MAX {
                        return false;
                    }
                    let ghost p = self.builder.program@;
                    let destination = self.builder.read();
                    proof { lemma_declared_push(p, SpecABF::Read(destination), ctx); }
                    self.set_mapped_address(*address, destination);
                    proof {
                        e = seq![SpecABF::Read(c_i)];
                        assert forall|fuel: nat| #[trigger] step_simulated(st_i, map_i, c_i, self.state, self.address_map@, self.builder.value_counter, abf@[i as int], e, fuel) by {
                            assert forall|si: AbfState, so: AbfState| #[trigger] simulates(st_i, map_i, c_i, si, so) implies runs_related(
                                self.state, self.address_map@, self.builder.value_counter,
                                run_instr(abf@[i as int], si, fuel),
                                run_seq(e, so, fuel),
                            ) by {
                                lemma_sim_read(st_i, self.state, map_i, c_i, si, so, *address, fuel);
                                lemma_run_one(SpecABF::Read(c_i), so, fuel);
                            }
                        }
                    }
                },
                AnalyzedABFInstruction::Write(address) => {
                    let destination = match self.get_value(*address) {
                        ABFValue::CompileTime(value) => {
                            if self.builder.value_counter == u16::MAX {
                                return false;
                            }
                            let ghost p = self.builder.program@;
                            let d = self.builder.new_address(value);
                            proof {
                                lemma_declared_push(p, SpecABF::New(d, value), ctx);
                                if only_constants_printed(p) {
                                    lemma_constants_push(p, SpecABF::New(d, value));
                                }
                            }
                            d
                        },
                        ABFValue::Runtime => match self.get_mapped_address(*address) {
                            Some(d) => d,
                            None => return false,
                        },
                    };
                    self.set_mapped_address(*address, destination);
                    let ghost p = self.builder.program@;
                    self.builder.write(destination);
                    proof {
                        lemma_declared_push(p, SpecABF::Write(destination), ctx);
                        if only_constants_printed(p) {
                            lemma_constants_push(p, SpecABF::Write(destination));
                        }
                        if st_i.value_of(*address) is CompileTime {
                            let v = st_i.value_of(*address)->CompileTime_0;
                            e = seq![SpecABF::New(c_i, v), SpecABF::Write(c_i)];
                            assert forall|fuel: nat| #[trigger] step_simulated(st_i, map_i, c_i, self.state, self.address_map@, self.builder.value_counter, abf@[i as int], e, fuel) by {
                                assert forall|si: AbfState, so: AbfState| #[trigger] simulates(st_i, map_i, c_i, si, so) implies runs_related(
                                    self.state, self.address_map@, self.builder.value_counter,
                                    run_instr(abf@[i as int], si, fuel),
                                    run_seq(e, so, fuel),
                                ) by {
                                    lemma_sim_write_known(st_i, map_i, c_i, si, so, *address, v, fuel);
                                }
                            }
                        } else {
                            e = seq![SpecABF::Write(destination)];
                            assert forall|fuel: nat| #[trigger] step_simulated(st_i, map_i, c_i, self.state, self.address_map@, self.builder.value_counter, abf@[i as int], e, fuel) by {
                                assert forall|si: AbfState, so: AbfState| #[trigger] simulates(st_i, map_i, c_i, si, so) implies runs_related(
                                    self.state, self.address_map@, self.builder.value_counter,
                                    run_instr(abf@[i as int], si, fuel),
                                    run_seq(e, so, fuel),
                                ) by {
                                    lemma_sim_write_runtime(st_i, map_i, c_i, si, so, *address, fuel);
                                    lemma_run_one(SpecABF::Write(destination), so, fuel);
                                }
                            }
                        }
                    }
                },
                AnalyzedABFInstruction::Add(address, amount) => {
                    match self.get_value(*address) {
                        ABFValue::CompileTime(value) => {
                            #[verifier::truncate]
                            let delta = *amount as u8;
                            self.set_value(*address, ABFValue::CompileTime(value.wrapping_add(delta)));
                            proof {
                                lemma_wrap_add_i8(value, *amount);
                                assert forall|fuel: nat| #[trigger] step_simulated(st_i, map_i, c_i, self.state, self.address_map@, self.builder.value_counter, abf@[i as int], e, fuel) by {
                                    assert forall|si: AbfState, so: AbfState| #[trigger] simulates(st_i, map_i, c_i, si, so) implies runs_related(
                                        self.state, self.address_map@, self.builder.value_counter,
                                        run_instr(abf@[i as int], si, fuel),
                                        run_seq(e, so, fuel),
                                    ) by {
                                        assert(cell(si.cells, *address) == value);
                                        lemma_sim_set_known(st_i, self.state, map_i, c_i, si, so, *address, wrap_add(value, *amount as int));
                                    }
                                }
                            }
                        },
                        ABFValue::Runtime => {
                            let destination = match self.get_mapped_address(*address) {
                                Some(d) => d,
                                None => return false,
                            };
                            let ghost p = self.builder.program@;
                            self.builder.add(destination, *amount);
                            proof {
                                lemma_declared_push(p, SpecABF::Add(destination, *amount), ctx);
                                e = seq![SpecABF::Add(destination, *amount)];
                                assert forall|fuel: nat| #[trigger] step_simulated(st_i, map_i, c_i, self.state, self.address_map@, self.builder.value_counter, abf@[i as int], e, fuel) by {
                                    assert forall|si: AbfState, so: AbfState| #[trigger] simulates(st_i, map_i, c_i, si, so) implies runs_related(
                                        self.state, self.address_map@, self.builder.value_counter,
                                        run_instr(abf@[i as int], si, fuel),
                                        run_seq(e, so, fuel),
                                    ) by {
                                        lemma_sim_add_runtime(st_i, map_i, c_i, si, so, *address, *amount, fuel);
                                        lemma_run_one(SpecABF::Add(destination, *amount), so, fuel);
                                    }
                                }
                            }
                        },
                    }
                },
                AnalyzedABFInstruction::While(address, body) => {
                    proof {
                        assert(decreases_to!(abf.instructions[i as int] => abf.instructions[i as int]->While_1));
                    }
                    let predicate = self.get_value(*address);
                    if predicate != ABFValue::CompileTime(0) {
                        if !self.optimize_loop(*address, body, predicate, Ghost(ctx)) {
                            return false;
                        }
                    }
                    assert(!loop_free(abf@));
                },
            }
            proof {
                if loop_free(abf@) {
                    assert(abf@.take(i + 1).drop_last() =~= abf@.take(i as int));
                    assert(reads_and_writes(abf@.take(i as int)) <= reads_and_writes(abf@)) by {
                        lemma_reads_and_writes_take(abf@, i as int);
                    }
                    assert(self.builder.program@ =~= prog_i + e);
                    assert(self.builder.program@.skip(l0) =~= prog_i.skip(l0) + e);
                    assert(plain(e));
                    assert forall|k: int| #![trigger self.builder.program@.skip(l0)[k]] 0 <= k < self.builder.program@.skip(l0).len() implies (
                    self.builder.program@.skip(l0)[k] is New || self.builder.program@.skip(l0)[k] is Read || self.builder.program@.skip(l0)[k] is Write
                        || self.builder.program@.skip(l0)[k] is Add) by {
                        if k < prog_i.skip(l0).len() {
                            assert(self.builder.program@.skip(l0)[k] == prog_i.skip(l0)[k]);
                        } else {
                            assert(self.builder.program@.skip(l0)[k] == e[k - prog_i.skip(l0).len()]);
                        }
                    }
                    assert(abf@.take(i + 1) =~= abf@.take(i as int).push(abf@[i as int]));
                    assert forall|fuel: nat| #[trigger] prefix_simulated(
                        old(self).state, old(self).address_map@, old(self).builder.value_counter,
                        self.state, self.address_map@, self.builder.value_counter,
                        abf@.take(i + 1),
                        self.builder.program@.skip(l0),
                        fuel,
                    ) by {
                        assert(step_simulated(st_i, map_i, c_i, self.state, self.address_map@, self.builder.value_counter, abf@[i as int], e, fuel));
                        assert(prefix_simulated(old(self).state, old(self).address_map@, old(self).builder.value_counter, st_i, map_i, c_i, abf@.take(i as int), prog_i.skip(l0), fuel));
                        lemma_compose(
                            old(self).state, old(self).address_map@, old(self).builder.value_counter,
                            st_i, map_i, c_i,
                            self.state, self.address_map@, self.builder.value_counter,
                            abf@.take(i as int),
                            prog_i.skip(l0),
                            abf@[i as int],
                            e,
                            fuel,
                        );
                    }
                }
            }
            i = i + 1;
        }
        proof {
            assert(abf@.take(i as int) =~= abf@);
        }
        true
    }

    /// Folds a loop on `address` whose condition is not known to be zero: unrolled where its
    /// condition is known and it ends within 255 * 255 rounds, emitted as a loop otherwise.
    fn optimize_loop(&mut self, address: u16, body: &AnalyzedABFProgram, predicate: ABFValue, Ghost(ctx): Ghost<Set<u16>>) -> (ok: bool)
        requires
            old(self).inv(ctx),
        ensures
            final(self).inv(ctx),
            numbering_kept(old(self).builder, final(self).builder),
            ok ==> final(self).state.value_of(address) == ABFValue::CompileTime(0),
        decreases body, 1int,
    {
        let mut unrolled_successfully = false;
        if vec_contains(&body.modified_addresses, address) && predicate != ABFValue::Runtime {
            let ghost parent = self.builder.program@;
            let ghost child_ctx = ctx + deep_declared(parent);
            let mut child_optimizer = self.create_child();
            proof {
                assert(child_ctx + deep_declared(Seq::<SpecABF>::empty()) =~= child_ctx);
            }
            let mut round: u32 = 0;
            while round < 255 * 255
                invariant
                    child_optimizer.inv(child_ctx),
                    self.inv(ctx),
                    self.builder.program@ == parent,
                    self.builder == old(self).builder,
                    child_optimizer.builder.numbered(self.builder.value_counter as int),
                    child_ctx == ctx + deep_declared(parent),
                decreases 255 * 255 - round,
            {
                match child_optimizer.get_value(address) {
                    ABFValue::CompileTime(0) => {
                        unrolled_successfully = true;
                        break;
                    },
                    ABFValue::Runtime => {
                        break;
                    },
                    _ => {},
                }
                if !child_optimizer.optimize_abf_impl(body, Ghost(child_ctx)) {
                    return false;
                }
                round = round + 1;
            }
            if unrolled_successfully {
                let ghost child_program = child_optimizer.builder.program@;
                self.merge_child(child_optimizer);
                proof {
                    lemma_declared_concat(parent, child_program, ctx);
                    assert(child_ctx + deep_declared(child_program) =~= ctx + deep_declared(self.builder.program@));
                }
            }
        }
        if !unrolled_successfully {
            let mut j: usize = 0;
            while j < body.modified_addresses.len()
                invariant
                    self.inv(ctx),
                    numbering_kept(old(self).builder, self.builder),
                decreases body.modified_addresses@.len() - j,
            {
                let modified_address = body.modified_addresses[j];
                match self.address_is_used(modified_address) {
                    None => return false,
                    Some(true) => {
                        if self.create_or_reuse_mapped_address(modified_address, Ghost(ctx)).is_none() {
                            return false;
                        }
                        self.set_value(modified_address, ABFValue::Runtime);
                    },
                    Some(false) => {},
                }
                j = j + 1;
            }
            let destination = match self.create_or_reuse_mapped_address(address, Ghost(ctx)) {
                Some(d) => d,
                None => return false,
            };
            let ghost parent = self.builder.program@;
            let ghost body_ctx = ctx + deep_declared(parent);
            let mut body_builder = self.builder.start_loop();
            std::mem::swap(&mut body_builder, &mut self.builder);
            proof {
                assert(body_ctx + deep_declared(Seq::<SpecABF>::empty()) =~= body_ctx);
            }
            let ok = self.optimize_abf_impl(body, Ghost(body_ctx));
            std::mem::swap(&mut body_builder, &mut self.builder);
            let ghost body_program = body_builder.program@;
            self.builder.end_loop(destination, body_builder);
            proof {
                lemma_declared_push(parent, SpecABF::While(destination, body_program), ctx);
                assert(body_ctx + deep_declared(body_program) =~= ctx + deep_declared(self.builder.program@));
            }
            if !ok {
                return false;
            }
            let mut j: usize = 0;
            while j < body.modified_addresses.len()
                invariant
                    self.inv(ctx),
                    numbering_kept(old(self).builder, self.builder),
                decreases body.modified_addresses@.len() - j,
            {
                self.set_value(body.modified_addresses[j], ABFValue::Runtime);
                j = j + 1;
            }
        }
        self.set_value(address, ABFValue::CompileTime(0));
        true
    }

    /// Folds what is known when compiling into `program`; `None` where a variable whose value
    /// is known only when running is used with nothing mapped to it, where a loop that is not
    /// unrolled changes a variable beyond all that were set before it, or where more than
    /// 65535 variables would be needed.
    pub fn optimize_abf(program: &ABFProgram) -> (r: Option<ABFProgram>)
        ensures
            r matches Some(p) ==> well_declared(p@, Set::empty()),
            r matches Some(p) ==> declared_in_order(p@) == numbers(0, declared_in_order(p@).len() as int),
            program@.len() == 0 ==> (r matches Some(p) && p@ == Seq::<SpecABF>::empty()),
            straight_line(deep_strip(program@)) ==> (r matches Some(p) ==> only_constants_printed(p@)),
            loop_free(deep_strip(program@)) && reads_and_writes(deep_strip(program@)) < u16::MAX ==> r is Some,
            loop_free(deep_strip(program@)) ==> (r matches Some(p) ==> plain(p@)),
            loop_free(deep_strip(program@)) ==> (r matches Some(p) ==> forall|input: Seq<u8>, fuel: nat|
                #[trigger] runs_agree(run_seq(deep_strip(program@), start_state(input), fuel), run_seq(p@, start_state(input), fuel))),
    {
        let mut optimizer = Self::new();
        let ghost st0 = optimizer.state;
        let ghost map0 = optimizer.address_map@;
        let analyzed_program = Self::analyze_abf_program(program);
        assert(runtime_mapped(optimizer.state, optimizer.address_map@));
        if optimizer.optimize_abf_impl(&analyzed_program, Ghost(Set::empty())) {
            let p = optimizer.builder.build();
            proof {
                if loop_free(deep_strip(program@)) {
                    assert(optimizer.builder.program@.skip(0) =~= optimizer.builder.program@);
                    assert(plain(optimizer.builder.program@.skip(0)));
                    assert forall|input: Seq<u8>, fuel: nat|
                        #[trigger] runs_agree(run_seq(deep_strip(program@), start_state(input), fuel), run_seq(p@, start_state(input), fuel)) by {
                        let st = start_state(input);
                        assert forall|a: u16| #[trigger] st0.value_of(a) is CompileTime implies cell(st.cells, a) == st0.value_of(a)->CompileTime_0 by {}
                        assert(simulates(st0, map0, 0, st, st));
                        assert(prefix_simulated(st0, map0, 0, optimizer.state, optimizer.address_map@, optimizer.builder.value_counter,
                            analyzed_program@, optimizer.builder.program@.skip(0), fuel));
                    }
                }
            }
            Some(p)
        } else {
            None
        }
    }
}

} // verus!
