use vstd::prelude::*;

use std::collections::{BTreeMap, BTreeSet};

use super::abf_ast::{ABFInstruction, ABFProgram, SpecABF};
use super::abf_optimizer::{loop_free, start_state};
use super::abf_semantics::{cell, run_instr, run_seq, wrap_add, lemma_wrap_add_congruent, lemma_run_push, AbfState};
use crate::bf_core::{lemma_run_bf_append, run_bf_tree, run_bf_trees, tape_cell, BFState};
use crate::bf_core::{lemma_trees_path_push, trees_path, BFProgram, BFTree, SpecBFTree, TAPE_LEN};

verus! {

broadcast use vstd::std_specs::btree::group_btree_axioms;

/// What the compiler knows of a cell: its value, or only that it is known when running.
#[derive(Debug, Clone, Copy, PartialEq, Eq, Structural)]
enum BFValue {
    Runtime,
    CompileTime(u8),
}

/// A cell of the tape: what it holds and whether a variable lives in it.
#[derive(Debug, Clone, Copy, PartialEq, Eq, Structural)]
pub struct BFCell {
    value: BFValue,
    used: bool,
}

impl BFCell {
    fn new(value: BFValue, used: bool) -> (r: Self)
        ensures
            r.value == value,
            r.used == used,
    {
        Self { value, used }
    }
}

/// The variables declared and not freed after `x`, from `live` before it.
pub open spec fn next_live(live: Set<u16>, x: SpecABF) -> Set<u16> {
    match x {
        SpecABF::New(a, _) => live.insert(a),
        SpecABF::Read(a) => live.insert(a),
        SpecABF::Free(a) => live.remove(a),
        _ => live,
    }
}

/// The variables declared with a constant and neither added to nor freed since, after `x`,
/// from `pristine` before it.
pub open spec fn next_pristine(pristine: Set<u16>, x: SpecABF) -> Set<u16> {
    match x {
        SpecABF::New(a, _) => pristine.insert(a),
        SpecABF::Read(a) => pristine.remove(a),
        SpecABF::Free(a) => pristine.remove(a),
        SpecABF::Add(a, _) => pristine.remove(a),
        _ => pristine,
    }
}

/// The variables live after the instructions.
pub open spec fn live_after(s: Seq<SpecABF>) -> Set<u16>
    decreases s.len(),
{
    if s.len() == 0 {
        Set::empty()
    } else {
        next_live(live_after(s.drop_last()), s.last())
    }
}

/// The variables declared with a constant and untouched since, after the instructions.
pub open spec fn pristine_after(s: Seq<SpecABF>) -> Set<u16>
    decreases s.len(),
{
    if s.len() == 0 {
        Set::empty()
    } else {
        next_pristine(pristine_after(s.drop_last()), s.last())
    }
}

/// The instruction is allowed after code that left `live` and `pristine`: a print, an
/// addition or a loop uses a live variable, and a free frees a variable declared with a
/// constant and neither added to nor read since.
pub open spec fn use_ok(live: Set<u16>, pristine: Set<u16>, x: SpecABF) -> bool {
    match x {
        SpecABF::Write(a) => live.contains(a),
        SpecABF::Add(a, _) => live.contains(a),
        SpecABF::While(a, _) => live.contains(a),
        SpecABF::Free(a) => pristine.contains(a),
        _ => true,
    }
}

/// Every instruction of the program is allowed after the ones before it.
pub open spec fn well_used(s: Seq<SpecABF>) -> bool
    decreases s.len(),
{
    s.len() == 0 || (well_used(s.drop_last()) && use_ok(live_after(s.drop_last()), pristine_after(s.drop_last()), s.last()))
}

/// The variables the instructions introduce and use, in the order the compiler meets them:
/// `(true, a)` where `a` is declared or read into, `(false, a)` where it is used; a loop's own
/// variable comes before its body.
pub open spec fn placement_events(s: Seq<SpecABF>) -> Seq<(bool, u16)>
    decreases s,
{
    if s.len() == 0 {
        Seq::empty()
    } else {
        placement_events(s.drop_last()) + instruction_events(s.last())
    }
}

/// The variables one instruction introduces and uses, in order.
pub open spec fn instruction_events(x: SpecABF) -> Seq<(bool, u16)>
    decreases x,
{
    match x {
        SpecABF::New(a, _) => seq![(true, a)],
        SpecABF::Read(a) => seq![(true, a)],
        SpecABF::While(a, b) => seq![(false, a)] + placement_events(b),
        SpecABF::Free(a) => seq![(false, a)],
        SpecABF::Write(a) => seq![(false, a)],
        SpecABF::Add(a, _) => seq![(false, a)],
    }
}

/// `a` is introduced among the first `j` events.
pub open spec fn introduced_before(ev: Seq<(bool, u16)>, a: u16, j: int) -> bool {
    exists|i: int| 0 <= i < j && #[trigger] ev[i] == (true, a)
}

/// The variables the events introduce.
pub open spec fn introductions(ev: Seq<(bool, u16)>) -> Set<u16> {
    Set::new(|a: u16| introduced_before(ev, a, ev.len() as int))
}

/// Every use among the events is of a variable in `placed` or introduced before it.
pub open spec fn placed_in_order(ev: Seq<(bool, u16)>, placed: Set<u16>) -> bool {
    forall|j: int| 0 <= j < ev.len() && !(#[trigger] ev[j]).0 ==> placed.contains(ev[j].1) || introduced_before(ev, ev[j].1, j)
}

/// Events whose uses are placed, followed by events whose uses are placed where the first
/// left them, have their uses placed; the variables placed after both are those placed
/// before, or introduced by either.
proof fn lemma_events_step(
    ev: Seq<(bool, u16)>,
    x: Seq<(bool, u16)>,
    placed: Set<u16>,
    mid: Set<u16>,
    after: Set<u16>,
)
    requires
        placed_in_order(ev, placed),
        mid.subset_of(placed + introductions(ev)),
        placed_in_order(x, mid),
        after.subset_of(mid + introductions(x)),
    ensures
        placed_in_order(ev + x, placed),
        after.subset_of(placed + introductions(ev + x)),
{
    let t = ev + x;
    assert forall|j: int| 0 <= j < t.len() && !(#[trigger] t[j]).0 implies placed.contains(t[j].1) || introduced_before(t, t[j].1, j) by {
        if j < ev.len() {
            assert(t[j] == ev[j]);
            if introduced_before(ev, ev[j].1, j) {
                let i = choose|i: int| 0 <= i < j && #[trigger] ev[i] == (true, ev[j].1);
                assert(t[i] == ev[i]);
            }
        } else {
            let jx = j - ev.len();
            assert(t[j] == x[jx]);
            if mid.contains(x[jx].1) {
                if !placed.contains(x[jx].1) {
                    assert(introductions(ev).contains(x[jx].1));
                    let i = choose|i: int| 0 <= i < ev.len() && #[trigger] ev[i] == (true, x[jx].1);
                    assert(t[i] == ev[i]);
                }
            } else {
                let i = choose|i: int| 0 <= i < jx && #[trigger] x[i] == (true, x[jx].1);
                assert(t[ev.len() + i] == x[i]);
            }
        }
    }
    assert forall|a: u16| after.contains(a) implies (placed + introductions(t)).contains(a) by {
        if introductions(ev).contains(a) {
            let i = choose|i: int| 0 <= i < ev.len() && #[trigger] ev[i] == (true, a);
            assert(t[i] == ev[i]);
        } else if introductions(x).contains(a) {
            let i = choose|i: int| 0 <= i < x.len() && #[trigger] x[i] == (true, a);
            assert(t[ev.len() + i] == x[i]);
        }
    }
}

/// Introducing `a` places it and uses nothing.
proof fn lemma_introduce_events(a: u16, before: Set<u16>, after: Set<u16>)
    requires
        after.subset_of(before.insert(a)),
    ensures
        placed_in_order(seq![(true, a)], before),
        after.subset_of(before + introductions(seq![(true, a)])),
{
    let ev = seq![(true, a)];
    assert(ev[0] == (true, a));
    assert(introductions(ev).contains(a));
}

/// Using a placed `a` keeps its uses placed.
proof fn lemma_use_events(a: u16, placed: Set<u16>)
    requires
        placed.contains(a),
    ensures
        placed_in_order(seq![(false, a)], placed),
        placed.subset_of(placed + introductions(seq![(false, a)])),
{
    let ev = seq![(false, a)];
    assert(ev[0] == (false, a));
}

/// The Brainfuck machine at the start: cells at zero, the pointer on cell 0, `input` to read.
pub open spec fn bf_start(input: Seq<u8>) -> BFState {
    BFState { tape: Map::empty(), pointer: 0, input, output: Seq::empty() }
}

/// An ABF run and a Brainfuck run agree: both end or neither does, and where they end they
/// printed the same.
pub open spec fn bf_agrees(a: Option<AbfState>, b: Option<BFState>) -> bool {
    &&& (a is Some <==> b is Some)
    &&& a is Some ==> a->Some_0.output == b->Some_0.output
}

/// The Brainfuck state `so` stands for the ABF state `si`, where `map` places the variables,
/// `cells` is what the compiler knows of the tape and `pos` is where the pointer stands: the
/// same input is left and the same was printed; a free cell holds the value known of it; a
/// live variable's cell is in use, holds its value and is no other live variable's; and a
/// pristine variable's cell is known to hold its value.
spec fn bf_sim(map: Map<u16, u16>, cells: Seq<BFCell>, pos: u16, live: Set<u16>, pristine: Set<u16>, si: AbfState, so: BFState) -> bool {
    &&& so.pointer == pos
    &&& si.input == so.input
    &&& si.output == so.output
    &&& forall|c: int|
        #![trigger cells[c]]
        0 <= c < TAPE_LEN && !cells[c].used ==> cells[c].value is CompileTime && tape_cell(so.tape, c) == cells[c].value->CompileTime_0
    &&& forall|a: u16|
        #[trigger] live.contains(a) ==> map.contains_key(a) && map[a] < TAPE_LEN && cells[map[a] as int].used && tape_cell(
            so.tape,
            map[a] as int,
        ) == cell(si.cells, a)
    &&& forall|a: u16, b: u16| #[trigger] live.contains(a) && #[trigger] live.contains(b) && a != b ==> map[a] != map[b]
    &&& forall|a: u16|
        #[trigger] pristine.contains(a) ==> live.contains(a) && cells[map[a] as int].value == BFValue::CompileTime(cell(si.cells, a))
}

/// Both runs end or neither does, and where they end the Brainfuck one stands for the ABF one.
spec fn bf_related(
    map: Map<u16, u16>,
    cells: Seq<BFCell>,
    pos: u16,
    live: Set<u16>,
    pristine: Set<u16>,
    a: Option<AbfState>,
    b: Option<BFState>,
) -> bool {
    &&& (a is Some <==> b is Some)
    &&& a is Some ==> bf_sim(map, cells, pos, live, pristine, a->Some_0, b->Some_0)
}

/// What compiling one instruction at the top of the program does to the placement, the tape
/// known, the position and the code.
spec fn bf_step(
    map: Map<u16, u16>,
    cells: Seq<BFCell>,
    pos: u16,
    map2: Map<u16, u16>,
    cells2: Seq<BFCell>,
    pos2: u16,
    x: SpecABF,
    e: Seq<SpecBFTree>,
) -> bool {
    match x {
        SpecABF::New(a, v) => pos2 < TAPE_LEN && !cells[pos2 as int].used && cells[pos2 as int].value is CompileTime && map2 == map.insert(
            a,
            pos2,
        ) && cells2 == cells.update(pos2 as int, BFCell { value: BFValue::CompileTime(v), used: true }) && e == seq![
            SpecBFTree::Move(pos2 - pos),
            SpecBFTree::Add(v.wrapping_sub(cells[pos2 as int].value->CompileTime_0)),
        ],
        SpecABF::Read(a) => pos2 < TAPE_LEN && !cells[pos2 as int].used && map2 == map.insert(a, pos2) && cells2 == cells.update(
            pos2 as int,
            BFCell { value: BFValue::Runtime, used: true },
        ) && e == seq![SpecBFTree::Move(pos2 - pos), SpecBFTree::Read],
        SpecABF::Free(a) => map.contains_key(a) && map[a] < TAPE_LEN && map2 == map && pos2 == pos && cells2 == cells.update(
            map[a] as int,
            BFCell { value: cells[map[a] as int].value, used: false },
        ) && e == Seq::<SpecBFTree>::empty(),
        SpecABF::Write(a) => map.contains_key(a) && map2 == map && cells2 == cells && pos2 == map[a] && e == seq![
            SpecBFTree::Move(map[a] - pos),
            SpecBFTree::Write,
        ],
        SpecABF::Add(a, k) => map.contains_key(a) && map2 == map && cells2 == cells && pos2 == map[a] && e == seq![
            SpecBFTree::Move(map[a] - pos),
            SpecBFTree::Add(k as u8),
        ],
        SpecABF::While(_, _) => false,
    }
}

/// The compiler's knowledge has the shape the compiled code needs: a free cell's value is
/// known, a live variable is placed in a cell in use that is no other live variable's, and a
/// pristine variable is live and its cell's value is known.
spec fn bf_shape(map: Map<u16, u16>, cells: Seq<BFCell>, live: Set<u16>, pristine: Set<u16>) -> bool {
    &&& forall|c: int| #![trigger cells[c]] 0 <= c < TAPE_LEN && !cells[c].used ==> cells[c].value is CompileTime
    &&& forall|a: u16| #[trigger] live.contains(a) ==> map.contains_key(a) && map[a] < TAPE_LEN && cells[map[a] as int].used
    &&& forall|a: u16, b: u16| #[trigger] live.contains(a) && #[trigger] live.contains(b) && a != b ==> map[a] != map[b]
    &&& forall|a: u16| #[trigger] pristine.contains(a) ==> live.contains(a) && cells[map[a] as int].value is CompileTime
}

/// One compiled instruction keeps the shape.
proof fn lemma_bf_shape_step(
    map: Map<u16, u16>,
    cells: Seq<BFCell>,
    pos: u16,
    live: Set<u16>,
    pristine: Set<u16>,
    map2: Map<u16, u16>,
    cells2: Seq<BFCell>,
    pos2: u16,
    x: SpecABF,
    e: Seq<SpecBFTree>,
)
    requires
        cells.len() == TAPE_LEN,
        bf_shape(map, cells, live, pristine),
        bf_step(map, cells, pos, map2, cells2, pos2, x, e),
        use_ok(live, pristine, x),
    ensures
        bf_shape(map2, cells2, next_live(live, x), next_pristine(pristine, x)),
{
    let l2 = next_live(live, x);
    let p2 = next_pristine(pristine, x);
    match x {
        SpecABF::New(a, v) => {
            let c = pos2;
            assert forall|b: u16| #[trigger] l2.contains(b) implies map2.contains_key(b) && map2[b] < TAPE_LEN && cells2[map2[b] as int].used by {
                if b != a {
                    assert(live.contains(b));
                }
            }
            assert forall|b: u16, b2: u16| #[trigger] l2.contains(b) && #[trigger] l2.contains(b2) && b != b2 implies map2[b] != map2[b2] by {
                if b != a && b2 != a {
                    assert(live.contains(b) && live.contains(b2));
                } else if b == a {
                    assert(live.contains(b2));
                } else {
                    assert(live.contains(b));
                }
            }
            assert forall|b: u16| #[trigger] p2.contains(b) implies l2.contains(b) && cells2[map2[b] as int].value is CompileTime by {
                if b != a {
                    assert(pristine.contains(b) && live.contains(b));
                    assert(map[b] != c);
                }
            }
            assert forall|q: int| #![trigger cells2[q]] 0 <= q < TAPE_LEN && !cells2[q].used implies cells2[q].value is CompileTime by {
                assert(q != c);
                assert(cells2[q] == cells[q]);
            }
        },
        SpecABF::Read(a) => {
            let c = pos2;
            assert forall|b: u16| #[trigger] l2.contains(b) implies map2.contains_key(b) && map2[b] < TAPE_LEN && cells2[map2[b] as int].used by {
                if b != a {
                    assert(live.contains(b));
                }
            }
            assert forall|b: u16, b2: u16| #[trigger] l2.contains(b) && #[trigger] l2.contains(b2) && b != b2 implies map2[b] != map2[b2] by {
                if b != a && b2 != a {
                    assert(live.contains(b) && live.contains(b2));
                } else if b == a {
                    assert(live.contains(b2));
                } else {
                    assert(live.contains(b));
                }
            }
            assert forall|b: u16| #[trigger] p2.contains(b) implies l2.contains(b) && cells2[map2[b] as int].value is CompileTime by {
                assert(pristine.contains(b) && live.contains(b));
                assert(map[b] != c);
            }
            assert forall|q: int| #![trigger cells2[q]] 0 <= q < TAPE_LEN && !cells2[q].used implies cells2[q].value is CompileTime by {
                assert(q != c);
                assert(cells2[q] == cells[q]);
            }
        },
        SpecABF::Free(a) => {
            let c = map[a];
            assert forall|b: u16| #[trigger] l2.contains(b) implies map2.contains_key(b) && map2[b] < TAPE_LEN && cells2[map2[b] as int].used by {
                assert(live.contains(b) && b != a);
                assert(map[b] != c);
            }
            assert forall|b: u16| #[trigger] p2.contains(b) implies l2.contains(b) && cells2[map2[b] as int].value is CompileTime by {
                assert(pristine.contains(b) && live.contains(b) && b != a);
                assert(map[b] != c);
            }
            assert forall|q: int| #![trigger cells2[q]] 0 <= q < TAPE_LEN && !cells2[q].used implies cells2[q].value is CompileTime by {
                if q != c {
                    assert(cells2[q] == cells[q]);
                } else {
                    assert(pristine.contains(a));
                }
            }
        },
        SpecABF::Add(a, k) => {
            assert forall|b: u16| #[trigger] p2.contains(b) implies l2.contains(b) && cells2[map2[b] as int].value is CompileTime by {
                assert(pristine.contains(b));
            }
        },
        _ => {},
    }
}

/// A related ABF prefix and Brainfuck code stay related when one instruction is compiled.
proof fn lemma_bf_compose(
    map: Map<u16, u16>,
    cells: Seq<BFCell>,
    pos: u16,
    live: Set<u16>,
    pristine: Set<u16>,
    map2: Map<u16, u16>,
    cells2: Seq<BFCell>,
    pos2: u16,
    a: Seq<SpecABF>,
    x: SpecABF,
    b: Seq<SpecBFTree>,
    e: Seq<SpecBFTree>,
    input: Seq<u8>,
    fuel: nat,
)
    requires
        cells.len() == TAPE_LEN,
        pos < TAPE_LEN,
        bf_related(map, cells, pos, live, pristine, run_seq(a, start_state(input), fuel), run_bf_trees(b, bf_start(input), fuel)),
        bf_step(map, cells, pos, map2, cells2, pos2, x, e),
        use_ok(live, pristine, x),
    ensures
        bf_related(
            map2,
            cells2,
            pos2,
            next_live(live, x),
            next_pristine(pristine, x),
            run_seq(a.push(x), start_state(input), fuel),
            run_bf_trees(b + e, bf_start(input), fuel),
        ),
{
    lemma_run_push(a, x, start_state(input), fuel);
    lemma_run_bf_append(b, e, bf_start(input), fuel);
    let ra = run_seq(a, start_state(input), fuel);
    if ra is Some {
        lemma_bf_step(
            map,
            cells,
            pos,
            live,
            pristine,
            map2,
            cells2,
            pos2,
            x,
            e,
            ra->Some_0,
            run_bf_trees(b, bf_start(input), fuel)->Some_0,
            fuel,
        );
    }
}

/// A prefix of a program whose instructions are allowed has allowed instructions.
proof fn lemma_well_used_take(s: Seq<SpecABF>, i: int)
    requires
        well_used(s),
        0 <= i <= s.len(),
    ensures
        well_used(s.take(i)),
    decreases s.len() - i,
{
    if i < s.len() {
        lemma_well_used_take(s, i + 1);
        assert(s.take(i + 1).drop_last() =~= s.take(i));
    } else {
        assert(s.take(i) =~= s);
    }
}

/// Every cell is free and known to hold zero.
spec fn bf_fresh(cells: Seq<BFCell>) -> bool {
    forall|c: int| #![trigger cells[c]] 0 <= c < TAPE_LEN ==> cells[c] == (BFCell { value: BFValue::CompileTime(0), used: false })
}

/// A byte taken as `u8` differs from itself by a multiple of 256.
proof fn lemma_i8_as_u8(k: i8)
    ensures
        (k as u8) as int % 256 == k as int % 256,
{
    if k >= 0 {
        assert((k as u8) as i16 == k as i16) by (bit_vector)
            requires
                k >= 0i8,
        ;
    } else {
        assert((k as u8) as i16 == (k as i16) + 256i16) by (bit_vector)
            requires
                k < 0i8,
        ;
        vstd::arithmetic::div_mod::lemma_mod_add_multiples_vanish(k as int, 256);
    }
}

/// One compiled instruction keeps the runs related.
#[verifier::spinoff_prover]
#[verifier::rlimit(40)]
proof fn lemma_bf_step(
    map: Map<u16, u16>,
    cells: Seq<BFCell>,
    pos: u16,
    live: Set<u16>,
    pristine: Set<u16>,
    map2: Map<u16, u16>,
    cells2: Seq<BFCell>,
    pos2: u16,
    x: SpecABF,
    e: Seq<SpecBFTree>,
    si: AbfState,
    so: BFState,
    fuel: nat,
)
    requires
        cells.len() == TAPE_LEN,
        pos < TAPE_LEN,
        bf_sim(map, cells, pos, live, pristine, si, so),
        bf_step(map, cells, pos, map2, cells2, pos2, x, e),
        use_ok(live, pristine, x),
    ensures
        bf_related(map2, cells2, pos2, next_live(live, x), next_pristine(pristine, x), run_instr(x, si, fuel), run_bf_trees(e, so, fuel)),
{
    reveal_with_fuel(run_bf_trees, 3);
    if e.len() == 2 {
        assert(e.drop_last().drop_last() =~= Seq::<SpecBFTree>::empty());
        assert(e.drop_last() =~= seq![e[0]]);
    }
    let l2 = next_live(live, x);
    let p2 = next_pristine(pristine, x);
    match x {
        SpecABF::New(a, v) => {
            let c = pos2;
            let cur = cells[c as int].value->CompileTime_0;
            assert(tape_cell(so.tape, c as int) == cur);
            let d = v.wrapping_sub(cur);
            assert((cur + d) % 256 == v) by {
                if v >= cur {
                    assert(d == v - cur);
                    vstd::arithmetic::div_mod::lemma_small_mod(v as nat, 256);
                } else {
                    assert(d == v - cur + 256);
                    vstd::arithmetic::div_mod::lemma_mod_add_multiples_vanish(v as int, 256);
                    vstd::arithmetic::div_mod::lemma_small_mod(v as nat, 256);
                }
            }
            let si2 = run_instr(x, si, fuel)->Some_0;
            let so2 = run_bf_trees(e, so, fuel)->Some_0;
            assert(tape_cell(so2.tape, c as int) == v);
            assert forall|b: u16| #[trigger] l2.contains(b) implies map2.contains_key(b) && map2[b] < TAPE_LEN && cells2[map2[b] as int].used
                && tape_cell(so2.tape, map2[b] as int) == cell(si2.cells, b) by {
                if b != a {
                    assert(live.contains(b));
                    assert(cells[map[b] as int].used);
                    assert(map[b] != c);
                }
            }
            assert forall|b: u16, b2: u16| #[trigger] l2.contains(b) && #[trigger] l2.contains(b2) && b != b2 implies map2[b] != map2[b2] by {
                if b != a && b2 != a {
                    assert(live.contains(b) && live.contains(b2));
                } else if b == a {
                    assert(live.contains(b2));
                    assert(cells[map[b2] as int].used);
                } else {
                    assert(live.contains(b));
                    assert(cells[map[b] as int].used);
                }
            }
            assert forall|b: u16| #[trigger] p2.contains(b) implies l2.contains(b) && cells2[map2[b] as int].value == BFValue::CompileTime(
                cell(si2.cells, b),
            ) by {
                if b != a {
                    assert(pristine.contains(b));
                    assert(live.contains(b));
                    assert(cells[map[b] as int].used);
                    assert(map[b] != c);
                }
            }
            assert forall|q: int| #![trigger cells2[q]] 0 <= q < TAPE_LEN && !cells2[q].used implies cells2[q].value is CompileTime && tape_cell(
                so2.tape,
                q,
            ) == cells2[q].value->CompileTime_0 by {
                assert(q != c);
                assert(cells2[q] == cells[q]);
            }
        },
        SpecABF::Read(a) => {
            let c = pos2;
            if si.input.len() > 0 {
                let si2 = run_instr(x, si, fuel)->Some_0;
                let so2 = run_bf_trees(e, so, fuel)->Some_0;
                assert forall|b: u16| #[trigger] l2.contains(b) implies map2.contains_key(b) && map2[b] < TAPE_LEN && cells2[map2[b] as int].used
                    && tape_cell(so2.tape, map2[b] as int) == cell(si2.cells, b) by {
                    if b != a {
                        assert(live.contains(b));
                        assert(cells[map[b] as int].used);
                        assert(map[b] != c);
                    }
                }
                assert forall|b: u16, b2: u16| #[trigger] l2.contains(b) && #[trigger] l2.contains(b2) && b != b2 implies map2[b] != map2[b2] by {
                    if b != a && b2 != a {
                        assert(live.contains(b) && live.contains(b2));
                    } else if b == a {
                        assert(live.contains(b2));
                        assert(cells[map[b2] as int].used);
                    } else {
                        assert(live.contains(b));
                        assert(cells[map[b] as int].used);
                    }
                }
                assert forall|b: u16| #[trigger] p2.contains(b) implies l2.contains(b) && cells2[map2[b] as int].value == BFValue::CompileTime(
                    cell(si2.cells, b),
                ) by {
                    assert(pristine.contains(b));
                    assert(live.contains(b));
                    assert(cells[map[b] as int].used);
                    assert(map[b] != c);
                }
                assert forall|q: int| #![trigger cells2[q]] 0 <= q < TAPE_LEN && !cells2[q].used implies cells2[q].value is CompileTime
                    && tape_cell(so2.tape, q) == cells2[q].value->CompileTime_0 by {
                    assert(q != c);
                    assert(cells2[q] == cells[q]);
                }
            }
        },
        SpecABF::Free(a) => {
            let c = map[a];
            let si2 = run_instr(x, si, fuel)->Some_0;
            let so2 = run_bf_trees(e, so, fuel)->Some_0;
            assert(so2 == so);
            assert forall|b: u16| #[trigger] l2.contains(b) implies map2.contains_key(b) && map2[b] < TAPE_LEN && cells2[map2[b] as int].used
                && tape_cell(so2.tape, map2[b] as int) == cell(si2.cells, b) by {
                assert(live.contains(b) && b != a);
                assert(map[b] != c);
            }
            assert forall|b: u16| #[trigger] p2.contains(b) implies l2.contains(b) && cells2[map2[b] as int].value == BFValue::CompileTime(
                cell(si2.cells, b),
            ) by {
                assert(pristine.contains(b) && live.contains(b) && b != a);
                assert(map[b] != c);
            }
            assert forall|q: int| #![trigger cells2[q]] 0 <= q < TAPE_LEN && !cells2[q].used implies cells2[q].value is CompileTime && tape_cell(
                so2.tape,
                q,
            ) == cells2[q].value->CompileTime_0 by {
                if q != c {
                    assert(cells2[q] == cells[q]);
                } else {
                    assert(pristine.contains(a));
                }
            }
        },
        SpecABF::Write(a) => {
        },
        SpecABF::Add(a, k) => {
            let c = map[a];
            let si2 = run_instr(x, si, fuel)->Some_0;
            let so2 = run_bf_trees(e, so, fuel)->Some_0;
            let t = tape_cell(so.tape, c as int);
            lemma_i8_as_u8(k);
            lemma_wrap_add_congruent(t, (k as u8) as int, k as int);
            assert(tape_cell(so2.tape, c as int) == cell(si2.cells, a));
            assert forall|b: u16| #[trigger] l2.contains(b) implies map2.contains_key(b) && map2[b] < TAPE_LEN && cells2[map2[b] as int].used
                && tape_cell(so2.tape, map2[b] as int) == cell(si2.cells, b) by {
                if b != a {
                    assert(map[b] != c);
                }
            }
            assert forall|b: u16| #[trigger] p2.contains(b) implies l2.contains(b) && cells2[map2[b] as int].value == BFValue::CompileTime(
                cell(si2.cells, b),
            ) by {
                assert(pristine.contains(b) && b != a);
            }
            assert forall|q: int| #![trigger cells2[q]] 0 <= q < TAPE_LEN && !cells2[q].used implies cells2[q].value is CompileTime && tape_cell(
                so2.tape,
                q,
            ) == cells2[q].value->CompileTime_0 by {
                assert(q != c);
            }
        },
        SpecABF::While(_, _) => {},
    }
}

/// The instruction mentions, other than to declare it, a variable that `map` does not place.
pub open spec fn uses_unplaced(i: SpecABF, map: Map<u16, u16>) -> bool {
    match i {
        SpecABF::Free(a) => !map.dom().contains(a),
        SpecABF::Write(a) => !map.dom().contains(a),
        SpecABF::Add(a, _) => !map.dom().contains(a),
        SpecABF::While(a, _) => !map.dom().contains(a),
        _ => false,
    }
}

/// Builds a Brainfuck program with absolute positions: it tracks where the pointer stands and
/// moves it there. `loop_starts` holds, for the program and each open loop body, the cell
/// where it began.
struct BFProgramBuilder {
    program_stack: Vec<BFProgram>,
    current_position: u16,
    loop_starts: Ghost<Seq<int>>,
}

impl BFProgramBuilder {
    /// Every part built so far keeps the pointer on the tape: the program leads from cell 0 to
    /// where the first open loop begins, each loop body from where it began to where the next
    /// one begins, and the innermost to the current position.
    spec fn inv(&self) -> bool {
        let n = self.program_stack@.len();
        let starts = self.loop_starts@;
        &&& n >= 1
        &&& starts.len() == n
        &&& starts[0] == 0
        &&& self.current_position < TAPE_LEN
        &&& forall|k: int| 0 <= k < n ==> 0 <= #[trigger] starts[k] < TAPE_LEN
        &&& forall|k: int|
            0 <= k < n - 1 ==> trees_path(#[trigger] self.program_stack@[k]@, starts[k]) == Some(
                starts[k + 1],
            )
        &&& trees_path(self.program_stack@[n - 1]@, starts[n - 1]) == Some(self.current_position as int)
    }

    fn new() -> (r: Self)
        ensures
            r.inv(),
            r.program_stack@.len() == 1,
            r.program_stack@[0]@ == Seq::<SpecBFTree>::empty(),
            r.current_position == 0,
    {
        let mut program_stack: Vec<BFProgram> = Vec::new();
        program_stack.push(BFProgram::new());
        let loop_starts: Ghost<Seq<int>> = Ghost(Seq::<int>::empty().push(0int));
        Self { program_stack, current_position: 0, loop_starts }
    }

    fn build_program(self) -> (r: BFProgram)
        requires
            self.inv(),
            self.program_stack@.len() == 1,
        ensures
            trees_path(r@, 0) is Some,
            r@ == self.program_stack@[0]@,
    {
        let mut program_stack = self.program_stack;
        program_stack.pop().unwrap()
    }

    fn in_loop(&self) -> (r: bool)
        ensures
            r == (self.program_stack@.len() > 1),
    {
        self.program_stack.len() > 1
    }

    fn add_instruction(&mut self, instruction: BFTree)
        requires
            old(self).inv(),
            tree_path_from(instruction, old(self).current_position as int) is Some,
            tree_path_from(instruction, old(self).current_position as int).unwrap() < TAPE_LEN,
            0 <= tree_path_from(instruction, old(self).current_position as int).unwrap(),
        ensures
            final(self).program_stack@.len() == old(self).program_stack@.len(),
            final(self).loop_starts == old(self).loop_starts,
            final(self).current_position == old(self).current_position,
            forall|k: int|
                0 <= k < old(self).program_stack@.len() - 1 ==> #[trigger] final(self).program_stack@[k]
                    == old(self).program_stack@[k],
            trees_path(final(self).program_stack@.last()@, final(self).loop_starts@.last()) == Some(
                tree_path_from(instruction, old(self).current_position as int).unwrap(),
            ),
            final(self).program_stack@.last()@ == old(self).program_stack@.last()@.push(instruction@),
    {
        let ghost n = self.program_stack@.len();
        let ghost x = instruction@;
        let mut top = self.program_stack.pop().unwrap();
        let ghost before = top@;
        top.push_instruction(instruction);
        proof {
            lemma_trees_path_push(before, x, self.loop_starts@[n - 1]);
        }
        self.program_stack.push(top);
    }

    /// Moves the pointer to `new_position`.
    fn move_to(&mut self, new_position: u16)
        requires
            old(self).inv(),
            new_position < TAPE_LEN,
        ensures
            final(self).inv(),
            final(self).current_position == new_position,
            final(self).program_stack@.len() == old(self).program_stack@.len(),
            final(self).loop_starts == old(self).loop_starts,
            forall|k: int|
                0 <= k < old(self).program_stack@.len() - 1 ==> #[trigger] final(self).program_stack@[k]
                    == old(self).program_stack@[k],
            final(self).program_stack@.last()@ == old(self).program_stack@.last()@.push(
                SpecBFTree::Move(new_position - old(self).current_position),
            ),
    {
        let offset: i16 = new_position as i16 - self.current_position as i16;
        self.add_instruction(BFTree::Move(offset as isize));
        self.current_position = new_position;
    }

    /// Sets the current cell to zero.
    fn zero(&mut self)
        requires
            old(self).inv(),
        ensures
            final(self).inv(),
            final(self).current_position == old(self).current_position,
            final(self).program_stack@.len() == old(self).program_stack@.len(),
            final(self).loop_starts == old(self).loop_starts,
            forall|k: int|
                0 <= k < old(self).program_stack@.len() - 1 ==> #[trigger] final(self).program_stack@[k]
                    == old(self).program_stack@[k],
            final(self).program_stack@.last()@ == old(self).program_stack@.last()@.push(
                SpecBFTree::Loop(seq![SpecBFTree::Add(255)]),
            ),
    {
        let mut body: Vec<BFTree> = Vec::new();
        body.push(BFTree::Add(255));
        proof {
            let b = crate::bf_core::trees_view(body@);
            assert(b =~= seq![SpecBFTree::Add(255)]);
            lemma_trees_path_push(Seq::empty(), SpecBFTree::Add(255), self.current_position as int);
            assert(seq![SpecBFTree::Add(255)] =~= Seq::<SpecBFTree>::empty().push(SpecBFTree::Add(255)));
        }
        self.add_instruction(BFTree::Loop(body));
    }

    fn add(&mut self, amount: u8)
        requires
            old(self).inv(),
        ensures
            final(self).inv(),
            final(self).current_position == old(self).current_position,
            final(self).program_stack@.len() == old(self).program_stack@.len(),
            final(self).loop_starts == old(self).loop_starts,
            forall|k: int|
                0 <= k < old(self).program_stack@.len() - 1 ==> #[trigger] final(self).program_stack@[k]
                    == old(self).program_stack@[k],
            final(self).program_stack@.last()@ == old(self).program_stack@.last()@.push(SpecBFTree::Add(amount)),
    {
        self.add_instruction(BFTree::Add(amount));
    }

    fn read(&mut self)
        requires
            old(self).inv(),
        ensures
            final(self).inv(),
            final(self).current_position == old(self).current_position,
            final(self).program_stack@.len() == old(self).program_stack@.len(),
            final(self).loop_starts == old(self).loop_starts,
            forall|k: int|
                0 <= k < old(self).program_stack@.len() - 1 ==> #[trigger] final(self).program_stack@[k]
                    == old(self).program_stack@[k],
            final(self).program_stack@.last()@ == old(self).program_stack@.last()@.push(SpecBFTree::Read),
    {
        self.add_instruction(BFTree::Read);
    }

    fn write(&mut self)
        requires
            old(self).inv(),
        ensures
            final(self).inv(),
            final(self).current_position == old(self).current_position,
            final(self).program_stack@.len() == old(self).program_stack@.len(),
            final(self).loop_starts == old(self).loop_starts,
            forall|k: int|
                0 <= k < old(self).program_stack@.len() - 1 ==> #[trigger] final(self).program_stack@[k]
                    == old(self).program_stack@[k],
            final(self).program_stack@.last()@ == old(self).program_stack@.last()@.push(SpecBFTree::Write),
    {
        self.add_instruction(BFTree::Write);
    }

    /// Opens a loop on cell `address`: the pointer goes there and a new body begins.
    fn begin_loop(&mut self, address: u16)
        requires
            old(self).inv(),
            address < TAPE_LEN,
        ensures
            final(self).inv(),
            final(self).current_position == address,
            final(self).program_stack@.len() == old(self).program_stack@.len() + 1,
            final(self).loop_starts@ == old(self).loop_starts@.push(address as int),
            forall|k: int|
                0 <= k < old(self).program_stack@.len() - 1 ==> #[trigger] final(self).program_stack@[k]
                    == old(self).program_stack@[k],
            final(self).program_stack@[old(self).program_stack@.len() - 1]@ == old(self).program_stack@.last()@.push(
                SpecBFTree::Move(address - old(self).current_position),
            ),
            final(self).program_stack@.last()@ == Seq::<SpecBFTree>::empty(),
    {
        self.move_to(address);
        self.program_stack.push(BFProgram::new());
        proof {
            self.loop_starts@ = self.loop_starts@.push(address as int);
        }
    }

    /// Closes the innermost loop, which began on cell `address`: the pointer goes back there
    /// and the body becomes a loop of the enclosing part.
    fn end_loop(&mut self, address: u16)
        requires
            old(self).inv(),
            old(self).program_stack@.len() > 1,
            old(self).loop_starts@.last() == address as int,
        ensures
            final(self).inv(),
            final(self).current_position == address,
            final(self).program_stack@.len() == old(self).program_stack@.len() - 1,
            final(self).loop_starts@ == old(self).loop_starts@.drop_last(),
            forall|k: int|
                0 <= k < old(self).program_stack@.len() - 2 ==> #[trigger] final(self).program_stack@[k]
                    == old(self).program_stack@[k],
            final(self).program_stack@.last()@ == old(self).program_stack@[old(self).program_stack@.len() - 2]@.push(
                SpecBFTree::Loop(old(self).program_stack@.last()@.push(SpecBFTree::Move(address - old(self).current_position))),
            ),
    {
        self.move_to(address);
        let body = self.program_stack.pop().unwrap();
        proof {
            self.loop_starts@ = self.loop_starts@.drop_last();
        }
        self.add_instruction(BFTree::Loop(body.0));
    }
}

/// Where one tree leaves the pointer that it found on cell `pos`.
spec fn tree_path_from(tree: BFTree, pos: int) -> Option<int> {
    crate::bf_core::tree_path(tree@, pos)
}

/// The distance [`ABFCompiler::find_address`] gives cell `i` seen from `position`: how far the
/// pointer goes, plus how far its known value is from the one wanted (255 for a value known
/// only when running).
spec fn cell_distance(position: u16, expected: Option<u8>, cell: BFCell, i: int) -> int {
    let address_distance = if position >= i {
        position - i
    } else {
        i - position
    };
    let value_distance = match expected {
        Some(e) => match cell.value {
            BFValue::CompileTime(a) => if a >= e {
                a - e
            } else {
                e - a
            },
            BFValue::Runtime => 255,
        },
        None => 0,
    };
    address_distance + value_distance
}

/// Some variable below `bound` in `addresses` is placed in cell `c`.
spec fn holds_marked(addresses: Set<u16>, map: Map<u16, u16>, bound: int, c: int) -> bool {
    exists|x: u16| #![trigger map[x]] x < bound && addresses.contains(x) && map.contains_key(x) && map[x] == c
}

/// The cell of the greatest variable below `bound` in `addresses` that is placed.
spec fn last_marked(addresses: Set<u16>, map: Map<u16, u16>, bound: int) -> Option<u16>
    decreases bound,
{
    if bound <= 0 {
        None
    } else if addresses.contains((bound - 1) as u16) && map.contains_key((bound - 1) as u16) {
        Some(map[(bound - 1) as u16])
    } else {
        last_marked(addresses, map, bound - 1)
    }
}

/// Places the variables of an ABF program on a tape of [`TAPE_LEN`] cells and emits Brainfuck
/// that moves between them.
pub struct ABFCompiler {
    address_map: BTreeMap<u16, u16>,
    cells: Vec<BFCell>,
    current_position: u16,
}

impl ABFCompiler {
    /// The tape has [`TAPE_LEN`] cells, the position and every placed variable are on it.
    spec fn wf(&self) -> bool {
        &&& self.cells@.len() == TAPE_LEN
        &&& self.current_position < TAPE_LEN
        &&& forall|a: u16| #[trigger] self.address_map@.contains_key(a) ==> self.address_map@[a] < TAPE_LEN
    }

    fn new() -> (r: Self)
        ensures
            r.wf(),
            r.address_map@ == Map::<u16, u16>::empty(),
            bf_fresh(r.cells@),
    {
        let mut cells: Vec<BFCell> = Vec::new();
        while cells.len() < TAPE_LEN
            invariant
                cells@.len() <= TAPE_LEN,
                forall|c: int| #![trigger cells@[c]] 0 <= c < cells@.len() ==> cells@[c] == (BFCell { value: BFValue::CompileTime(0), used: false }),
            decreases TAPE_LEN - cells@.len(),
        {
            cells.push(BFCell::new(BFValue::CompileTime(0), false));
        }
        Self { address_map: BTreeMap::new(), cells, current_position: 0 }
    }

    /// The free cell closest to the current position, counting the distance of its value from
    /// `expected` too; the first of those at the least distance; `u16::MAX` where no cell is free.
    fn find_address(&self, expected: Option<u8>) -> (r: u16)
        requires
            self.wf(),
        ensures
            r == u16::MAX <==> forall|i: int| 0 <= i < TAPE_LEN ==> (#[trigger] self.cells@[i]).used,
            r != u16::MAX ==> {
                &&& r < TAPE_LEN
                &&& !self.cells@[r as int].used
                &&& forall|j: int|
                    0 <= j < TAPE_LEN && !(#[trigger] self.cells@[j]).used ==> cell_distance(
                        self.current_position,
                        expected,
                        self.cells@[j],
                        j,
                    ) >= cell_distance(self.current_position, expected, self.cells@[r as int], r as int)
                &&& forall|j: int|
                    0 <= j < r && !(#[trigger] self.cells@[j]).used ==> cell_distance(
                        self.current_position,
                        expected,
                        self.cells@[j],
                        j,
                    ) > cell_distance(self.current_position, expected, self.cells@[r as int], r as int)
            },
    {
        let mut best_address: u16 = u16::MAX;
        let mut best_distance: u16 = u16::MAX;
        let mut i: usize = 0;
        while i < self.cells.len()
            invariant_except_break
                i <= TAPE_LEN,
                self.wf(),
                best_distance > 0,
                best_address == u16::MAX ==> best_distance == u16::MAX,
                best_address == u16::MAX <==> forall|k: int| 0 <= k < i ==> (#[trigger] self.cells@[k]).used,
                best_address != u16::MAX ==> {
                    &&& best_address < i
                    &&& !self.cells@[best_address as int].used
                    &&& best_distance == cell_distance(
                        self.current_position,
                        expected,
                        self.cells@[best_address as int],
                        best_address as int,
                    )
                    &&& forall|j: int|
                        0 <= j < i && !(#[trigger] self.cells@[j]).used ==> cell_distance(
                            self.current_position,
                            expected,
                            self.cells@[j],
                            j,
                        ) >= best_distance
                    &&& forall|j: int|
                        0 <= j < best_address && !(#[trigger] self.cells@[j]).used ==> cell_distance(
                            self.current_position,
                            expected,
                            self.cells@[j],
                            j,
                        ) > best_distance
                },
            ensures
                self.wf(),
                best_address == u16::MAX <==> forall|k: int| 0 <= k < TAPE_LEN ==> (#[trigger] self.cells@[k]).used,
                best_address != u16::MAX ==> {
                    &&& best_address < TAPE_LEN
                    &&& !self.cells@[best_address as int].used
                    &&& best_distance == cell_distance(
                        self.current_position,
                        expected,
                        self.cells@[best_address as int],
                        best_address as int,
                    )
                    &&& forall|j: int|
                        0 <= j < TAPE_LEN && !(#[trigger] self.cells@[j]).used ==> cell_distance(
                            self.current_position,
                            expected,
                            self.cells@[j],
                            j,
                        ) >= best_distance
                    &&& forall|j: int|
                        0 <= j < best_address && !(#[trigger] self.cells@[j]).used ==> cell_distance(
                            self.current_position,
                            expected,
                            self.cells@[j],
                            j,
                        ) > best_distance
                },
            decreases TAPE_LEN - i,
        {
            let cell = self.cells[i];
            if !cell.used {
                let position: u16 = i as u16;
                let address_distance: u16 = if self.current_position >= position {
                    self.current_position - position
                } else {
                    position - self.current_position
                };
                let value_distance: u8 = match expected {
                    Some(expected) => match cell.value {
                        BFValue::CompileTime(actual) => if actual >= expected {
                            actual - expected
                        } else {
                            expected - actual
                        },
                        BFValue::Runtime => 255,
                    },
                    None => 0,
                };
                let distance: u16 = address_distance + value_distance as u16;
                assert(distance == cell_distance(self.current_position, expected, cell, i as int));
                assert(!self.cells@[i as int].used);
                if distance < best_distance {
                    best_address = position;
                    best_distance = distance;
                }
                if best_distance == 0 {
                    assert(!self.cells@[best_address as int].used);
                    assert forall|j: int|
                        0 <= j < TAPE_LEN && !(#[trigger] self.cells@[j]).used implies cell_distance(
                        self.current_position,
                        expected,
                        self.cells@[j],
                        j,
                    ) >= best_distance by {}
                    break;
                }
            }
            i = i + 1;
        }
        best_address
    }

    fn get_value(&self, index: u16) -> (r: BFValue)
        requires
            self.wf(),
            index < TAPE_LEN,
        ensures
            r == self.cells@[index as int].value,
    {
        self.cells[index as usize].value
    }

    /// Places a value in the cell, which becomes used and the current position.
    fn set_value(&mut self, index: u16, value: BFValue)
        requires
            old(self).wf(),
            index < TAPE_LEN,
        ensures
            final(self).wf(),
            final(self).address_map == old(self).address_map,
            final(self).current_position == index,
            final(self).cells@ == old(self).cells@.update(index as int, BFCell { value, used: true }),
    {
        self.cells.set(index as usize, BFCell::new(value, true));
        self.current_position = index;
    }

    /// The cell becomes free; it keeps its value.
    fn free(&mut self, index: u16)
        requires
            old(self).wf(),
            index < TAPE_LEN,
        ensures
            final(self).wf(),
            final(self).address_map == old(self).address_map,
            final(self).current_position == old(self).current_position,
            final(self).cells@ == old(self).cells@.update(
                index as int,
                BFCell { value: old(self).cells@[index as int].value, used: false },
            ),
    {
        let value = self.cells[index as usize].value;
        self.cells.set(index as usize, BFCell::new(value, false));
    }

    /// The cell a variable was placed in.
    fn placed(&self, address: u16) -> (r: Option<u16>)
        requires
            self.wf(),
        ensures
            self.address_map@.contains_key(address) ==> r == Some(self.address_map@[address]),
            !self.address_map@.contains_key(address) ==> r is None,
            r matches Some(c) ==> c < TAPE_LEN,
    {
        match self.address_map.get(&address) {
            Some(c) => Some(*c),
            None => None,
        }
    }

    /// Every placed variable among `addresses` holds a value known only when running; the
    /// variables are taken in increasing order.
    fn mark_runtime(&mut self, addresses: &BTreeSet<u16>)
        requires
            old(self).wf(),
        ensures
            final(self).wf(),
            final(self).address_map == old(self).address_map,
            forall|c: int|
                0 <= c < TAPE_LEN ==> #[trigger] final(self).cells@[c] == if holds_marked(addresses@, old(self).address_map@, 65536, c) {
                    BFCell { value: BFValue::Runtime, used: true }
                } else {
                    old(self).cells@[c]
                },
            final(self).current_position == match last_marked(addresses@, old(self).address_map@, 65536) {
                Some(c) => c,
                None => old(self).current_position,
            },
    {
        let mut a: u32 = 0;
        while a < 65536
            invariant
                a <= 65536,
                self.wf(),
                self.address_map == old(self).address_map,
                forall|c: int|
                    0 <= c < TAPE_LEN ==> #[trigger] self.cells@[c] == if holds_marked(addresses@, old(self).address_map@, a as int, c) {
                        BFCell { value: BFValue::Runtime, used: true }
                    } else {
                        old(self).cells@[c]
                    },
                self.current_position == match last_marked(addresses@, old(self).address_map@, a as int) {
                    Some(c) => c,
                    None => old(self).current_position,
                },
            decreases 65536 - a,
        {
            if addresses.contains(&(a as u16)) {
                match self.placed(a as u16) {
                    Some(c) => self.set_value(c, BFValue::Runtime),
                    None => {},
                }
            }
            a = a + 1;
            proof {
                let m = old(self).address_map@;
                let b = (a - 1) as u16;
                assert((a - 1) as u16 == (a - 1) as int);
                assert forall|c: int| 0 <= c < TAPE_LEN implies holds_marked(addresses@, m, a as int, c) == (holds_marked(
                    addresses@,
                    m,
                    (a - 1) as int,
                    c,
                ) || (addresses@.contains(b) && m.contains_key(b) && m[b] == c)) by {
                    if holds_marked(addresses@, m, a as int, c) {
                        let x = choose|x: u16| #![trigger m[x]] x < a && addresses@.contains(x) && m.contains_key(x) && m[x] == c;
                        if x != b {
                            assert(x < a - 1);
                        }
                    }
                }
            }
        }
    }

    /// Compiles `program` into `builder`; `false` where a variable is used that was never
    /// placed, or no cell is free for a new one.
    #[verifier::spinoff_prover]
    #[verifier::rlimit(40)]
    fn compile_impl(&mut self, program: &ABFProgram, builder: &mut BFProgramBuilder) -> (ok: bool)
        requires
            old(self).wf(),
            old(builder).inv(),
        ensures
            final(self).wf(),
            final(builder).inv(),
            final(builder).program_stack@.len() == old(builder).program_stack@.len(),
            final(builder).loop_starts == old(builder).loop_starts,
            forall|k: int|
                0 <= k < old(builder).program_stack@.len() - 1 ==> #[trigger] final(builder).program_stack@[k]
                    == old(builder).program_stack@[k],
            program@.len() == 0 ==> ok && *final(self) == *old(self) && *final(builder) == *old(builder),
            program@.len() > 0 && uses_unplaced(program@[0], old(self).address_map@) ==> !ok,
            loop_free(program@) && well_used(program@) && old(self).address_map@ == Map::<u16, u16>::empty() && bf_fresh(old(self).cells@)
                && old(builder).program_stack@.len() == 1 && old(builder).program_stack@[0]@ == Seq::<SpecBFTree>::empty()
                && old(builder).current_position == 0 && ok ==> forall|input: Seq<u8>, fuel: nat|
                #[trigger] bf_agrees(run_seq(program@, start_state(input), fuel), run_bf_trees(final(builder).program_stack@[0]@, bf_start(input), fuel)),
            ok ==> placed_in_order(placement_events(program@), old(self).address_map@.dom()),
            ok ==> final(self).address_map@.dom().subset_of(old(self).address_map@.dom() + introductions(placement_events(program@))),
        decreases program,
    {
        let ghost g = loop_free(program@) && well_used(program@) && old(self).address_map@ == Map::<u16, u16>::empty() && bf_fresh(old(self).cells@)
                && old(builder).program_stack@.len() == 1 && old(builder).program_stack@[0]@ == Seq::<SpecBFTree>::empty()
                && old(builder).current_position == 0;
        proof {
            if g {
                assert(program@.take(0) =~= Seq::<SpecABF>::empty());
                assert(live_after(program@.take(0)) =~= Set::<u16>::empty());
                assert(pristine_after(program@.take(0)) =~= Set::<u16>::empty());
            }
        }
        let mut i: usize = 0;
        proof {
            assert(program@.take(0) =~= Seq::<SpecABF>::empty());
            assert(introductions(placement_events(program@.take(0))) =~= Set::<u16>::empty());
        }
        while i < program.instructions.len()
            invariant
                i <= program.instructions@.len(),
                self.wf(),
                builder.inv(),
                builder.program_stack@.len() == old(builder).program_stack@.len(),
                builder.loop_starts == old(builder).loop_starts,
                forall|k: int|
                    0 <= k < old(builder).program_stack@.len() - 1 ==> #[trigger] builder.program_stack@[k]
                        == old(builder).program_stack@[k],
                i == 0 ==> *self == *old(self) && *builder == *old(builder),
                i > 0 ==> !uses_unplaced(program@[0], old(self).address_map@),
                placed_in_order(placement_events(program@.take(i as int)), old(self).address_map@.dom()),
                self.address_map@.dom().subset_of(old(self).address_map@.dom() + introductions(placement_events(program@.take(i as int)))),
                g == (loop_free(program@) && well_used(program@) && old(self).address_map@ == Map::<u16, u16>::empty() && bf_fresh(
                    old(self).cells@,
                ) && old(builder).program_stack@.len() == 1 && old(builder).program_stack@[0]@ == Seq::<SpecBFTree>::empty()
                    && old(builder).current_position == 0),
                g ==> bf_shape(
                    self.address_map@,
                    self.cells@,
                    live_after(program@.take(i as int)),
                    pristine_after(program@.take(i as int)),
                ),
                g ==> forall|input: Seq<u8>, fuel: nat|
                    #[trigger] bf_related(
                        self.address_map@,
                        self.cells@,
                        builder.current_position,
                        live_after(program@.take(i as int)),
                        pristine_after(program@.take(i as int)),
                        run_seq(program@.take(i as int), start_state(input), fuel),
                        run_bf_trees(builder.program_stack@[0]@, bf_start(input), fuel),
                    ),
            decreases program.instructions@.len() - i,
        {
            proof {
                broadcast use vstd::std_specs::vec::axiom_vec_index_decreases;

                assert(decreases_to!(program.instructions => program.instructions[i as int]));
                assert(program@[i as int] == program.instructions@[i as int]@);
            }
            let ghost map_i = self.address_map@;
            let ghost cells_i = self.cells@;
            let ghost pos_i = builder.current_position;
            let ghost prog_i = builder.program_stack@[0]@;
            let ghost mut e: Seq<SpecBFTree> = Seq::empty();
            match &program.instructions[i] {
                ABFInstruction::New(address, value) => {
                    let expected_value = if builder.in_loop() {
                        None
                    } else {
                        Some(*value)
                    };
                    let bf_address = self.find_address(expected_value);
                    if bf_address == u16::MAX {
                        return false;
                    }
                    self.address_map.insert(*address, bf_address);
                    builder.move_to(bf_address);
                    if !builder.in_loop() {
                        match self.get_value(bf_address) {
                            BFValue::CompileTime(current_value) => {
                                builder.add(value.wrapping_sub(current_value));
                                proof {
                                    e = seq![SpecBFTree::Move(bf_address - pos_i), SpecBFTree::Add(value.wrapping_sub(current_value))];
                                }
                            },
                            BFValue::Runtime => {
                                builder.zero();
                                proof {
                                    if g {
                                        assert(!cells_i[bf_address as int].used);
                                    }
                                }
                            },
                        }
                    } else {
                        builder.zero();
                    }
                    self.set_value(bf_address, BFValue::CompileTime(*value));
                    proof {
                        if g {
                            assert(self.address_map@ == map_i.insert(*address, bf_address));
                        }
                        lemma_introduce_events(*address, map_i.dom(), self.address_map@.dom());
                    }
                },
                ABFInstruction::Read(address) => {
                    let bf_address = self.find_address(None);
                    if bf_address == u16::MAX {
                        return false;
                    }
                    self.address_map.insert(*address, bf_address);
                    builder.move_to(bf_address);
                    builder.read();
                    self.set_value(bf_address, BFValue::Runtime);
                    proof {
                        e = seq![SpecBFTree::Move(bf_address - pos_i), SpecBFTree::Read];
                        assert(self.address_map@ == map_i.insert(*address, bf_address));
                        lemma_introduce_events(*address, map_i.dom(), self.address_map@.dom());
                    }
                },
                ABFInstruction::Free(address) => {
                    match self.placed(*address) {
                        Some(bf_address) => self.free(bf_address),
                        None => return false,
                    }
                    proof {
                        lemma_use_events(*address, map_i.dom());
                    }
                },
                ABFInstruction::Write(address) => {
                    let bf_address = match self.placed(*address) {
                        Some(c) => c,
                        None => return false,
                    };
                    builder.move_to(bf_address);
                    builder.write();
                    self.current_position = bf_address;
                    proof {
                        lemma_use_events(*address, map_i.dom());
                        e = seq![SpecBFTree::Move(bf_address - pos_i), SpecBFTree::Write];
                    }
                },
                ABFInstruction::Add(address, amount) => {
                    let bf_address = match self.placed(*address) {
                        Some(c) => c,
                        None => return false,
                    };
                    builder.move_to(bf_address);
                    #[verifier::truncate]
                    let delta = *amount as u8;
                    builder.add(delta);
                    self.current_position = bf_address;
                    proof {
                        lemma_use_events(*address, map_i.dom());
                        e = seq![SpecBFTree::Move(bf_address - pos_i), SpecBFTree::Add(delta)];
                    }
                },
                ABFInstruction::While(address, body) => {
                    proof {
                        assert(decreases_to!(program.instructions[i as int] => program.instructions[i as int]->While_1));
                    }
                    let bf_address = match self.placed(*address) {
                        Some(c) => c,
                        None => return false,
                    };
                    builder.move_to(bf_address);
                    let modified_addresses = body.modified_addresses();
                    self.mark_runtime(&modified_addresses);
                    builder.begin_loop(bf_address);
                    let ghost map_b = self.address_map@;
                    let ok = self.compile_impl(body, builder);
                    builder.end_loop(bf_address);
                    if !ok {
                        return false;
                    }
                    self.mark_runtime(&modified_addresses);
                    self.set_value(bf_address, BFValue::CompileTime(0));
                    proof {
                        assert(map_b == map_i);
                        lemma_use_events(*address, map_i.dom());
                        lemma_events_step(seq![(false, *address)], placement_events(body@), map_i.dom(), map_i.dom(), self.address_map@.dom());
                        assert(!loop_free(program@));
                    }
                },
            }
            proof {
                let x = program@[i as int];
                let pre = program@.take(i as int);
                assert(program@.take(i + 1).drop_last() =~= pre);
                assert(program@.take(i + 1).last() == x);
                assert(placement_events(program@.take(i + 1)) == placement_events(pre) + instruction_events(x));
                lemma_events_step(placement_events(pre), instruction_events(x), old(self).address_map@.dom(), map_i.dom(), self.address_map@.dom());
            }
            proof {
                if g {
                    let x = program@[i as int];
                    let pre = program@.take(i as int);
                    assert(program@.take(i + 1).drop_last() =~= pre);
                    assert(program@.take(i + 1).last() == x);
                    assert(pre.push(x) =~= program@.take(i + 1));
                    lemma_well_used_take(program@, i + 1);
                    assert(use_ok(live_after(pre), pristine_after(pre), x));
                    assert(bf_step(map_i, cells_i, pos_i, self.address_map@, self.cells@, builder.current_position, x, e));
                    lemma_bf_shape_step(
                        map_i,
                        cells_i,
                        pos_i,
                        live_after(pre),
                        pristine_after(pre),
                        self.address_map@,
                        self.cells@,
                        builder.current_position,
                        x,
                        e,
                    );
                    assert(builder.program_stack@[0]@ =~= prog_i + e);
                    assert forall|input: Seq<u8>, fuel: nat|
                        #[trigger] bf_related(
                            self.address_map@,
                            self.cells@,
                            builder.current_position,
                            live_after(program@.take(i + 1)),
                            pristine_after(program@.take(i + 1)),
                            run_seq(program@.take(i + 1), start_state(input), fuel),
                            run_bf_trees(builder.program_stack@[0]@, bf_start(input), fuel),
                        ) by {
                        lemma_bf_compose(
                            map_i,
                            cells_i,
                            pos_i,
                            live_after(pre),
                            pristine_after(pre),
                            self.address_map@,
                            self.cells@,
                            builder.current_position,
                            pre,
                            x,
                            prog_i,
                            e,
                            input,
                            fuel,
                        );
                    }
                }
            }
            i = i + 1;
        }
        proof {
            assert(program@.take(i as int) =~= program@);
            if g {
                assert forall|input: Seq<u8>, fuel: nat|
                    #[trigger] bf_agrees(run_seq(program@, start_state(input), fuel), run_bf_trees(builder.program_stack@[0]@, bf_start(input), fuel)) by {
                    assert(bf_related(
                        self.address_map@,
                        self.cells@,
                        builder.current_position,
                        live_after(program@.take(i as int)),
                        pristine_after(program@.take(i as int)),
                        run_seq(program@.take(i as int), start_state(input), fuel),
                        run_bf_trees(builder.program_stack@[0]@, bf_start(input), fuel),
                    ));
                }
            }
        }
        true
    }

    /// Compiles an ABF program to Brainfuck that never moves the pointer off the tape, whatever
    /// it reads; `None` where the program uses a variable that was never declared or freed, or
    /// needs more than [`TAPE_LEN`] cells at once.
    pub fn compile_to_bf(program: &ABFProgram) -> (r: Option<BFProgram>)
        ensures
            r matches Some(p) ==> trees_path(p@, 0) is Some,
            program@.len() == 0 ==> (r matches Some(p) && p@ == Seq::<SpecBFTree>::empty()),
            program@.len() > 0 && !(program@[0] is New || program@[0] is Read) ==> r is None,
            r is Some ==> placed_in_order(placement_events(program@), Set::empty()),
            loop_free(program@) && well_used(program@) ==> (r matches Some(p) ==> forall|input: Seq<u8>, fuel: nat|
                #[trigger] bf_agrees(run_seq(program@, start_state(input), fuel), run_bf_trees(p@, bf_start(input), fuel))),
    {
        let mut compiler = Self::new();
        let mut builder = BFProgramBuilder::new();
        assert(compiler.address_map@.dom() =~= Set::<u16>::empty());
        if compiler.compile_impl(program, &mut builder) {
            Some(builder.build_program())
        } else {
            None
        }
    }
}

} // verus!
