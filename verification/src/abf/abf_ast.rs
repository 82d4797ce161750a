use vstd::prelude::*;

use crate::text::{append_text, decimal, decimal_text, push_spaces, signed_decimal, signed_text, spaces};
use super::abf_semantics::{lemma_run_kept, observed_seq, observed_set, run_seq, AbfState};

use std::collections::{BTreeMap, BTreeSet};

verus! {

broadcast use vstd::std_specs::btree::group_btree_axioms;

/// An instruction of ABF ("absolute Brainfuck"): Brainfuck over numbered variables instead of
/// a moving pointer.
#[derive(Debug)]
pub enum ABFInstruction {
    /// Declares the variable with a value.
    New(u16, u8),
    /// Declares the variable with a byte of input.
    Read(u16),
    /// Ends the life of the variable.
    Free(u16),
    /// Prints the variable.
    Write(u16),
    /// Adds to the variable.
    Add(u16, i8),
    /// Runs the body while the variable is not zero.
    While(u16, ABFProgram),
}

/// A sequence of ABF instructions.
#[derive(Debug)]
pub struct ABFProgram {
    pub instructions: Vec<ABFInstruction>,
}

/// The mathematical model of an [`ABFInstruction`].
pub enum SpecABF {
    New(u16, u8),
    Read(u16),
    Free(u16),
    Write(u16),
    Add(u16, i8),
    While(u16, Seq<SpecABF>),
}

impl View for ABFInstruction {
    type V = SpecABF;

    open spec fn view(&self) -> SpecABF
        decreases self,
    {
        match self {
            ABFInstruction::New(a, v) => SpecABF::New(*a, *v),
            ABFInstruction::Read(a) => SpecABF::Read(*a),
            ABFInstruction::Free(a) => SpecABF::Free(*a),
            ABFInstruction::Write(a) => SpecABF::Write(*a),
            ABFInstruction::Add(a, v) => SpecABF::Add(*a, *v),
            ABFInstruction::While(a, body) => SpecABF::While(*a, abf_view(body.instructions@)),
        }
    }
}

/// The models of a sequence of instructions.
pub open spec fn abf_view(s: Seq<ABFInstruction>) -> Seq<SpecABF>
    decreases s,
{
    Seq::new(
        s.len(),
        |i: int|
            if 0 <= i < s.len() {
                s[i]@
            } else {
                SpecABF::Free(0)
            },
    )
}

impl View for ABFProgram {
    type V = Seq<SpecABF>;

    open spec fn view(&self) -> Seq<SpecABF> {
        abf_view(self.instructions@)
    }
}

/// The variable an instruction is about.
pub open spec fn instruction_address(i: SpecABF) -> u16 {
    match i {
        SpecABF::New(a, _) => a,
        SpecABF::Read(a) => a,
        SpecABF::Free(a) => a,
        SpecABF::Write(a) => a,
        SpecABF::Add(a, _) => a,
        SpecABF::While(a, _) => a,
    }
}

/// The variables an instruction changes: those it reads into or adds to, and, for a loop, its
/// condition and all that its body changes.
pub open spec fn modified_set(i: SpecABF) -> Set<u16>
    decreases i,
{
    match i {
        SpecABF::Read(a) => set![a],
        SpecABF::Add(a, _) => set![a],
        SpecABF::While(a, body) => set![a] + seq_modified(body),
        _ => Set::empty(),
    }
}

/// The variables a sequence of instructions changes.
pub open spec fn seq_modified(s: Seq<SpecABF>) -> Set<u16>
    decreases s,
{
    if s.len() == 0 {
        Set::empty()
    } else {
        seq_modified(s.drop_last()) + modified_set(s.last())
    }
}

/// The variables an instruction mentions, its loop body included.
pub open spec fn used_set(i: SpecABF) -> Set<u16>
    decreases i,
{
    match i {
        SpecABF::While(a, body) => set![a] + seq_used(body),
        _ => set![instruction_address(i)],
    }
}

/// The variables a sequence of instructions mentions.
pub open spec fn seq_used(s: Seq<SpecABF>) -> Set<u16>
    decreases s,
{
    if s.len() == 0 {
        Set::empty()
    } else {
        seq_used(s.drop_last()) + used_set(s.last())
    }
}

/// The instruction declares the variable `a`.
pub open spec fn declares(i: SpecABF, a: u16) -> bool {
    ||| i == SpecABF::Read(a)
    ||| (i is New && i->New_0 == a)
}

/// The program with every `Free` removed, in loop bodies too.
pub open spec fn deep_strip(s: Seq<SpecABF>) -> Seq<SpecABF>
    decreases s,
{
    if s.len() == 0 {
        Seq::empty()
    } else {
        match s.last() {
            SpecABF::Free(_) => deep_strip(s.drop_last()),
            SpecABF::While(a, body) => deep_strip(s.drop_last()).push(SpecABF::While(a, deep_strip(body))),
            other => deep_strip(s.drop_last()).push(other),
        }
    }
}

/// What one instruction leaves in [`deep_strip`].
pub open spec fn strip_one(x: SpecABF) -> Seq<SpecABF> {
    match x {
        SpecABF::Free(_) => Seq::empty(),
        SpecABF::While(a, body) => seq![SpecABF::While(a, deep_strip(body))],
        _ => seq![x],
    }
}

/// What one more instruction adds to [`deep_strip`].
pub proof fn lemma_deep_strip_push(s: Seq<SpecABF>, x: SpecABF)
    ensures
        deep_strip(s.push(x)) == deep_strip(s) + strip_one(x),
        x is Free ==> deep_strip(s.push(x)) == deep_strip(s),
{
    assert(s.push(x).drop_last() =~= s);
    assert(s.push(x).last() == x);
    match x {
        SpecABF::Free(_) => {
            assert(deep_strip(s) + strip_one(x) =~= deep_strip(s));
        },
        _ => {
            assert(deep_strip(s.push(x)) =~= deep_strip(s) + strip_one(x));
        },
    }
}

/// Nothing mentions a variable after the top-level `Free` of it, and every variable declared at
/// the top level is freed at the top level later on.
pub open spec fn frees_well_placed(s: Seq<SpecABF>) -> bool {
    &&& forall|j1: int, j2: int, a: u16|
        #![trigger s[j1], used_set(s[j2]).contains(a)]
        0 <= j1 < j2 < s.len() && s[j1] == SpecABF::Free(a) ==> !used_set(s[j2]).contains(a)
    &&& forall|j: int, a: u16|
        0 <= j < s.len() && #[trigger] declares(s[j], a) ==> exists|j2: int|
            j < j2 < s.len() && s[j2] == SpecABF::Free(a)
}

/// The `Free` at `p` follows the instruction at `j`, which mentions its variable, past frees
/// only.
pub open spec fn follows_use(s: Seq<SpecABF>, p: int, j: int) -> bool {
    &&& 0 <= j < p
    &&& !(s[j] is Free)
    &&& used_set(s[j]).contains(s[p]->Free_0)
    &&& forall|q: int| j < q < p ==> (#[trigger] s[q]) is Free
}

/// Every top-level `Free` follows, past other frees only, an instruction that mentions its
/// variable.
pub open spec fn frees_follow_use(s: Seq<SpecABF>) -> bool {
    forall|p: int| 0 <= p < s.len() && (#[trigger] s[p]) is Free ==> exists|j: int| #[trigger] follows_use(s, p, j)
}

/// Pushing an instruction that is no `Free` keeps every `Free` after a mention.
proof fn lemma_follow_push_plain(s: Seq<SpecABF>, x: SpecABF)
    requires
        frees_follow_use(s),
        !(x is Free),
    ensures
        frees_follow_use(s.push(x)),
{
    let t = s.push(x);
    assert forall|p: int| 0 <= p < t.len() && (#[trigger] t[p]) is Free implies exists|j: int| #[trigger] follows_use(t, p, j) by {
        assert(t[p] == s[p]);
        let j = choose|j: int| #[trigger] follows_use(s, p, j);
        assert(t[j] == s[j]);
        assert forall|q: int| j < q < p implies (#[trigger] t[q]) is Free by {
            assert(t[q] == s[q]);
        }
        assert(follows_use(t, p, j));
    }
}

/// Pushing a `Free` of a variable that the last instruction other than a `Free` mentions
/// keeps every `Free` after a mention.
proof fn lemma_follow_push_free(s: Seq<SpecABF>, b: u16, j: int)
    requires
        frees_follow_use(s),
        0 <= j < s.len(),
        !(s[j] is Free),
        used_set(s[j]).contains(b),
        forall|q: int| j < q < s.len() ==> (#[trigger] s[q]) is Free,
    ensures
        frees_follow_use(s.push(SpecABF::Free(b))),
{
    let t = s.push(SpecABF::Free(b));
    assert forall|p: int| 0 <= p < t.len() && (#[trigger] t[p]) is Free implies exists|j2: int| #[trigger] follows_use(t, p, j2) by {
        if p < s.len() {
            assert(t[p] == s[p]);
            let j2 = choose|j2: int| #[trigger] follows_use(s, p, j2);
            assert(t[j2] == s[j2]);
            assert forall|q: int| j2 < q < p implies (#[trigger] t[q]) is Free by {
                assert(t[q] == s[q]);
            }
            assert(follows_use(t, p, j2));
        } else {
            assert(t[j] == s[j]);
            assert forall|q: int| j < q < p implies (#[trigger] t[q]) is Free by {
                assert(t[q] == s[q]);
            }
            assert(follows_use(t, p, j));
        }
    }
}

/// Nothing mentions a variable after the top-level `Free` of it.
pub open spec fn frees_ordered(s: Seq<SpecABF>) -> bool {
    forall|j1: int, j2: int, a: u16|
        #![trigger s[j1], used_set(s[j2]).contains(a)]
        0 <= j1 < j2 < s.len() && s[j1] == SpecABF::Free(a) ==> !used_set(s[j2]).contains(a)
}

proof fn lemma_frees_ordered_push(s: Seq<SpecABF>, y: SpecABF)
    requires
        frees_ordered(s),
        forall|j: int, a: u16| 0 <= j < s.len() && s[j] == SpecABF::Free(a) ==> !used_set(y).contains(a),
    ensures
        frees_ordered(s.push(y)),
{
    let t = s.push(y);
    assert forall|j1: int, j2: int, a: u16|
        #![trigger t[j1], used_set(t[j2]).contains(a)]
        0 <= j1 < j2 < t.len() && t[j1] == SpecABF::Free(a) implies !used_set(t[j2]).contains(a) by {
        assert(t[j1] == s[j1]);
        if j2 < s.len() {
            assert(t[j2] == s[j2]);
        }
    }
}

/// `last` maps each variable declared in the first `n` instructions of `s` to the position of
/// the last of those instructions that mentions it.
pub open spec fn last_uses_spec(s: Seq<SpecABF>, n: int, last: Map<u16, usize>) -> bool {
    &&& forall|a: u16|
        last.contains_key(a) <==> exists|d: int| 0 <= d < n && #[trigger] declares(s[d], a)
    &&& forall|a: u16|
        #[trigger] last.contains_key(a) ==> {
            &&& last[a] < n
            &&& used_set(s[last[a] as int]).contains(a)
            &&& forall|j: int| last[a] < j < n ==> !(#[trigger] used_set(s[j])).contains(a)
        }
}

proof fn lemma_abf_view_push(s: Seq<ABFInstruction>, x: ABFInstruction)
    ensures
        abf_view(s.push(x)) == abf_view(s).push(x@),
{
    assert(abf_view(s.push(x)) =~= abf_view(s).push(x@));
}

proof fn lemma_seq_set_take(s: Seq<SpecABF>, i: int)
    requires
        0 <= i < s.len(),
    ensures
        seq_modified(s.take(i + 1)) == seq_modified(s.take(i)) + modified_set(s[i]),
        seq_used(s.take(i + 1)) == seq_used(s.take(i)) + used_set(s[i]),
{
    assert(s.take(i + 1).drop_last() =~= s.take(i));
}

/// A variable a sequence mentions is mentioned by one of its instructions.
pub proof fn lemma_seq_used_index(s: Seq<SpecABF>, a: u16)
    ensures
        seq_used(s).contains(a) <==> exists|k: int| 0 <= k < s.len() && #[trigger] used_set(s[k]).contains(a),
    decreases s.len(),
{
    if s.len() > 0 {
        lemma_seq_used_index(s.drop_last(), a);
        if seq_used(s).contains(a) {
            if !used_set(s.last()).contains(a) {
                let k = choose|k: int| 0 <= k < s.drop_last().len() && #[trigger] used_set(s.drop_last()[k]).contains(a);
                assert(used_set(s[k]).contains(a));
            }
        }
        if exists|k: int| 0 <= k < s.len() && #[trigger] used_set(s[k]).contains(a) {
            let k = choose|k: int| 0 <= k < s.len() && #[trigger] used_set(s[k]).contains(a);
            if k < s.len() - 1 {
                assert(used_set(s.drop_last()[k]).contains(a));
            }
        }
    }
}

/// The last use or declaration of `a` in a sequence run in order, loop bodies included:
/// `Some(false)` when it is a `New`, `Some(true)` when it reads, prints or tests `a`,
/// `None` when nothing but additions and frees mention `a`.
pub open spec fn last_usage(s: Seq<SpecABF>, a: u16) -> Option<bool>
    decreases s,
{
    if s.len() == 0 {
        None
    } else {
        match instruction_last_usage(s.last(), a) {
            Some(b) => Some(b),
            None => last_usage(s.drop_last(), a),
        }
    }
}

/// The last use or declaration of `a` in one instruction, as [`last_usage`] counts them.
pub open spec fn instruction_last_usage(i: SpecABF, a: u16) -> Option<bool>
    decreases i,
{
    match i {
        SpecABF::New(x, _) => if x == a {
            Some(false)
        } else {
            None
        },
        SpecABF::Read(x) => if x == a {
            Some(true)
        } else {
            None
        },
        SpecABF::Write(x) => if x == a {
            Some(true)
        } else {
            None
        },
        SpecABF::While(x, body) => match last_usage(body, a) {
            Some(b) => Some(b),
            None => if x == a {
                Some(true)
            } else {
                None
            },
        },
        _ => None,
    }
}

/// The instructions about variables in `keep`; a loop is kept with the kept part of its body.
pub open spec fn keep_seq(s: Seq<SpecABF>, keep: Set<u16>) -> Seq<SpecABF>
    decreases s,
{
    if s.len() == 0 {
        Seq::empty()
    } else {
        let rest = keep_seq(s.drop_last(), keep);
        let i = s.last();
        if keep.contains(instruction_address(i)) {
            match i {
                SpecABF::While(a, body) => rest.push(SpecABF::While(a, keep_seq(body, keep))),
                _ => rest.push(i),
            }
        } else {
            rest
        }
    }
}

/// The declarations with `New` and the observations (reading into, printing, testing) of the
/// instructions, in the order a run meets them: `(true, a)` for a `New` of `a`, `(false, a)`
/// where `a` is observed; a loop's test comes before its body.
pub open spec fn usage_events(s: Seq<SpecABF>) -> Seq<(bool, u16)>
    decreases s,
{
    if s.len() == 0 {
        Seq::empty()
    } else {
        usage_events(s.drop_last()) + instruction_usage_events(s.last())
    }
}

/// The declarations with `New` and the observations of one instruction, in order.
pub open spec fn instruction_usage_events(x: SpecABF) -> Seq<(bool, u16)>
    decreases x,
{
    match x {
        SpecABF::New(a, _) => seq![(true, a)],
        SpecABF::Read(a) => seq![(false, a)],
        SpecABF::Write(a) => seq![(false, a)],
        SpecABF::While(a, b) => seq![(false, a)] + usage_events(b),
        _ => Seq::empty(),
    }
}

/// No variable gets a `New` after it was observed.
pub open spec fn no_new_after_observe(ev: Seq<(bool, u16)>) -> bool {
    forall|j: int, k: int| #![trigger ev[j], ev[k]] 0 <= j < k < ev.len() && !ev[j].0 ==> ev[k] != (true, ev[j].1)
}

/// Whether the last event about `a` is an observation.
spec fn last_event(ev: Seq<(bool, u16)>, a: u16) -> Option<bool>
    decreases ev.len(),
{
    if ev.len() == 0 {
        None
    } else if ev.last().1 == a {
        Some(!ev.last().0)
    } else {
        last_event(ev.drop_last(), a)
    }
}

proof fn lemma_last_event_append(e1: Seq<(bool, u16)>, e2: Seq<(bool, u16)>, a: u16)
    ensures
        last_event(e1 + e2, a) == match last_event(e2, a) {
            Some(b) => Some(b),
            None => last_event(e1, a),
        },
    decreases e2.len(),
{
    if e2.len() == 0 {
        assert(e1 + e2 =~= e1);
    } else {
        assert((e1 + e2).drop_last() =~= e1 + e2.drop_last());
        assert((e1 + e2).last() == e2.last());
        lemma_last_event_append(e1, e2.drop_last(), a);
    }
}

/// The last use or declaration that [`last_usage`] finds is the last event about the variable.
proof fn lemma_last_usage_events(s: Seq<SpecABF>, a: u16)
    ensures
        last_usage(s, a) == last_event(usage_events(s), a),
    decreases s,
{
    if s.len() > 0 {
        let p = s.drop_last();
        let x = s.last();
        lemma_last_usage_events(p, a);
        lemma_last_event_append(usage_events(p), instruction_usage_events(x), a);
        assert(usage_events(s) == usage_events(p) + instruction_usage_events(x));
        assert(last_usage(s, a) == match instruction_last_usage(x, a) {
            Some(bb) => Some(bb),
            None => last_usage(p, a),
        });
        match x {
            SpecABF::While(c, b) => {
                assert(decreases_to!(s => s[s.len() - 1]));
                assert(decreases_to!(s[s.len() - 1] => b));
                lemma_last_usage_events(b, a);
                let h = seq![(false, c)];
                lemma_last_event_append(h, usage_events(b), a);
                assert(h.drop_last() =~= Seq::<(bool, u16)>::empty());
                assert(last_event(h.drop_last(), a) == None::<bool>);
                assert(h.last() == (false, c));
                assert(instruction_usage_events(x) == h + usage_events(b));
                assert(last_usage(s, a) == last_event(usage_events(s), a));
            },
            SpecABF::New(c, _) => {
                let h = seq![(true, c)];
                assert(h.drop_last() =~= Seq::<(bool, u16)>::empty());
                assert(last_event(h.drop_last(), a) == None::<bool>);
                assert(h.last() == (true, c));
                assert(last_event(h, a) == if c == a { Some(false) } else { None });
                assert(instruction_usage_events(x) =~= h);
                assert(instruction_last_usage(x, a) == if c == a { Some(false) } else { None });
                assert(last_usage(s, a) == last_event(usage_events(s), a));
            },
            SpecABF::Read(c) => {
                let h = seq![(false, c)];
                assert(h.drop_last() =~= Seq::<(bool, u16)>::empty());
                assert(last_event(h.drop_last(), a) == None::<bool>);
                assert(h.last() == (false, c));
                assert(last_event(h, a) == if c == a { Some(true) } else { None });
                assert(instruction_usage_events(x) =~= h);
                assert(instruction_last_usage(x, a) == if c == a { Some(true) } else { None });
                assert(last_usage(s, a) == last_event(usage_events(s), a));
            },
            SpecABF::Write(c) => {
                let h = seq![(false, c)];
                assert(h.drop_last() =~= Seq::<(bool, u16)>::empty());
                assert(last_event(h.drop_last(), a) == None::<bool>);
                assert(h.last() == (false, c));
                assert(last_event(h, a) == if c == a { Some(true) } else { None });
                assert(instruction_usage_events(x) =~= h);
                assert(instruction_last_usage(x, a) == if c == a { Some(true) } else { None });
                assert(last_usage(s, a) == last_event(usage_events(s), a));
            },
            _ => {
                assert(instruction_usage_events(x) =~= Seq::<(bool, u16)>::empty());
                assert(last_usage(s, a) == last_event(usage_events(s), a));
            },
        }
    } else {
        assert(usage_events(s) =~= Seq::<(bool, u16)>::empty());
        assert(last_event(usage_events(s), a) == None::<bool>);
        assert(last_usage(s, a) == last_event(usage_events(s), a));
    }
}

/// A variable the instructions observe has an observation among their events.
proof fn lemma_observed_events(s: Seq<SpecABF>, a: u16)
    requires
        observed_seq(s).contains(a),
    ensures
        exists|j: int| 0 <= j < usage_events(s).len() && #[trigger] usage_events(s)[j] == (false, a),
    decreases s, 0int,
{
    let p = s.drop_last();
    let e1 = usage_events(p);
    let e2 = instruction_usage_events(s.last());
    assert(usage_events(s) == e1 + e2);
    if observed_seq(p).contains(a) {
        lemma_observed_events(p, a);
        let j = choose|j: int| 0 <= j < e1.len() && #[trigger] e1[j] == (false, a);
        assert((e1 + e2)[j] == e1[j]);
    } else {
        lemma_instruction_observed_events(s.last(), a);
        let j = choose|j: int| 0 <= j < e2.len() && #[trigger] e2[j] == (false, a);
        assert((e1 + e2)[e1.len() + j] == e2[j]);
    }
}

proof fn lemma_instruction_observed_events(x: SpecABF, a: u16)
    requires
        observed_set(x).contains(a),
    ensures
        exists|j: int| 0 <= j < instruction_usage_events(x).len() && #[trigger] instruction_usage_events(x)[j] == (false, a),
    decreases x, 0int,
{
    let ev = instruction_usage_events(x);
    match x {
        SpecABF::While(c, b) => {
            if c == a {
                assert(ev[0] == (false, a));
            } else {
                lemma_observed_events(b, a);
                let j = choose|j: int| 0 <= j < usage_events(b).len() && #[trigger] usage_events(b)[j] == (false, a);
                assert(ev[1 + j] == usage_events(b)[j]);
            }
        },
        _ => {
            assert(ev[0] == (false, a));
        },
    }
}

/// Where an observation of `a` comes before any `New` of it in the events, the last event
/// about `a` is an observation.
proof fn lemma_last_event_observed(ev: Seq<(bool, u16)>, a: u16, j: int)
    requires
        no_new_after_observe(ev),
        0 <= j < ev.len(),
        ev[j] == (false, a),
    ensures
        last_event(ev, a) == Some(true),
    decreases ev.len(),
{
    if ev.last().1 == a {
        if ev.last().0 {
            assert(j < ev.len() - 1);
            assert(ev[ev.len() - 1] == (true, a));
        }
    } else {
        let p = ev.drop_last();
        assert(j < ev.len() - 1);
        assert(p[j] == ev[j]);
        assert forall|j2: int, k2: int| #![trigger p[j2], p[k2]] 0 <= j2 < k2 < p.len() && !p[j2].0 implies p[k2] != (true, p[j2].1) by {
            assert(p[j2] == ev[j2] && p[k2] == ev[k2]);
        }
        lemma_last_event_observed(p, a, j);
    }
}

/// Clearing unused variables keeps every variable that the program reads into, prints or
/// tests, where no variable gets a `New` after it was observed (a later `New` with no
/// observation after it makes the variable unused, and its earlier reads go with it).
pub proof fn lemma_observed_kept(s: Seq<SpecABF>)
    requires
        no_new_after_observe(usage_events(s)),
    ensures
        observed_seq(s).subset_of(used_variables(s)),
{
    assert forall|a: u16| observed_seq(s).contains(a) implies used_variables(s).contains(a) by {
        lemma_observed_events(s, a);
        let j = choose|j: int| 0 <= j < usage_events(s).len() && #[trigger] usage_events(s)[j] == (false, a);
        lemma_last_event_observed(usage_events(s), a, j);
        lemma_last_usage_events(s, a);
    }
}

/// The variables whose last use in `s` is not a fresh declaration.
pub open spec fn used_variables(s: Seq<SpecABF>) -> Set<u16> {
    Set::new(|a: u16| last_usage(s, a) == Some(true))
}

/// The usage map `m` after the usages of `s`.
pub open spec fn usage_after(m: Map<u16, bool>, s: Seq<SpecABF>) -> Map<u16, bool> {
    Map::new(
        |a: u16| m.contains_key(a) || last_usage(s, a) is Some,
        |a: u16|
            match last_usage(s, a) {
                Some(b) => b,
                None => m[a],
            },
    )
}

/// The elements of `v` in reverse order.
pub fn reversed<T>(v: Vec<T>) -> (r: Vec<T>)
    ensures
        r@.len() == v@.len(),
        forall|j: int| 0 <= j < v@.len() ==> #[trigger] r@[j] == v@[v@.len() - 1 - j],
{
    let ghost orig = v@;
    let mut v = v;
    let mut r: Vec<T> = Vec::new();
    while v.len() > 0
        invariant
            v@.len() + r@.len() == orig.len(),
            v@ == orig.take(v@.len() as int),
            forall|j: int| 0 <= j < r@.len() ==> #[trigger] r@[j] == orig[orig.len() - 1 - j],
        decreases v@.len(),
    {
        let x = v.pop().unwrap();
        r.push(x);
        assert(v@ =~= orig.take(v@.len() as int));
    }
    r
}

impl ABFInstruction {
    /// The variable the instruction is about.
    pub fn relevant_address(&self) -> (r: Option<u16>)
        ensures
            r == Some(instruction_address(self@)),
    {
        match self {
            ABFInstruction::New(x, _) => Some(*x),
            ABFInstruction::Read(x) => Some(*x),
            ABFInstruction::Free(x) => Some(*x),
            ABFInstruction::Write(x) => Some(*x),
            ABFInstruction::Add(x, _) => Some(*x),
            ABFInstruction::While(x, _) => Some(*x),
        }
    }

    /// The variables the instruction mentions, as a list that may repeat them.
    fn used_address_list_of(&self) -> (r: Vec<u16>)
        ensures
            forall|a: u16| r@.contains(a) <==> used_set(self@).contains(a),
    {
        match self {
            ABFInstruction::While(address, body) => {
                let inner = body.used_address_list();
                let mut list: Vec<u16> = Vec::new();
                list.push(*address);
                let ghost one = list@;
                let mut i: usize = 0;
                while i < inner.len()
                    invariant
                        i <= inner@.len(),
                        list@ == one + inner@.take(i as int),
                    decreases inner@.len() - i,
                {
                    list.push(inner[i]);
                    i = i + 1;
                    assert(list@ =~= one + inner@.take(i as int));
                }
                assert(inner@.take(i as int) =~= inner@);
                assert forall|a: u16| list@.contains(a) <==> used_set(self@).contains(a) by {
                    if list@.contains(a) && a != *address {
                        let k = choose|k: int| 0 <= k < list@.len() && list@[k] == a;
                        assert(inner@[k - 1] == a);
                    }
                    if inner@.contains(a) {
                        let k = choose|k: int| 0 <= k < inner@.len() && inner@[k] == a;
                        assert(list@[k + 1] == a);
                    }
                    if a == *address {
                        assert(list@[0] == a);
                    }
                }
                list
            },
            _ => {
                let a = match self.relevant_address() {
                    Some(a) => a,
                    None => 0,
                };
                let mut list: Vec<u16> = Vec::new();
                list.push(a);
                assert(list@[0] == a);
                assert forall|x: u16| list@.contains(x) <==> used_set(self@).contains(x) by {
                    if list@.contains(x) {
                        let k = choose|k: int| 0 <= k < list@.len() && list@[k] == x;
                    }
                }
                list
            },
        }
    }

    fn collect_modified_addresses(&self, addresses: &mut BTreeSet<u16>)
        ensures
            final(addresses)@ == old(addresses)@ + modified_set(self@),
        decreases self,
    {
        match self {
            ABFInstruction::Read(address) | ABFInstruction::Add(address, _) => {
                addresses.insert(*address);
                assert(final(addresses)@ =~= old(addresses)@ + modified_set(self@));
            },
            ABFInstruction::While(address, body) => {
                addresses.insert(*address);
                let ghost mid = addresses@;
                let ghost s = body@;
                let mut i: usize = 0;
                while i < body.instructions.len()
                    invariant
                        i <= body.instructions@.len(),
                        s == body@,
                        *self == ABFInstruction::While(*address, *body),
                        addresses@ == mid + seq_modified(s.take(i as int)),
                    decreases body.instructions@.len() - i,
                {
                    proof {
                        lemma_seq_set_take(s, i as int);
                        broadcast use vstd::std_specs::vec::axiom_vec_index_decreases;

                        assert(decreases_to!(body.instructions => body.instructions[i as int]));
                        assert(decreases_to!(*self => self->While_1));
                    }
                    body.instructions[i].collect_modified_addresses(addresses);
                    assert(addresses@ =~= mid + seq_modified(s.take(i + 1)));
                    i = i + 1;
                }
                assert(s.take(i as int) =~= s);
                assert(addresses@ =~= old(addresses)@ + modified_set(self@));
            },
            _ => {
                assert(addresses@ =~= old(addresses)@ + modified_set(self@));
            },
        }
    }

    fn collect_used_addresses(&self, addresses: &mut BTreeSet<u16>)
        ensures
            final(addresses)@ == old(addresses)@ + used_set(self@),
        decreases self,
    {
        match self {
            ABFInstruction::New(address, _)
            | ABFInstruction::Read(address)
            | ABFInstruction::Add(address, _)
            | ABFInstruction::Free(address)
            | ABFInstruction::Write(address) => {
                addresses.insert(*address);
                assert(final(addresses)@ =~= old(addresses)@ + used_set(self@));
            },
            ABFInstruction::While(address, body) => {
                addresses.insert(*address);
                let ghost mid = addresses@;
                let ghost s = body@;
                let mut i: usize = 0;
                while i < body.instructions.len()
                    invariant
                        i <= body.instructions@.len(),
                        s == body@,
                        *self == ABFInstruction::While(*address, *body),
                        addresses@ == mid + seq_used(s.take(i as int)),
                    decreases body.instructions@.len() - i,
                {
                    proof {
                        lemma_seq_set_take(s, i as int);
                        broadcast use vstd::std_specs::vec::axiom_vec_index_decreases;

                        assert(decreases_to!(body.instructions => body.instructions[i as int]));
                        assert(decreases_to!(*self => self->While_1));
                    }
                    body.instructions[i].collect_used_addresses(addresses);
                    assert(addresses@ =~= mid + seq_used(s.take(i + 1)));
                    i = i + 1;
                }
                assert(s.take(i as int) =~= s);
                assert(addresses@ =~= old(addresses)@ + used_set(self@));
            },
        }
    }
}

impl Clone for ABFInstruction {
    fn clone(&self) -> (r: Self)
        ensures
            r@ == self@,
        decreases self,
    {
        match self {
            ABFInstruction::New(a, v) => ABFInstruction::New(*a, *v),
            ABFInstruction::Read(a) => ABFInstruction::Read(*a),
            ABFInstruction::Free(a) => ABFInstruction::Free(*a),
            ABFInstruction::Write(a) => ABFInstruction::Write(*a),
            ABFInstruction::Add(a, v) => ABFInstruction::Add(*a, *v),
            ABFInstruction::While(a, body) => {
                proof {
                    assert(decreases_to!(*self => self->While_1));
                }
                ABFInstruction::While(*a, body.clone())
            },
        }
    }
}

impl Clone for ABFProgram {
    fn clone(&self) -> (r: Self)
        ensures
            r@ == self@,
        decreases self,
    {
        let mut result: Vec<ABFInstruction> = Vec::new();
        let mut i: usize = 0;
        while i < self.instructions.len()
            invariant
                i <= self.instructions@.len(),
                result@.len() == i,
                forall|k: int| 0 <= k < i ==> (#[trigger] result@[k])@ == self.instructions@[k]@,
            decreases self.instructions@.len() - i,
        {
            proof {
                broadcast use vstd::std_specs::vec::axiom_vec_index_decreases;

                assert(decreases_to!(self.instructions => self.instructions[i as int]));
            }
            result.push(self.instructions[i].clone());
            i = i + 1;
        }
        let r = ABFProgram { instructions: result };
        assert(r@ =~= self@);
        r
    }
}

impl ABFProgram {
    pub fn new(instructions: Vec<ABFInstruction>) -> (r: Self)
        ensures
            r.instructions == instructions,
    {
        Self { instructions }
    }

    pub fn add_instruction(&mut self, instruction: ABFInstruction)
        ensures
            final(self)@ == old(self)@.push(instruction@),
    {
        self.instructions.push(instruction);
        proof {
            lemma_abf_view_push(old(self).instructions@, instruction);
        }
    }

    /// The variables the program mentions.
    pub fn used_addresses(&self) -> (r: BTreeSet<u16>)
        ensures
            r@ == seq_used(self@),
    {
        let mut result = BTreeSet::new();
        let ghost s = self@;
        let mut i: usize = 0;
        while i < self.instructions.len()
            invariant
                i <= self.instructions@.len(),
                s == self@,
                result@ == seq_used(s.take(i as int)),
            decreases self.instructions@.len() - i,
        {
            proof {
                lemma_seq_set_take(s, i as int);
            }
            self.instructions[i].collect_used_addresses(&mut result);
            i = i + 1;
        }
        assert(s.take(i as int) =~= s);
        result
    }

    /// The variables the program changes.
    pub fn modified_addresses(&self) -> (r: BTreeSet<u16>)
        ensures
            r@ == seq_modified(self@),
    {
        let mut result = BTreeSet::new();
        let ghost s = self@;
        let mut i: usize = 0;
        while i < self.instructions.len()
            invariant
                i <= self.instructions@.len(),
                s == self@,
                result@ == seq_modified(s.take(i as int)),
            decreases self.instructions@.len() - i,
        {
            proof {
                lemma_seq_set_take(s, i as int);
            }
            self.instructions[i].collect_modified_addresses(&mut result);
            i = i + 1;
        }
        assert(s.take(i as int) =~= s);
        result
    }

    /// Where each variable declared in the program is last mentioned.
    fn last_uses(&self) -> (r: BTreeMap<u16, usize>)
        ensures
            last_uses_spec(self@, self@.len() as int, r@),
    {
        let ghost S = self@;
        let mut last: BTreeMap<u16, usize> = BTreeMap::new();
        let mut k: usize = 0;
        while k < self.instructions.len()
            invariant
                k <= self.instructions@.len(),
                S == self@,
                S.len() == self.instructions@.len(),
                last_uses_spec(S, k as int, last@),
            decreases self.instructions@.len() - k,
        {
            let ghost prev = last@;
            let touched = self.instructions[k].used_address_list_of();
            let declared: Option<u16> = match &self.instructions[k] {
                ABFInstruction::New(a, _) => Some(*a),
                ABFInstruction::Read(a) => Some(*a),
                _ => None,
            };
            match declared {
                Some(a) => {
                    last.insert(a, k);
                },
                None => {},
            }
            let ghost mid = last@;
            let mut t: usize = 0;
            while t < touched.len()
                invariant
                    t <= touched@.len(),
                    k < S.len(),
                    forall|c: u16| touched@.contains(c) <==> used_set(S[k as int]).contains(c),
                    forall|a: u16| #[trigger] last@.contains_key(a) <==> mid.contains_key(a),
                    forall|a: u16|
                        #[trigger] last@.contains_key(a) ==> last@[a] == mid[a] || (last@[a] == k
                            && used_set(S[k as int]).contains(a)),
                    forall|q: int| 0 <= q < t && mid.contains_key(touched@[q]) ==> last@[touched@[q]] == k,
                decreases touched@.len() - t,
            {
                let c = touched[t];
                assert(touched@[t as int] == c);
                assert(touched@.contains(c));
                if last.contains_key(&c) {
                    last.insert(c, k);
                }
                t = t + 1;
            }
            proof {
                assert forall|a: u16| #[trigger] last@.contains_key(a) implies {
                    &&& last@[a] < k + 1
                    &&& used_set(S[last@[a] as int]).contains(a)
                    &&& forall|j: int| last@[a] < j < k + 1 ==> !(#[trigger] used_set(S[j])).contains(a)
                } by {
                    if used_set(S[k as int]).contains(a) {
                        assert(touched@.contains(a));
                        let q = choose|q: int| 0 <= q < touched@.len() && touched@[q] == a;
                    }
                    if declared == Some(a) {
                        assert(used_set(S[k as int]).contains(a));
                    }
                }
                assert forall|a: u16|
                    last@.contains_key(a) <==> exists|d: int| 0 <= d < k + 1 && #[trigger] declares(S[d], a) by {
                    if declares(S[k as int], a) {
                        assert(declared == Some(a));
                    }
                    if exists|d: int| 0 <= d < k + 1 && #[trigger] declares(S[d], a) {
                        let d = choose|d: int| 0 <= d < k + 1 && #[trigger] declares(S[d], a);
                        if d < k {
                            assert(prev.contains_key(a));
                        }
                    }
                }
            }
            k = k + 1;
        }
        last
    }

    /// The variables the program mentions, as a list that may repeat them.
    fn used_address_list(&self) -> (r: Vec<u16>)
        ensures
            forall|a: u16| r@.contains(a) <==> seq_used(self@).contains(a),
    {
        let set = self.used_addresses();
        let mut list: Vec<u16> = Vec::new();
        let mut a: u32 = 0;
        while a < 65536
            invariant
                a <= 65536,
                set@ == seq_used(self@),
                forall|x: u16| list@.contains(x) <==> (x < a && set@.contains(x)),
            decreases 65536 - a,
        {
            let ghost before = list@;
            if set.contains(&(a as u16)) {
                list.push(a as u16);
                assert forall|x: u16| list@.contains(x) <==> (x < a + 1 && set@.contains(x)) by {
                    if before.contains(x) {
                        let k = choose|k: int| 0 <= k < before.len() && before[k] == x;
                        assert(list@[k] == x);
                    }
                    if list@.contains(x) && x != a as u16 {
                        let k = choose|k: int| 0 <= k < list@.len() && list@[k] == x;
                        assert(before[k] == x);
                    }
                    if x == a as u16 {
                        assert(list@[list@.len() - 1] == x);
                    }
                }
            }
            a = a + 1;
        }
        list
    }

    /// Without its top-level frees, and with the frees of every loop body placed anew.
    fn strip_frees(&mut self)
        ensures
            deep_strip(final(self)@) == deep_strip(old(self)@),
            forall|j: int| 0 <= j < final(self)@.len() ==> !(#[trigger] final(self)@[j] is Free),
            forall|j: int| 0 <= j < final(self)@.len() ==> (#[trigger] final(self)@[j] is While
                ==> frees_well_placed(final(self)@[j]->While_1)),
        decreases old(self)@, 0int,
    {
        let ghost o = self@;
        let n = self.instructions.len();
        let mut old_instrs: Vec<ABFInstruction> = Vec::new();
        std::mem::swap(&mut old_instrs, &mut self.instructions);
        let mut src = reversed(old_instrs);
        let mut stripped: Vec<ABFInstruction> = Vec::new();
        let mut k: usize = 0;
        assert(deep_strip(abf_view(stripped@)) =~= deep_strip(o.take(0)));
        while src.len() > 0
            invariant
                n == o.len(),
                o == old(self)@,
                src@.len() + k == n,
                forall|j: int| 0 <= j < src@.len() ==> (#[trigger] src@[j])@ == o[n - 1 - j],
                deep_strip(abf_view(stripped@)) == deep_strip(o.take(k as int)),
                forall|j: int| 0 <= j < stripped@.len() ==> !((#[trigger] stripped@[j])@ is Free),
                forall|j: int| 0 <= j < stripped@.len() ==> ((#[trigger] stripped@[j])@ is While
                    ==> frees_well_placed(stripped@[j]@->While_1)),
            decreases src@.len(),
        {
            let x = src.pop().unwrap();
            let ghost xv = x@;
            assert(xv == o[k as int]);
            proof {
                assert(o.take(k + 1) =~= o.take(k as int).push(xv));
                lemma_deep_strip_push(o.take(k as int), xv);
            }
            let ghost before = stripped@;
            match x {
                ABFInstruction::Free(_) => {},
                ABFInstruction::While(a, body) => {
                    let mut body = body;
                    proof {
                        assert(decreases_to!(o => o[k as int]));
                        assert(decreases_to!(o[k as int] => o[k as int]->While_1));
                    }
                    body.optimize_frees();
                    let y = ABFInstruction::While(a, body);
                    stripped.push(y);
                    proof {
                        lemma_abf_view_push(before, y);
                        lemma_deep_strip_push(abf_view(before), y@);
                    }
                },
                other => {
                    stripped.push(other);
                    proof {
                        lemma_abf_view_push(before, other);
                        lemma_deep_strip_push(abf_view(before), other@);
                    }
                },
            }
            k = k + 1;
        }
        assert(o.take(n as int) =~= o);
        self.instructions = stripped;
    }

    /// Removes all frees and puts one `Free` right after the last use of each variable that the
    /// program declares at its top level; loop bodies get the same treatment.
    pub fn optimize_frees(&mut self)
        ensures
            deep_strip(final(self)@) == deep_strip(old(self)@),
            frees_well_placed(final(self)@),
            frees_follow_use(final(self)@),
        decreases old(self)@, 1int,
    {
        self.strip_frees();
        let ghost S = self@;
        let ghost base = deep_strip(old(self)@);
        let last = Self::last_uses(self);
        let mut stripped: Vec<ABFInstruction> = Vec::new();
        std::mem::swap(&mut stripped, &mut self.instructions);
        assert(abf_view(stripped@) == S);
        let n = stripped.len();
        let mut src = reversed(stripped);
        let mut out: Vec<ABFInstruction> = Vec::new();
        let mut k: usize = 0;
        assert(deep_strip(abf_view(out@)) =~= deep_strip(S.take(0)));
        while src.len() > 0
            invariant
                n == S.len(),
                src@.len() + k == n,
                forall|j: int| 0 <= j < src@.len() ==> (#[trigger] src@[j])@ == S[n - 1 - j],
                forall|j: int| 0 <= j < n ==> !(#[trigger] S[j] is Free),
                last_uses_spec(S, n as int, last@),
                deep_strip(abf_view(out@)) == deep_strip(S.take(k as int)),
                deep_strip(S) == base,
                frees_ordered(abf_view(out@)),
                forall|j: int|
                    0 <= j < out@.len() && (#[trigger] out@[j])@ is Free ==> last@.contains_key(
                        out@[j]@->Free_0,
                    ) && last@[out@[j]@->Free_0] < k,
                forall|j: int, a: u16|
                    0 <= j < out@.len() && #[trigger] declares(out@[j]@, a) ==> last@.contains_key(a)
                        && (last@[a] < k ==> exists|j2: int|
                        j < j2 < out@.len() && out@[j2]@ == SpecABF::Free(a)),
                frees_follow_use(abf_view(out@)),
            decreases src@.len(),
        {
            let x = src.pop().unwrap();
            let ghost xv = x@;
            assert(xv == S[k as int]);
            let touched = x.used_address_list_of();
            let ghost before = abf_view(out@);
            proof {
                assert(S.take(k + 1) =~= S.take(k as int).push(xv));
                lemma_deep_strip_push(S.take(k as int), xv);
                lemma_deep_strip_push(before, xv);
                lemma_abf_view_push(out@, x);
            }
            proof {
                assert forall|j: int, a: u16| 0 <= j < before.len() && before[j] == SpecABF::Free(a) implies !used_set(xv).contains(a) by {
                    assert(out@[j]@ == before[j]);
                    assert(last@.contains_key(a) && last@[a] < k);
                    assert(last@[a] < k < n);
                }
                lemma_frees_ordered_push(before, xv);
                lemma_follow_push_plain(before, xv);
            }
            let ghost prev_out = out@;
            out.push(x);
            let ghost jx = out@.len() - 1;
            assert(abf_view(out@)[jx] == xv);
            proof {
                assert forall|j: int, a: u16|
                    0 <= j < out@.len() && #[trigger] declares(out@[j]@, a) implies last@.contains_key(a)
                        && (last@[a] < k ==> exists|j2: int| j < j2 < out@.len() && out@[j2]@ == SpecABF::Free(a)) by {
                    if j < prev_out.len() {
                        assert(out@[j] == prev_out[j]);
                        if last@[a] < k {
                            let j2 = choose|j2: int| j < j2 < prev_out.len() && prev_out[j2]@ == SpecABF::Free(a);
                            assert(out@[j2] == prev_out[j2]);
                        }
                    } else {
                        assert(declares(S[k as int], a));
                        assert(used_set(S[k as int]).contains(a));
                        assert(last@.contains_key(a));
                        if last@[a] < k {
                            assert(!used_set(S[k as int]).contains(a));
                        }
                    }
                }
                assert forall|j: int|
                    0 <= j <= jx && (#[trigger] out@[j])@ is Free implies last@.contains_key(out@[j]@->Free_0) && last@[out@[j]@->Free_0] < k by {
                    assert(out@[j] == prev_out[j]);
                }
            }
            let mut bound: u32 = 65536;
            loop
                invariant
                    n == S.len(),
                    k < n,
                    xv == S[k as int],
                    0 <= jx < out@.len(),
                    out@[jx]@ == xv,
                    bound <= 65536,
                    forall|c: u16| touched@.contains(c) <==> used_set(xv).contains(c),
                    last_uses_spec(S, n as int, last@),
                    deep_strip(abf_view(out@)) == deep_strip(S.take(k + 1)),
                    frees_ordered(abf_view(out@)),
                    forall|j: int| jx < j < out@.len() ==> (#[trigger] out@[j])@ is Free,
                    forall|j: int|
                        jx < j < out@.len() ==> #[trigger] last@.contains_key(out@[j]@->Free_0)
                            && last@[out@[j]@->Free_0] == k && bound <= out@[j]@->Free_0,
                    forall|j: int|
                        0 <= j <= jx && (#[trigger] out@[j])@ is Free ==> last@.contains_key(
                            out@[j]@->Free_0,
                        ) && last@[out@[j]@->Free_0] < k,
                    forall|c: u16|
                        last@.contains_key(c) && last@[c] == k && bound <= c ==> exists|j2: int|
                            jx < j2 < out@.len() && (#[trigger] out@[j2])@ == SpecABF::Free(c),
                    forall|j: int, a: u16|
                        0 <= j < out@.len() && #[trigger] declares(out@[j]@, a) ==> last@.contains_key(a)
                            && (last@[a] < k ==> exists|j2: int|
                            j < j2 < out@.len() && out@[j2]@ == SpecABF::Free(a)),
                    frees_follow_use(abf_view(out@)),
                    forall|j: int| 0 <= j < n ==> !(#[trigger] S[j] is Free),
                ensures
                    frees_follow_use(abf_view(out@)),
                    deep_strip(abf_view(out@)) == deep_strip(S.take(k + 1)),
                    frees_ordered(abf_view(out@)),
                    forall|j: int|
                        0 <= j < out@.len() && (#[trigger] out@[j])@ is Free ==> last@.contains_key(
                            out@[j]@->Free_0,
                        ) && last@[out@[j]@->Free_0] < k + 1,
                    forall|j: int, a: u16|
                        0 <= j < out@.len() && #[trigger] declares(out@[j]@, a) ==> last@.contains_key(a)
                            && (last@[a] < k + 1 ==> exists|j2: int|
                            j < j2 < out@.len() && out@[j2]@ == SpecABF::Free(a)),
                decreases bound,
            {
                let mut best: Option<u16> = None;
                let mut t: usize = 0;
                while t < touched.len()
                    invariant
                        t <= touched@.len(),
                        match best {
                            Some(b) => touched@.contains(b) && (b as u32) < bound && last@.contains_key(b) && last@[b] == k,
                            None => true,
                        },
                        forall|q: int|
                            0 <= q < t && (touched@[q] as u32) < bound && last@.contains_key(touched@[q]) && last@[touched@[q]] == k
                                ==> (best matches Some(b) && touched@[q] <= b),
                    decreases touched@.len() - t,
                {
                    let c = touched[t];
                    if (c as u32) < bound && last.get(&c) == Some(&k) {
                        match best {
                            Some(b) => {
                                if c > b {
                                    best = Some(c);
                                }
                            },
                            None => {
                                best = Some(c);
                            },
                        }
                    }
                    t = t + 1;
                }
                match best {
                    None => {
                        proof {
                            assert forall|j: int|
                                0 <= j < out@.len() && (#[trigger] out@[j])@ is Free implies last@.contains_key(
                                    out@[j]@->Free_0,
                                ) && last@[out@[j]@->Free_0] < k + 1 by {
                                if j > jx {
                                    assert(last@.contains_key(out@[j]@->Free_0));
                                }
                            }
                            assert forall|j: int, a: u16|
                                0 <= j < out@.len() && #[trigger] declares(out@[j]@, a) implies last@.contains_key(a)
                                    && (last@[a] < k + 1 ==> exists|j2: int|
                                    j < j2 < out@.len() && out@[j2]@ == SpecABF::Free(a)) by {
                                if j > jx {
                                    assert(out@[j]@ is Free);
                                }
                                if last@[a] == k {
                                    assert(used_set(S[k as int]).contains(a));
                                    assert(touched@.contains(a));
                                    let q = choose|q: int| 0 <= q < touched@.len() && touched@[q] == a;
                                    assert(bound <= a);
                                    let j2 = choose|j2: int| jx < j2 < out@.len() && (#[trigger] out@[j2])@ == SpecABF::Free(a);
                                }
                            }
                        }
                        break ;
                    },
                    Some(b) => {
                        let ghost prev = out@;
                        let ghost old_bound = bound;
                        let f = ABFInstruction::Free(b);
                        proof {
                            lemma_deep_strip_push(abf_view(out@), f@);
                            lemma_abf_view_push(out@, f);
                            assert forall|j: int, a: u16| 0 <= j < prev.len() && abf_view(prev)[j] == SpecABF::Free(a) implies !used_set(f@).contains(a) by {
                                assert(prev[j]@ == SpecABF::Free(a));
                                if j > jx {
                                    assert(last@.contains_key(prev[j]@->Free_0));
                                }
                            }
                            lemma_frees_ordered_push(abf_view(prev), f@);
                            let pv = abf_view(prev);
                            assert(pv[jx] == xv);
                            assert(used_set(S[k as int]).contains(b));
                            assert forall|q: int| jx < q < pv.len() implies (#[trigger] pv[q]) is Free by {
                                assert(pv[q] == prev[q]@);
                            }
                            lemma_follow_push_free(pv, b, jx);
                        }
                        out.push(f);
                        bound = b as u32;
                        proof {
                            assert forall|j: int| jx < j < out@.len() implies #[trigger] last@.contains_key(out@[j]@->Free_0)
                                && last@[out@[j]@->Free_0] == k && bound <= out@[j]@->Free_0 by {
                                if j < prev.len() {
                                    assert(out@[j] == prev[j]);
                                }
                            }
                            assert forall|j: int| jx < j < out@.len() implies (#[trigger] out@[j])@ is Free by {
                                if j < prev.len() {
                                    assert(out@[j] == prev[j]);
                                }
                            }
                            assert forall|j: int|
                                0 <= j <= jx && (#[trigger] out@[j])@ is Free implies last@.contains_key(
                                    out@[j]@->Free_0,
                                ) && last@[out@[j]@->Free_0] < k by {
                                assert(out@[j] == prev[j]);
                            }
                            assert forall|c: u16|
                                last@.contains_key(c) && last@[c] == k && bound <= c implies exists|j2: int|
                                    jx < j2 < out@.len() && (#[trigger] out@[j2])@ == SpecABF::Free(c) by {
                                if c == b {
                                    assert(out@[out@.len() - 1]@ == SpecABF::Free(c));
                                } else {
                                    assert(used_set(S[k as int]).contains(c));
                                    assert(touched@.contains(c));
                                    let q = choose|q: int| 0 <= q < touched@.len() && touched@[q] == c;
                                    if (c as u32) < old_bound {
                                        assert(c <= b);
                                    }
                                    let j2 = choose|j2: int| jx < j2 < prev.len() && (#[trigger] prev[j2])@ == SpecABF::Free(c);
                                    assert(out@[j2] == prev[j2]);
                                }
                            }
                            assert forall|j: int, a: u16|
                                0 <= j < out@.len() && #[trigger] declares(out@[j]@, a) implies last@.contains_key(a)
                                    && (last@[a] < k ==> exists|j2: int| j < j2 < out@.len() && out@[j2]@ == SpecABF::Free(a)) by {
                                if j < prev.len() {
                                    assert(out@[j] == prev[j]);
                                    if last@[a] < k {
                                        let j2 = choose|j2: int| j < j2 < prev.len() && prev[j2]@ == SpecABF::Free(a);
                                        assert(out@[j2] == prev[j2]);
                                    }
                                }
                            }
                        }
                    },
                }
            }
            k = k + 1;
        }
        assert(S.take(n as int) =~= S);
        proof {
            let O = abf_view(out@);
            assert forall|j: int, a: u16| 0 <= j < O.len() && #[trigger] declares(O[j], a) implies exists|j2: int|
                j < j2 < O.len() && O[j2] == SpecABF::Free(a) by {
                assert(O[j] == out@[j]@);
                assert(declares(out@[j]@, a));
                assert(last@[a] < n);
                let j2 = choose|j2: int| j < j2 < out@.len() && out@[j2]@ == SpecABF::Free(a);
                assert(O[j2] == out@[j2]@);
            }
        }
        self.instructions = out;
    }

    fn analyze_variable_usage(program: &ABFProgram, variable_usage: &mut BTreeMap<u16, bool>)
        ensures
            final(variable_usage)@ == usage_after(old(variable_usage)@, program@),
        decreases program,
    {
        let ghost s = program@;
        let ghost start = variable_usage@;
        let mut i: usize = 0;
        assert(usage_after(start, s.take(0)) =~= start);
        while i < program.instructions.len()
            invariant
                i <= program.instructions@.len(),
                s == program@,
                variable_usage@ == usage_after(start, s.take(i as int)),
            decreases program.instructions@.len() - i,
        {
            let ghost before = variable_usage@;
            proof {
                assert(s.take(i + 1).drop_last() =~= s.take(i as int));
                broadcast use vstd::std_specs::vec::axiom_vec_index_decreases;

                assert(decreases_to!(program.instructions => program.instructions[i as int]));
            }
            match &program.instructions[i] {
                ABFInstruction::New(address, _) => {
                    variable_usage.insert(*address, false);
                },
                ABFInstruction::Read(address) => {
                    variable_usage.insert(*address, true);
                },
                ABFInstruction::Free(_address) => {},
                ABFInstruction::Write(address) => {
                    variable_usage.insert(*address, true);
                },
                ABFInstruction::Add(_address, _) => {},
                ABFInstruction::While(address, body) => {
                    proof {
                        assert(decreases_to!(program.instructions[i as int] => program.instructions[i as int]->While_1));
                    }
                    variable_usage.insert(*address, true);
                    Self::analyze_variable_usage(body, variable_usage);
                },
            }
            proof {
                let t = s.take(i + 1);
                assert(t.drop_last() =~= s.take(i as int));
                assert(t.last() == s[i as int]);
                assert forall|a: u16|
                    #[trigger] last_usage(t, a) == match instruction_last_usage(s[i as int], a) {
                        Some(b) => Some(b),
                        None => last_usage(s.take(i as int), a),
                    } by {}
                assert(variable_usage@ =~= usage_after(start, t));
            }
            i = i + 1;
        }
        assert(s.take(i as int) =~= s);
    }

    fn keep_used_variables(program: &ABFProgram, usage: &BTreeMap<u16, bool>) -> (r: ABFProgram)
        ensures
            r@ == keep_seq(program@, Set::new(|a: u16| usage@.contains_key(a) && usage@[a])),
        decreases program,
    {
        let ghost keep = Set::new(|a: u16| usage@.contains_key(a) && usage@[a]);
        let ghost s = program@;
        let mut output = ABFProgram::new(Vec::new());
        let mut i: usize = 0;
        assert(output@ =~= keep_seq(s.take(0), keep));
        while i < program.instructions.len()
            invariant
                i <= program.instructions@.len(),
                s == program@,
                keep == Set::new(|a: u16| usage@.contains_key(a) && usage@[a]),
                output@ == keep_seq(s.take(i as int), keep),
            decreases program.instructions@.len() - i,
        {
            proof {
                assert(s.take(i + 1).drop_last() =~= s.take(i as int));
                broadcast use vstd::std_specs::vec::axiom_vec_index_decreases;

                assert(decreases_to!(program.instructions => program.instructions[i as int]));
            }
            match &program.instructions[i] {
                ABFInstruction::New(address, value) => {
                    if usage.get(address) == Some(&true) {
                        output.add_instruction(ABFInstruction::New(*address, *value));
                    }
                },
                ABFInstruction::Read(address) => {
                    if usage.get(address) == Some(&true) {
                        output.add_instruction(ABFInstruction::Read(*address));
                    }
                },
                ABFInstruction::Free(address) => {
                    if usage.get(address) == Some(&true) {
                        output.add_instruction(ABFInstruction::Free(*address));
                    }
                },
                ABFInstruction::Write(address) => {
                    if usage.get(address) == Some(&true) {
                        output.add_instruction(ABFInstruction::Write(*address));
                    }
                },
                ABFInstruction::Add(address, amount) => {
                    if usage.get(address) == Some(&true) {
                        output.add_instruction(ABFInstruction::Add(*address, *amount));
                    }
                },
                ABFInstruction::While(address, body) => {
                    if usage.get(address) == Some(&true) {
                        proof {
                            assert(decreases_to!(program.instructions[i as int] => program.instructions[i as int]->While_1));
                        }
                        let new_body = Self::keep_used_variables(body, usage);
                        output.add_instruction(ABFInstruction::While(*address, new_body));
                    }
                },
            }
            i = i + 1;
        }
        assert(s.take(i as int) =~= s);
        output
    }

    /// Removes every instruction about a variable whose last use is a fresh declaration, i.e.
    /// whose value is never read, printed or tested after it was last declared.
    pub fn clear_unused_variables(&mut self)
        ensures
            final(self)@ == keep_seq(old(self)@, used_variables(old(self)@)),
            no_new_after_observe(usage_events(old(self)@)) ==> forall|st: AbfState, fuel: nat|
                (#[trigger] run_seq(old(self)@, st, fuel) is Some <==> run_seq(final(self)@, st, fuel) is Some) && (run_seq(
                    old(self)@,
                    st,
                    fuel,
                ) is Some ==> run_seq(final(self)@, st, fuel)->Some_0.output == run_seq(old(self)@, st, fuel)->Some_0.output),
            observed_seq(old(self)@).subset_of(used_variables(old(self)@)) ==> forall|st: AbfState, fuel: nat|
                (#[trigger] run_seq(old(self)@, st, fuel) is Some <==> run_seq(final(self)@, st, fuel) is Some) && (run_seq(
                    old(self)@,
                    st,
                    fuel,
                ) is Some ==> run_seq(final(self)@, st, fuel)->Some_0.output == run_seq(old(self)@, st, fuel)->Some_0.output),
    {
        let mut variable_usage: BTreeMap<u16, bool> = BTreeMap::new();
        Self::analyze_variable_usage(self, &mut variable_usage);
        let result = Self::keep_used_variables(self, &variable_usage);
        assert(Set::new(|a: u16| variable_usage@.contains_key(a) && variable_usage@[a]) =~= used_variables(old(self)@));
        *self = result;
        proof {
            let s = old(self)@;
            let keep = used_variables(s);
            if no_new_after_observe(usage_events(s)) {
                lemma_observed_kept(s);
            }
            if observed_seq(s).subset_of(keep) {
                assert forall|st: AbfState, fuel: nat|
                    (#[trigger] run_seq(s, st, fuel) is Some <==> run_seq(self@, st, fuel) is Some) && (run_seq(s, st, fuel) is Some
                        ==> run_seq(self@, st, fuel)->Some_0.output == run_seq(s, st, fuel)->Some_0.output) by {
                    lemma_run_kept(s, keep, st, st, fuel);
                }
            }
        }
    }
}

} // verus!

verus! {

/// How deeply loops nest in the instruction: a loop counts one more than its body.
pub open spec fn loop_depth(i: SpecABF) -> nat
    decreases i,
{
    match i {
        SpecABF::While(_, body) => 1 + seq_loop_depth(body),
        _ => 0,
    }
}

/// How deeply loops nest in the instructions.
pub open spec fn seq_loop_depth(s: Seq<SpecABF>) -> nat
    decreases s,
{
    if s.len() == 0 {
        0
    } else {
        let a = seq_loop_depth(s.drop_last());
        let b = loop_depth(s.last());
        if a >= b {
            a
        } else {
            b
        }
    }
}

proof fn lemma_loop_depth_index(s: Seq<SpecABF>, i: int)
    requires
        0 <= i < s.len(),
    ensures
        loop_depth(s[i]) <= seq_loop_depth(s),
    decreases s.len(),
{
    if i < s.len() - 1 {
        lemma_loop_depth_index(s.drop_last(), i);
    }
}

/// The text of the instruction, indented by four spaces per level, a line per instruction.
pub open spec fn instruction_text(i: SpecABF, indent: nat) -> Seq<char>
    decreases i,
{
    spaces(4 * indent) + match i {
        SpecABF::New(a, v) => "&"@ + decimal(a as nat) + " = "@ + decimal(v as nat) + ";\n"@,
        SpecABF::Read(a) => "&"@ + decimal(a as nat) + " = read();\n"@,
        SpecABF::Free(a) => "free(&"@ + decimal(a as nat) + ");\n"@,
        SpecABF::Write(a) => "write(&"@ + decimal(a as nat) + ");\n"@,
        SpecABF::Add(a, v) => "&"@ + decimal(a as nat) + " += "@ + signed_decimal(v as int) + ";\n"@,
        SpecABF::While(a, body) => "while &"@ + decimal(a as nat) + " {\n"@ + instructions_text(body, indent + 1)
            + spaces(4 * indent) + "}\n"@,
    }
}

/// The text of the instructions, one after another.
pub open spec fn instructions_text(s: Seq<SpecABF>, indent: nat) -> Seq<char>
    decreases s,
{
    if s.len() == 0 {
        Seq::empty()
    } else {
        instructions_text(s.drop_last(), indent) + instruction_text(s.last(), indent)
    }
}

impl ABFInstruction {
    fn write_text(&self, indent: u8, r: &mut String)
        requires
            indent + loop_depth(self@) <= 255,
        ensures
            final(r)@ == old(r)@ + instruction_text(self@, indent as nat),
        decreases self,
    {
        let ghost start = r@;
        push_spaces(r, 4 * indent as usize);
        match self {
            ABFInstruction::New(address, value) => {
                append_text(r, "&");
                let a = decimal_text(*address);
                append_text(r, a.as_str());
                append_text(r, " = ");
                let v = decimal_text(*value as u16);
                append_text(r, v.as_str());
                append_text(r, ";\n");
            },
            ABFInstruction::Read(address) => {
                append_text(r, "&");
                let a = decimal_text(*address);
                append_text(r, a.as_str());
                append_text(r, " = read();\n");
            },
            ABFInstruction::Free(address) => {
                append_text(r, "free(&");
                let a = decimal_text(*address);
                append_text(r, a.as_str());
                append_text(r, ");\n");
            },
            ABFInstruction::Write(address) => {
                append_text(r, "write(&");
                let a = decimal_text(*address);
                append_text(r, a.as_str());
                append_text(r, ");\n");
            },
            ABFInstruction::Add(address, amount) => {
                append_text(r, "&");
                let a = decimal_text(*address);
                append_text(r, a.as_str());
                append_text(r, " += ");
                let v = signed_text(*amount);
                append_text(r, v.as_str());
                append_text(r, ";\n");
            },
            ABFInstruction::While(address, body) => {
                append_text(r, "while &");
                let a = decimal_text(*address);
                append_text(r, a.as_str());
                append_text(r, " {\n");
                let ghost s = abf_view(body.instructions@);
                let ghost before = r@;
                let mut i: usize = 0;
                proof {
                    assert(s.take(0) =~= Seq::<SpecABF>::empty());
                    assert(before =~= before + instructions_text(s.take(0), indent as nat + 1));
                }
                while i < body.instructions.len()
                    invariant
                        i <= body.instructions@.len(),
                        s == abf_view(body.instructions@),
                        *self == ABFInstruction::While(*address, *body),
                        indent + 1 + seq_loop_depth(s) <= 255,
                        r@ == before + instructions_text(s.take(i as int), indent as nat + 1),
                    decreases body.instructions@.len() - i,
                {
                    proof {
                        broadcast use vstd::std_specs::vec::axiom_vec_index_decreases;

                        assert(decreases_to!(*self => self->While_1));
                        assert(decreases_to!(*body => body.instructions));
                        assert(decreases_to!(body.instructions => body.instructions[i as int]));
                        lemma_loop_depth_index(s, i as int);
                        assert(s.take(i + 1).drop_last() =~= s.take(i as int));
                        assert(s[i as int] == body.instructions@[i as int]@);
                    }
                    body.instructions[i].write_text(indent + 1, r);
                    i = i + 1;
                    assert(r@ =~= before + instructions_text(s.take(i as int), indent as nat + 1));
                }
                assert(s.take(i as int) =~= s);
                push_spaces(r, 4 * indent as usize);
                append_text(r, "}\n");
            },
        }
        assert(r@ =~= start + instruction_text(self@, indent as nat));
    }

    /// The text of the instruction: a line per instruction, the body of a loop indented by four
    /// spaces.
    pub fn to_string(&self) -> (r: String)
        requires
            loop_depth(self@) <= 255,
        ensures
            r@ == instruction_text(self@, 0),
    {
        let mut r = String::new();
        self.write_text(0, &mut r);
        assert(r@ =~= Seq::<char>::empty() + instruction_text(self@, 0));
        r
    }
}

impl ABFProgram {
    /// The text of the program: a line per instruction, the body of a loop indented by four
    /// spaces.
    pub fn to_string(&self) -> (r: String)
        requires
            seq_loop_depth(self@) <= 255,
        ensures
            r@ == instructions_text(self@, 0),
    {
        let ghost s = self@;
        let mut r = String::new();
        let mut i: usize = 0;
        proof {
            assert(s.take(0) =~= Seq::<SpecABF>::empty());
        }
        while i < self.instructions.len()
            invariant
                i <= self.instructions@.len(),
                s == self@,
                seq_loop_depth(s) <= 255,
                r@ == instructions_text(s.take(i as int), 0),
            decreases self.instructions@.len() - i,
        {
            proof {
                lemma_loop_depth_index(s, i as int);
                assert(s.take(i + 1).drop_last() =~= s.take(i as int));
                assert(s[i as int] == self.instructions@[i as int]@);
            }
            self.instructions[i].write_text(0, &mut r);
            i = i + 1;
            assert(r@ =~= instructions_text(s.take(i as int), 0));
        }
        assert(s.take(i as int) =~= s);
        r
    }
}

} // verus!
