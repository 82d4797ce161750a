use vstd::prelude::*;

use std::collections::{BTreeMap, BTreeSet};

use rand::Rng;

use crate::text::{append_text, decimal, decimal_text, digit_char, signed_decimal, signed_text, string_push};
use crate::bf_core::{
    lemma_run_bf_append, lemma_run_bf_short, lemma_trees_path_push, run_bf_tree, run_bf_trees, tape_cell, trees_path, BFProgram,
    BFState, BFTree, SpecBFTree, TAPE_LEN,
};
use crate::abf::abf_semantics::{cell, lemma_wrap_add_congruent, lemma_wrap_add_twice, wrap_add, AbfState};

verus! {

broadcast use vstd::std_specs::btree::group_btree_axioms;

/// Brainfuck over absolute cell numbers: each operation names the cell it works on.
#[derive(Debug)]
pub enum ABFTree {
    Add(u16, i8),
    Write(u16),
    Read(u16),
    While(u16, Vec<ABFTree>),
}

/// The mathematical model of an [`ABFTree`].
pub enum SpecTree {
    Add(u16, i8),
    Write(u16),
    Read(u16),
    While(u16, Seq<SpecTree>),
}

impl View for ABFTree {
    type V = SpecTree;

    open spec fn view(&self) -> SpecTree
        decreases self,
    {
        match self {
            ABFTree::Add(a, v) => SpecTree::Add(*a, *v),
            ABFTree::Write(a) => SpecTree::Write(*a),
            ABFTree::Read(a) => SpecTree::Read(*a),
            ABFTree::While(a, body) => SpecTree::While(*a, trees_view(body@)),
        }
    }
}

/// The models of a sequence of trees.
pub open spec fn trees_view(s: Seq<ABFTree>) -> Seq<SpecTree>
    decreases s,
{
    Seq::new(
        s.len(),
        |i: int|
            if 0 <= i < s.len() {
                s[i]@
            } else {
                SpecTree::Write(0)
            },
    )
}

proof fn lemma_trees_view_push(s: Seq<ABFTree>, x: ABFTree)
    ensures
        trees_view(s.push(x)) == trees_view(s).push(x@),
{
    assert(trees_view(s.push(x)) =~= trees_view(s).push(x@));
}

/// The cell a tree works on.
pub open spec fn tree_address(t: SpecTree) -> u16 {
    match t {
        SpecTree::Add(a, _) => a,
        SpecTree::Write(a) => a,
        SpecTree::Read(a) => a,
        SpecTree::While(a, _) => a,
    }
}

/// Every cell the tree works on is below `bound`.
pub open spec fn tree_below(t: SpecTree, bound: int) -> bool
    decreases t,
{
    match t {
        SpecTree::While(a, body) => a < bound && trees_below(body, bound),
        _ => tree_address(t) < bound,
    }
}

/// Every cell the trees work on is below `bound`.
pub open spec fn trees_below(s: Seq<SpecTree>, bound: int) -> bool
    decreases s,
{
    if s.len() == 0 {
        true
    } else {
        trees_below(s.drop_last(), bound) && tree_below(s.last(), bound)
    }
}

proof fn lemma_trees_below_index(s: Seq<SpecTree>, bound: int, i: int)
    requires
        trees_below(s, bound),
        0 <= i < s.len(),
    ensures
        tree_below(s[i], bound),
    decreases s.len(),
{
    if i < s.len() - 1 {
        lemma_trees_below_index(s.drop_last(), bound, i);
    }
}

/// The cells a tree works on, in the order the pointer visits them: a loop visits its cell
/// before and after its body.
pub open spec fn visits(t: SpecTree) -> Seq<u16>
    decreases t,
{
    match t {
        SpecTree::While(a, body) => seq![a] + visits_seq(body) + seq![a],
        _ => seq![tree_address(t)],
    }
}

/// The cells a sequence of trees works on, in order.
pub open spec fn visits_seq(s: Seq<SpecTree>) -> Seq<u16>
    decreases s,
{
    if s.len() == 0 {
        Seq::empty()
    } else {
        visits_seq(s.drop_last()) + visits(s.last())
    }
}

/// The sequence with each run of equal neighbours kept once.
pub open spec fn collapse(s: Seq<u16>) -> Seq<u16>
    decreases s.len(),
{
    if s.len() == 0 {
        Seq::empty()
    } else {
        let c = collapse(s.drop_last());
        if c.len() > 0 && c.last() == s.last() {
            c
        } else {
            c.push(s.last())
        }
    }
}

proof fn lemma_collapse_push(s: Seq<u16>, a: u16)
    ensures
        collapse(s.push(a)) == (if collapse(s).len() > 0 && collapse(s).last() == a {
            collapse(s)
        } else {
            collapse(s).push(a)
        }),
        collapse(s.push(a)).len() > 0,
{
    assert(s.push(a).drop_last() =~= s);
}

proof fn lemma_visits_push(s: Seq<SpecTree>, x: SpecTree)
    ensures
        visits_seq(s.push(x)) == visits_seq(s) + visits(x),
{
    assert(s.push(x).drop_last() =~= s);
}

/// Pushes `a` onto a collapsed path unless it ends with `a` already.
fn push_visit(output: &mut Vec<u16>, a: u16, Ghost(p): Ghost<Seq<u16>>)
    requires
        old(output)@ == collapse(p),
        old(output)@.len() > 0,
    ensures
        final(output)@ == collapse(p.push(a)),
        final(output)@.len() > 0,
{
    proof {
        lemma_collapse_push(p, a);
    }
    if output[output.len() - 1] != a {
        output.push(a);
    }
}

/// The Brainfuck of a tree run with the pointer on `pointer`: a move to the tree's cell, then
/// its operation; a loop's body ends with a move back to the loop's cell.
pub open spec fn tree_bf(t: SpecTree, pointer: int) -> Seq<SpecBFTree>
    decreases t,
{
    let a = tree_address(t) as int;
    seq![SpecBFTree::Move(a - pointer)] + match t {
        SpecTree::Add(_, v) => seq![SpecBFTree::Add(v as u8)],
        SpecTree::Write(_) => seq![SpecBFTree::Write],
        SpecTree::Read(_) => seq![SpecBFTree::Read],
        SpecTree::While(_, body) => seq![
            SpecBFTree::Loop(trees_bf(body, a) + seq![SpecBFTree::Move(a - trees_end(body, a))]),
        ],
    }
}

/// The Brainfuck of trees run one after another from `pointer`.
pub open spec fn trees_bf(s: Seq<SpecTree>, pointer: int) -> Seq<SpecBFTree>
    decreases s,
{
    if s.len() == 0 {
        Seq::empty()
    } else {
        trees_bf(s.drop_last(), pointer) + tree_bf(s.last(), trees_end(s.drop_last(), pointer))
    }
}

/// Where the pointer stands after the trees run from `pointer`: on the cell of the last tree.
pub open spec fn trees_end(s: Seq<SpecTree>, pointer: int) -> int {
    if s.len() == 0 {
        pointer
    } else {
        tree_address(s.last()) as int
    }
}

impl ABFTree {
    fn calculate_path_impl(&self, output: &mut Vec<u16>, Ghost(p): Ghost<Seq<u16>>)
        requires
            old(output)@ == collapse(p),
            old(output)@.len() > 0,
        ensures
            final(output)@ == collapse(p + visits(self@)),
            final(output)@.len() > 0,
        decreases self,
    {
        match self {
            ABFTree::Add(x, _) | ABFTree::Read(x) | ABFTree::Write(x) => {
                push_visit(output, *x, Ghost(p));
                assert(p.push(*x) =~= p + visits(self@));
            },
            ABFTree::While(x, body) => {
                push_visit(output, *x, Ghost(p));
                let ghost q = p.push(*x);
                let ghost s = trees_view(body@);
                let mut i: usize = 0;
                proof {
                    assert(s.take(0) =~= Seq::<SpecTree>::empty());
                    assert(q + visits_seq(s.take(0)) =~= q);
                }
                while i < body.len()
                    invariant
                        i <= body@.len(),
                        s == trees_view(body@),
                        *self == ABFTree::While(*x, *body),
                        output@ == collapse(q + visits_seq(s.take(i as int))),
                        output@.len() > 0,
                    decreases body@.len() - i,
                {
                    proof {
                        broadcast use vstd::std_specs::vec::axiom_vec_index_decreases;

                        assert(decreases_to!(*body => body[i as int]));
                        assert(decreases_to!(*self => self->While_1));
                        assert(s.take(i + 1) =~= s.take(i as int).push(s[i as int]));
                        lemma_visits_push(s.take(i as int), s[i as int]);
                        assert(q + visits_seq(s.take(i as int)) + visits(s[i as int]) =~= q + visits_seq(s.take(i + 1)));
                    }
                    body[i].calculate_path_impl(output, Ghost(q + visits_seq(s.take(i as int))));
                    i = i + 1;
                }
                assert(s.take(i as int) =~= s);
                push_visit(output, *x, Ghost(q + visits_seq(s)));
                assert((q + visits_seq(s)).push(*x) =~= p + visits(self@));
            },
        }
    }

    /// Appends Brainfuck that moves the pointer from `pointer` to the tree's cells and runs the
    /// tree; the pointer then stands on the tree's cell.
    fn to_bf_impl(&self, pointer: &mut u16, output: &mut BFProgram, Ghost(start): Ghost<int>, Ghost(on_tape): Ghost<bool>)
        requires
            tree_below(self@, 32768),
            *old(pointer) < 32768,
            on_tape ==> tree_below(self@, 30000) && *old(pointer) < 30000 && trees_path(old(output)@, start) == Some(
                *old(pointer) as int,
            ),
        ensures
            *final(pointer) == tree_address(self@),
            on_tape ==> trees_path(final(output)@, start) == Some(*final(pointer) as int),
            final(output)@ == old(output)@ + tree_bf(self@, *old(pointer) as int),
        decreases self,
    {
        match self {
            ABFTree::Add(position, value) => {
                let offset = (*position as i16) - (*pointer as i16);
                let ghost o = output@;
                output.push_instruction(BFTree::Move(offset as isize));
                #[verifier::truncate]
                let amount = *value as u8;
                let ghost o2 = output@;
                output.push_instruction(BFTree::Add(amount));
                proof {
                    lemma_trees_path_push(o, SpecBFTree::Move(offset as int), start);
                    lemma_trees_path_push(o2, SpecBFTree::Add(amount), start);
                    assert(output@ =~= o + tree_bf(self@, *old(pointer) as int));
                }
                *pointer = *position;
            },
            ABFTree::Write(position) => {
                let offset = (*position as i16) - (*pointer as i16);
                let ghost o = output@;
                output.push_instruction(BFTree::Move(offset as isize));
                let ghost o2 = output@;
                output.push_instruction(BFTree::Write);
                proof {
                    lemma_trees_path_push(o, SpecBFTree::Move(offset as int), start);
                    lemma_trees_path_push(o2, SpecBFTree::Write, start);
                    assert(output@ =~= o + tree_bf(self@, *old(pointer) as int));
                }
                *pointer = *position;
            },
            ABFTree::Read(position) => {
                let offset = (*position as i16) - (*pointer as i16);
                let ghost o = output@;
                output.push_instruction(BFTree::Move(offset as isize));
                let ghost o2 = output@;
                output.push_instruction(BFTree::Read);
                proof {
                    lemma_trees_path_push(o, SpecBFTree::Move(offset as int), start);
                    lemma_trees_path_push(o2, SpecBFTree::Read, start);
                    assert(output@ =~= o + tree_bf(self@, *old(pointer) as int));
                }
                *pointer = *position;
            },
            ABFTree::While(position, body) => {
                let offset = (*position as i16) - (*pointer as i16);
                let ghost o = output@;
                output.push_instruction(BFTree::Move(offset as isize));
                proof {
                    lemma_trees_path_push(o, SpecBFTree::Move(offset as int), start);
                }
                *pointer = *position;
                let mut body_bf = BFProgram::new();
                let ghost b = trees_view(body@);
                let mut i: usize = 0;
                proof {
                    assert(b.take(0) =~= Seq::<SpecTree>::empty());
                    assert(body_bf@ =~= trees_bf(b.take(0), *position as int));
                }
                while i < body.len()
                    invariant
                        i <= body@.len(),
                        b == trees_view(body@),
                        *self == ABFTree::While(*position, *body),
                        tree_below(self@, 32768),
                        on_tape ==> tree_below(self@, 30000),
                        *pointer < 32768,
                        on_tape ==> *pointer < 30000 && trees_path(body_bf@, *position as int) == Some(*pointer as int),
                        body_bf@ == trees_bf(b.take(i as int), *position as int),
                        *pointer == trees_end(b.take(i as int), *position as int),
                    decreases body@.len() - i,
                {
                    proof {
                        broadcast use vstd::std_specs::vec::axiom_vec_index_decreases;

                        assert(decreases_to!(*body => body[i as int]));
                        assert(decreases_to!(*self => self->While_1));
                        lemma_trees_below_index(b, 32768, i as int);
                        if on_tape {
                            lemma_trees_below_index(b, 30000, i as int);
                        }
                    }
                    let ghost bf_before = body_bf@;
                    body[i].to_bf_impl(pointer, &mut body_bf, Ghost(*position as int), Ghost(on_tape));
                    proof {
                        assert(b.take(i + 1).drop_last() =~= b.take(i as int));
                        assert(b.take(i + 1).last() == b[i as int]);
                    }
                    i = i + 1;
                }
                assert(b.take(i as int) =~= b);
                let back = (*position as i16) - (*pointer as i16);
                let ghost bb = body_bf@;
                body_bf.push_instruction(BFTree::Move(back as isize));
                proof {
                    lemma_trees_path_push(bb, SpecBFTree::Move(back as int), *position as int);
                }
                let ghost o2 = output@;
                output.push_instruction(BFTree::Loop(body_bf.0));
                proof {
                    lemma_trees_path_push(o2, SpecBFTree::Loop(bb.push(SpecBFTree::Move(back as int))), start);
                    assert(bb.push(SpecBFTree::Move(back as int)) =~= trees_bf(b, *position as int) + seq![
                        SpecBFTree::Move(*position as int - trees_end(b, *position as int)),
                    ]);
                    assert(output@ =~= o + tree_bf(self@, *old(pointer) as int));
                }
                *pointer = *position;
            },
        }
    }
}


/// The tree with every cell `a` renamed `map[a]`.
pub open spec fn remap_tree(t: SpecTree, map: Seq<u16>) -> SpecTree
    decreases t,
{
    match t {
        SpecTree::Add(a, v) => SpecTree::Add(map[a as int], v),
        SpecTree::Write(a) => SpecTree::Write(map[a as int]),
        SpecTree::Read(a) => SpecTree::Read(map[a as int]),
        SpecTree::While(a, body) => SpecTree::While(map[a as int], remap_trees(body, map)),
    }
}

/// The trees with every cell `a` renamed `map[a]`.
pub open spec fn remap_trees(s: Seq<SpecTree>, map: Seq<u16>) -> Seq<SpecTree>
    decreases s,
{
    Seq::new(s.len(), |i: int| if 0 <= i < s.len() { remap_tree(s[i], map) } else { SpecTree::Write(0) })
}

/// The cells a tree works on.
pub open spec fn tree_vars(t: SpecTree) -> Set<u16>
    decreases t,
{
    match t {
        SpecTree::While(a, body) => set![a] + trees_vars(body),
        _ => set![tree_address(t)],
    }
}

/// The cells a sequence of trees works on.
pub open spec fn trees_vars(s: Seq<SpecTree>) -> Set<u16>
    decreases s,
{
    if s.len() == 0 {
        Set::empty()
    } else {
        trees_vars(s.drop_last()) + tree_vars(s.last())
    }
}

proof fn lemma_vars_push(s: Seq<SpecTree>, x: SpecTree)
    ensures
        trees_vars(s.push(x)) == trees_vars(s) + tree_vars(x),
{
    assert(s.push(x).drop_last() =~= s);
}

proof fn lemma_vars_below(s: Seq<SpecTree>, bound: int)
    requires
        trees_below(s, bound),
    ensures
        forall|a: u16| trees_vars(s).contains(a) ==> a < bound,
    decreases s,
{
    if s.len() > 0 {
        lemma_vars_below(s.drop_last(), bound);
        lemma_tree_vars_below(s.last(), bound);
        assert forall|a: u16| trees_vars(s).contains(a) implies a < bound by {
            if trees_vars(s.drop_last()).contains(a) {
            } else {
                assert(tree_vars(s.last()).contains(a));
            }
        }
    }
}

proof fn lemma_tree_vars_below(t: SpecTree, bound: int)
    requires
        tree_below(t, bound),
    ensures
        forall|a: u16| tree_vars(t).contains(a) ==> a < bound,
    decreases t,
{
    match t {
        SpecTree::While(a0, body) => {
            lemma_vars_below(body, bound);
            assert forall|a: u16| tree_vars(t).contains(a) implies a < bound by {
                if a != a0 {
                    assert(trees_vars(body).contains(a));
                }
            }
        },
        _ => {},
    }
}

impl ABFTree {
    /// The tree with every cell `a` renamed `address_map[a]`.
    fn remapped(&self, address_map: &[u16]) -> (r: ABFTree)
        requires
            tree_below(self@, address_map@.len() as int),
        ensures
            r@ == remap_tree(self@, address_map@),
        decreases self,
    {
        match self {
            ABFTree::Add(address, value) => ABFTree::Add(address_map[*address as usize], *value),
            ABFTree::Read(address) => ABFTree::Read(address_map[*address as usize]),
            ABFTree::Write(address) => ABFTree::Write(address_map[*address as usize]),
            ABFTree::While(address, body) => {
                let ghost s = trees_view(body@);
                let mut out: Vec<ABFTree> = Vec::new();
                let mut i: usize = 0;
                while i < body.len()
                    invariant
                        i <= body@.len(),
                        out@.len() == i,
                        s == trees_view(body@),
                        *self == ABFTree::While(*address, *body),
                        trees_below(s, address_map@.len() as int),
                        forall|j: int| 0 <= j < out@.len() ==> (#[trigger] out@[j])@ == remap_tree(s[j], address_map@),
                    decreases body@.len() - i,
                {
                    proof {
                        lemma_trees_below_index(s, address_map@.len() as int, i as int);
                        broadcast use vstd::std_specs::vec::axiom_vec_index_decreases;

                        assert(decreases_to!(*body => body[i as int]));
                        assert(decreases_to!(*self => self->While_1));
                    }
                    out.push(body[i].remapped(address_map));
                    i = i + 1;
                }
                assert(trees_view(out@) =~= remap_trees(s, address_map@));
                ABFTree::While(address_map[*address as usize], out)
            },
        }
    }

    /// Adds the cells the tree works on to `addresses`.
    fn collect_variables(&self, addresses: &mut BTreeSet<u16>)
        ensures
            final(addresses)@ == old(addresses)@ + tree_vars(self@),
        decreases self,
    {
        match self {
            ABFTree::Add(address, _) | ABFTree::Write(address) | ABFTree::Read(address) => {
                addresses.insert(*address);
                assert(addresses@ =~= old(addresses)@ + tree_vars(self@));
            },
            ABFTree::While(address, body) => {
                addresses.insert(*address);
                let ghost mid = addresses@;
                let ghost s = trees_view(body@);
                let mut i: usize = 0;
                while i < body.len()
                    invariant
                        i <= body@.len(),
                        s == trees_view(body@),
                        *self == ABFTree::While(*address, *body),
                        addresses@ == mid + trees_vars(s.take(i as int)),
                    decreases body@.len() - i,
                {
                    proof {
                        assert(s.take(i + 1) =~= s.take(i as int).push(s[i as int]));
                        lemma_vars_push(s.take(i as int), s[i as int]);
                        broadcast use vstd::std_specs::vec::axiom_vec_index_decreases;

                        assert(decreases_to!(*body => body[i as int]));
                        assert(decreases_to!(*self => self->While_1));
                    }
                    body[i].collect_variables(addresses);
                    assert(addresses@ =~= mid + trees_vars(s.take(i + 1)));
                    i = i + 1;
                }
                assert(s.take(i as int) =~= s);
                assert(addresses@ =~= old(addresses)@ + tree_vars(self@));
            },
        }
    }
}


/// An edge of the dependency graph: the value of `from` flows into `to`.
#[derive(Debug)]
pub struct Dependency {
    pub from: String,
    pub to: String,
}

/// The text `in`.
pub open spec fn in_text() -> Seq<char> {
    seq!['i', 'n']
}

/// The text `out`.
pub open spec fn out_text() -> Seq<char> {
    seq!['o', 'u', 't']
}

/// The edges a tree adds to the dependency graph: a write flows out, a read flows in, and the
/// condition of a loop flows into every other cell the loop works on.
pub open spec fn tree_edges(t: SpecTree) -> Set<(Seq<char>, Seq<char>)>
    decreases t,
{
    match t {
        SpecTree::Write(a) => set![(decimal(a as nat), out_text())],
        SpecTree::Read(a) => set![(in_text(), decimal(a as nat))],
        SpecTree::While(a, body) => Set::new(
            |e: (Seq<char>, Seq<char>)|
                exists|d: u16| #[trigger] trees_vars(body).contains(d) && d != a && e == (decimal(a as nat), decimal(d as nat)),
        ) + trees_edges(body),
        SpecTree::Add(_, _) => Set::empty(),
    }
}

/// The edges a sequence of trees adds to the dependency graph.
pub open spec fn trees_edges(s: Seq<SpecTree>) -> Set<(Seq<char>, Seq<char>)>
    decreases s,
{
    if s.len() == 0 {
        Set::empty()
    } else {
        trees_edges(s.drop_last()) + tree_edges(s.last())
    }
}

/// The edges a list of dependencies holds.
pub open spec fn edge_set(deps: Seq<Dependency>) -> Set<(Seq<char>, Seq<char>)> {
    Set::new(|e: (Seq<char>, Seq<char>)| exists|i: int| 0 <= i < deps.len() && e == (#[trigger] deps[i].from@, deps[i].to@))
}

/// No edge is listed twice.
pub open spec fn edges_distinct(deps: Seq<Dependency>) -> bool {
    forall|i: int, j: int| 0 <= i < j < deps.len() ==> (#[trigger] deps[i].from@, deps[i].to@) != (#[trigger] deps[j].from@, deps[j].to@)
}

fn text_of(chars: &[char]) -> (r: String)
    ensures
        r@ == chars@,
{
    let mut r = String::new();
    let mut i: usize = 0;
    while i < chars.len()
        invariant
            i <= chars@.len(),
            r@ == chars@.take(i as int),
        decreases chars@.len() - i,
    {
        string_push(&mut r, chars[i]);
        i = i + 1;
        assert(r@ =~= chars@.take(i as int));
    }
    assert(chars@.take(i as int) =~= chars@);
    r
}

/// Adds the edge unless it is listed already.
fn insert_dependency(deps: &mut Vec<Dependency>, dependency: Dependency)
    requires
        edges_distinct(old(deps)@),
    ensures
        edges_distinct(final(deps)@),
        edge_set(final(deps)@) == edge_set(old(deps)@).insert((dependency.from@, dependency.to@)),
{
    let mut i: usize = 0;
    while i < deps.len()
        invariant
            i <= deps@.len(),
            *deps == *old(deps),
            edges_distinct(old(deps)@),
            forall|k: int| 0 <= k < i ==> (#[trigger] deps@[k].from@, deps@[k].to@) != (dependency.from@, dependency.to@),
        decreases deps@.len() - i,
    {
        if deps[i].from == dependency.from && deps[i].to == dependency.to {
            assert(edge_set(deps@).contains((dependency.from@, dependency.to@)));
            assert(edge_set(deps@).insert((dependency.from@, dependency.to@)) =~= edge_set(deps@));
            return;
        }
        i = i + 1;
    }
    let ghost e = (dependency.from@, dependency.to@);
    deps.push(dependency);
    assert forall|x: (Seq<char>, Seq<char>)| edge_set(deps@).contains(x) <==> edge_set(old(deps)@).insert(e).contains(x) by {
        if edge_set(deps@).contains(x) {
            let k = choose|k: int| 0 <= k < deps@.len() && x == (#[trigger] deps@[k].from@, deps@[k].to@);
            if k < old(deps)@.len() {
                assert(deps@[k] == old(deps)@[k]);
            }
        }
        if edge_set(old(deps)@).contains(x) {
            let k = choose|k: int| 0 <= k < old(deps)@.len() && x == (#[trigger] old(deps)@[k].from@, old(deps)@[k].to@);
            assert(deps@[k] == old(deps)@[k]);
        }
        if x == e {
            assert(deps@[deps@.len() - 1].from@ == e.0);
        }
    }
    assert(edge_set(deps@) =~= edge_set(old(deps)@).insert(e));
    assert forall|a: int, b: int| 0 <= a < b < deps@.len() implies (#[trigger] deps@[a].from@, deps@[a].to@) != (#[trigger] deps@[b].from@, deps@[b].to@) by {
        if b == deps@.len() - 1 {
            assert(deps@[a] == old(deps)@[a]);
        } else {
            assert(deps@[a] == old(deps)@[a]);
            assert(deps@[b] == old(deps)@[b]);
        }
    }
}

proof fn lemma_edges_push(s: Seq<SpecTree>, x: SpecTree)
    ensures
        trees_edges(s.push(x)) == trees_edges(s) + tree_edges(x),
{
    assert(s.push(x).drop_last() =~= s);
}

impl ABFTree {
    /// Adds the edges of the tree to the dependency graph.
    fn build_dot_dependency_graph(&self, dependencies: &mut Vec<Dependency>)
        requires
            edges_distinct(old(dependencies)@),
        ensures
            edges_distinct(final(dependencies)@),
            edge_set(final(dependencies)@) == edge_set(old(dependencies)@) + tree_edges(self@),
        decreases self,
    {
        match self {
            ABFTree::Write(address) => {
                let from = decimal_text(*address);
                let to = text_of(&['o', 'u', 't']);
                insert_dependency(dependencies, Dependency { from, to });
                assert(edge_set(dependencies@) =~= edge_set(old(dependencies)@) + tree_edges(self@));
            },
            ABFTree::Read(address) => {
                let from = text_of(&['i', 'n']);
                let to = decimal_text(*address);
                insert_dependency(dependencies, Dependency { from, to });
                assert(edge_set(dependencies@) =~= edge_set(old(dependencies)@) + tree_edges(self@));
            },
            ABFTree::While(address, body) => {
                let mut addresses = BTreeSet::new();
                let mut i: usize = 0;
                let ghost s = trees_view(body@);
                while i < body.len()
                    invariant
                        i <= body@.len(),
                        s == trees_view(body@),
                        *self == ABFTree::While(*address, *body),
                        addresses@ == trees_vars(s.take(i as int)),
                    decreases body@.len() - i,
                {
                    proof {
                        assert(s.take(i + 1) =~= s.take(i as int).push(s[i as int]));
                        lemma_vars_push(s.take(i as int), s[i as int]);
                        broadcast use vstd::std_specs::vec::axiom_vec_index_decreases;

                        assert(decreases_to!(*body => body[i as int]));
                        assert(decreases_to!(*self => self->While_1));
                    }
                    body[i].collect_variables(&mut addresses);
                    i = i + 1;
                }
                proof {
                    assert(s.take(0) =~= Seq::<SpecTree>::empty());
                    assert(s.take(i as int) =~= s);
                }
                let ghost start = edge_set(dependencies@);
                let ghost loop_edges = Set::new(
                    |e: (Seq<char>, Seq<char>)|
                        exists|d: u16| #[trigger] trees_vars(s).contains(d) && d != *address && e == (decimal(*address as nat), decimal(d as nat)),
                );
                let mut destination: u32 = 0;
                while destination < 65536
                    invariant
                        edges_distinct(dependencies@),
                        addresses@ == trees_vars(s),
                        edge_set(dependencies@) == start + Set::new(
                            |e: (Seq<char>, Seq<char>)|
                                exists|d: u16| d < destination && #[trigger] trees_vars(s).contains(d) && d != *address && e == (
                                    decimal(*address as nat),
                                    decimal(d as nat),
                                ),
                        ),
                    decreases 65536 - destination,
                {
                    let ghost before = edge_set(dependencies@);
                    let d = destination as u16;
                    if d != *address && addresses.contains(&d) {
                        let from = decimal_text(*address);
                        let to = decimal_text(d);
                        insert_dependency(dependencies, Dependency { from, to });
                    }
                    destination = destination + 1;
                    assert(edge_set(dependencies@) =~= start + Set::new(
                        |e: (Seq<char>, Seq<char>)|
                            exists|q: u16| q < destination && #[trigger] trees_vars(s).contains(q) && q != *address && e == (
                                decimal(*address as nat),
                                decimal(q as nat),
                            ),
                    ));
                }
                assert(edge_set(dependencies@) =~= start + loop_edges);
                let ghost mid = edge_set(dependencies@);
                let mut i: usize = 0;
                while i < body.len()
                    invariant
                        i <= body@.len(),
                        s == trees_view(body@),
                        *self == ABFTree::While(*address, *body),
                        edges_distinct(dependencies@),
                        edge_set(dependencies@) == mid + trees_edges(s.take(i as int)),
                    decreases body@.len() - i,
                {
                    proof {
                        assert(s.take(i + 1) =~= s.take(i as int).push(s[i as int]));
                        lemma_edges_push(s.take(i as int), s[i as int]);
                        broadcast use vstd::std_specs::vec::axiom_vec_index_decreases;

                        assert(decreases_to!(*body => body[i as int]));
                        assert(decreases_to!(*self => self->While_1));
                    }
                    body[i].build_dot_dependency_graph(dependencies);
                    assert(edge_set(dependencies@) =~= mid + trees_edges(s.take(i + 1)));
                    i = i + 1;
                }
                assert(s.take(i as int) =~= s);
                assert(edge_set(dependencies@) =~= edge_set(old(dependencies)@) + tree_edges(self@));
            },
            ABFTree::Add(_, _) => {
                assert(edge_set(dependencies@) =~= edge_set(old(dependencies)@) + tree_edges(self@));
            },
        }
    }
}


impl Clone for ABFTree {
    fn clone(&self) -> (r: Self)
        ensures
            r@ == self@,
        decreases self,
    {
        match self {
            ABFTree::Add(a, v) => ABFTree::Add(*a, *v),
            ABFTree::Write(a) => ABFTree::Write(*a),
            ABFTree::Read(a) => ABFTree::Read(*a),
            ABFTree::While(a, body) => {
                let mut out: Vec<ABFTree> = Vec::new();
                let mut i: usize = 0;
                while i < body.len()
                    invariant
                        i <= body@.len(),
                        out@.len() == i,
                        *self == ABFTree::While(*a, *body),
                        forall|j: int| 0 <= j < i ==> (#[trigger] out@[j])@ == body@[j]@,
                    decreases body@.len() - i,
                {
                    proof {
                        broadcast use vstd::std_specs::vec::axiom_vec_index_decreases;

                        assert(decreases_to!(*body => body[i as int]));
                        assert(decreases_to!(*self => self->While_1));
                    }
                    out.push(body[i].clone());
                    i = i + 1;
                }
                assert(trees_view(out@) =~= trees_view(body@));
                ABFTree::While(*a, out)
            },
        }
    }
}

/// The number of trees, counting those in loop bodies.
pub open spec fn tree_size(t: SpecTree) -> nat
    decreases t,
{
    match t {
        SpecTree::While(_, body) => 1 + trees_size(body),
        _ => 1,
    }
}

/// The number of trees of a sequence, counting those in loop bodies.
pub open spec fn trees_size(s: Seq<SpecTree>) -> nat
    decreases s,
{
    if s.len() == 0 {
        0
    } else {
        trees_size(s.drop_last()) + tree_size(s.last())
    }
}

/// The two trees differ only in the cells they work on.
pub open spec fn same_shape(a: SpecTree, b: SpecTree) -> bool
    decreases a,
{
    match (a, b) {
        (SpecTree::Add(_, v), SpecTree::Add(_, w)) => v == w,
        (SpecTree::Write(_), SpecTree::Write(_)) => true,
        (SpecTree::Read(_), SpecTree::Read(_)) => true,
        (SpecTree::While(_, x), SpecTree::While(_, y)) => shapes_same(x, y),
        _ => false,
    }
}

/// The two sequences differ only in the cells they work on.
pub open spec fn shapes_same(a: Seq<SpecTree>, b: Seq<SpecTree>) -> bool
    decreases a,
{
    if a.len() != b.len() {
        false
    } else if a.len() == 0 {
        true
    } else {
        shapes_same(a.drop_last(), b.drop_last()) && same_shape(a.last(), b.last())
    }
}

proof fn lemma_size_index(s: Seq<SpecTree>, i: int)
    requires
        0 <= i < s.len(),
    ensures
        tree_size(s[i]) + trees_size(s.take(i)) <= trees_size(s),
        trees_size(s.take(i + 1)) == trees_size(s.take(i)) + tree_size(s[i]),
    decreases s.len(),
{
    assert(s.take(i + 1).drop_last() =~= s.take(i));
    assert(s.take(i + 1).last() == s[i]);
    if i < s.len() - 1 {
        lemma_size_index(s.drop_last(), i);
        assert(s.drop_last().take(i) =~= s.take(i));
    }
}

proof fn lemma_below_push(s: Seq<SpecTree>, x: SpecTree, bound: int)
    ensures
        trees_below(s.push(x), bound) == (trees_below(s, bound) && tree_below(x, bound)),
        shapes_same(s.push(x), s.push(x)) == (shapes_same(s, s) && same_shape(x, x)),
{
    assert(s.push(x).drop_last() =~= s);
}

proof fn lemma_tree_below_mono(t: SpecTree, a: int, b: int)
    requires
        tree_below(t, a),
        a <= b,
    ensures
        tree_below(t, b),
    decreases t,
{
    match t {
        SpecTree::While(_, body) => lemma_trees_below_mono(body, a, b),
        _ => {},
    }
}

proof fn lemma_trees_below_mono(s: Seq<SpecTree>, a: int, b: int)
    requires
        trees_below(s, a),
        a <= b,
    ensures
        trees_below(s, b),
    decreases s,
{
    if s.len() > 0 {
        lemma_trees_below_mono(s.drop_last(), a, b);
        lemma_tree_below_mono(s.last(), a, b);
    }
}

proof fn lemma_shapes_push(a: Seq<SpecTree>, b: Seq<SpecTree>, x: SpecTree, y: SpecTree)
    ensures
        shapes_same(a.push(x), b.push(y)) == (shapes_same(a, b) && same_shape(x, y)),
{
    assert(a.push(x).drop_last() =~= a);
    assert(b.push(y).drop_last() =~= b);
}

/// The name of cell `a` where `names` holds the names given so far and `next` is the next
/// number, with the names and the next number after it: a cell met for the first time gets
/// `next`.
pub open spec fn renamed_cell(names: Map<u16, u16>, next: int, a: u16) -> (u16, Map<u16, u16>, int) {
    if names.contains_key(a) {
        (names[a], names, next)
    } else {
        (next as u16, names.insert(a, next as u16), next + 1)
    }
}

/// The tree with its cells renamed in the order they are met, with the names and the next
/// number after it; after a loop outside any loop, its condition cell gets a fresh number.
pub open spec fn renamed_tree(names: Map<u16, u16>, next: int, t: SpecTree, in_loop: bool) -> (SpecTree, Map<u16, u16>, int)
    decreases t,
{
    match t {
        SpecTree::Add(a, v) => {
            let c = renamed_cell(names, next, a);
            (SpecTree::Add(c.0, v), c.1, c.2)
        },
        SpecTree::Write(a) => {
            let c = renamed_cell(names, next, a);
            (SpecTree::Write(c.0), c.1, c.2)
        },
        SpecTree::Read(a) => {
            let c = renamed_cell(names, next, a);
            (SpecTree::Read(c.0), c.1, c.2)
        },
        SpecTree::While(a, b) => {
            let c = renamed_cell(names, next, a);
            let r = renamed_trees(c.1, c.2, b, true);
            if in_loop {
                (SpecTree::While(c.0, r.0), r.1, r.2)
            } else {
                (SpecTree::While(c.0, r.0), r.1.insert(a, r.2 as u16), r.2 + 1)
            }
        },
    }
}

/// The trees with their cells renamed in the order they are met, with the names and the next
/// number after them.
pub open spec fn renamed_trees(names: Map<u16, u16>, next: int, s: Seq<SpecTree>, in_loop: bool) -> (Seq<SpecTree>, Map<u16, u16>, int)
    decreases s,
{
    if s.len() == 0 {
        (Seq::empty(), names, next)
    } else {
        let p = renamed_trees(names, next, s.drop_last(), in_loop);
        let t = renamed_tree(p.1, p.2, s.last(), in_loop);
        (p.0.push(t.0), t.1, t.2)
    }
}

impl ABFTree {
    /// The tree with its cells renamed apart: a cell met for the first time gets the next
    /// number, and after a loop outside any loop its condition cell, which is then zero, gets
    /// a fresh number for what follows.
    fn disentangled(&self, address_map: &mut BTreeMap<u16, u16>, address_counter: &mut u16, in_loop: bool) -> (r: ABFTree)
        requires
            *old(address_counter) + 2 * tree_size(self@) <= 65535,
            forall|a: u16| #[trigger] old(address_map)@.contains_key(a) ==> old(address_map)@[a] < *old(address_counter),
        ensures
            same_shape(self@, r@),
            tree_below(r@, *final(address_counter) as int),
            *old(address_counter) <= *final(address_counter) <= *old(address_counter) + 2 * tree_size(self@),
            forall|a: u16| #[trigger] final(address_map)@.contains_key(a) ==> final(address_map)@[a] < *final(address_counter),
            (r@, final(address_map)@, *final(address_counter) as int) == renamed_tree(
                old(address_map)@,
                *old(address_counter) as int,
                self@,
                in_loop,
            ),
        decreases self,
    {
        let (original_address, body) = match self {
            ABFTree::Add(address, _) => (*address, None),
            ABFTree::Write(address) => (*address, None),
            ABFTree::Read(address) => (*address, None),
            ABFTree::While(address, body) => (*address, Some(body)),
        };
        let address = match address_map.get(&original_address) {
            Some(mapped) => *mapped,
            None => {
                let fresh = *address_counter;
                address_map.insert(original_address, fresh);
                *address_counter = *address_counter + 1;
                fresh
            },
        };
        let ghost names1 = address_map@;
        let ghost next1 = *address_counter as int;
        assert((address, names1, next1) == renamed_cell(old(address_map)@, *old(address_counter) as int, original_address));
        match self {
            ABFTree::Add(_, value) => ABFTree::Add(address, *value),
            ABFTree::Write(_) => ABFTree::Write(address),
            ABFTree::Read(_) => ABFTree::Read(address),
            ABFTree::While(_, body) => {
                let ghost s = trees_view(body@);
                let ghost c0 = *address_counter;
                let mut out: Vec<ABFTree> = Vec::new();
                let mut i: usize = 0;
                proof {
                    assert(s.take(0) =~= Seq::<SpecTree>::empty());
                    assert(trees_view(out@) =~= Seq::<SpecTree>::empty());
                }
                while i < body.len()
                    invariant
                        i <= body@.len(),
                        s == trees_view(body@),
                        *self == ABFTree::While(original_address, *body),
                        (trees_view(out@), address_map@, *address_counter as int) == renamed_trees(names1, next1, s.take(i as int), true),
                        tree_size(self@) == 1 + trees_size(s),
                        address < c0 <= *address_counter,
                        *address_counter <= c0 + 2 * trees_size(s.take(i as int)),
                        c0 + 2 * trees_size(s) <= 65535,
                        shapes_same(s.take(i as int), trees_view(out@)),
                        trees_below(trees_view(out@), *address_counter as int),
                        forall|a: u16| #[trigger] address_map@.contains_key(a) ==> address_map@[a] < *address_counter,
                    decreases body@.len() - i,
                {
                    proof {
                        lemma_size_index(s, i as int);
                        broadcast use vstd::std_specs::vec::axiom_vec_index_decreases;

                        assert(decreases_to!(*body => body[i as int]));
                        assert(decreases_to!(*self => self->While_1));
                    }
                    let ghost before = out@;
                    let ghost counter_before = *address_counter;
                    let tree = body[i].disentangled(address_map, address_counter, true);
                    out.push(tree);
                    proof {
                        lemma_trees_view_push(before, tree);
                        assert(s.take(i + 1) =~= s.take(i as int).push(s[i as int]));
                        assert(s.take(i + 1).drop_last() =~= s.take(i as int));
                        lemma_shapes_push(s.take(i as int), trees_view(before), s[i as int], tree@);
                        lemma_trees_below_mono(trees_view(before), counter_before as int, *address_counter as int);
                        lemma_below_push(trees_view(before), tree@, *address_counter as int);
                    }
                    i = i + 1;
                }
                assert(s.take(i as int) =~= s);
                if !in_loop {
                    let fresh = *address_counter;
                    address_map.insert(original_address, fresh);
                    *address_counter = *address_counter + 1;
                    proof {
                        lemma_trees_below_mono(trees_view(out@), fresh as int, *address_counter as int);
                    }
                }
                ABFTree::While(address, out)
            },
        }
    }
}


/// The cells a list of relative updates is about.
pub open spec fn update_keys(v: Seq<(u16, Option<i8>)>) -> Set<u16> {
    Set::new(|k: u16| exists|i: int| 0 <= i < v.len() && #[trigger] v[i].0 == k)
}

/// No cell is in the list twice.
pub open spec fn keys_unique(v: Seq<(u16, Option<i8>)>) -> bool {
    forall|i: int, j: int| #![trigger v[i], v[j]] 0 <= i < v.len() && 0 <= j < v.len() && v[i].0 == v[j].0 ==> i == j
}

/// The list as a map from each cell to its update.
pub open spec fn update_model(v: Seq<(u16, Option<i8>)>) -> Map<u16, Option<i8>> {
    Map::new(|k: u16| update_keys(v).contains(k), |k: u16| v[choose|j: int| 0 <= j < v.len() && v[j].0 == k].1)
}

/// In a list without repeated cells, the update of the cell at a place is the one there.
proof fn lemma_update_model_at(v: Seq<(u16, Option<i8>)>, j: int)
    requires
        keys_unique(v),
        0 <= j < v.len(),
    ensures
        update_model(v).contains_key(v[j].0),
        update_model(v)[v[j].0] == v[j].1,
{
    let k = v[j].0;
    assert(update_keys(v).contains(k));
    let q = choose|q: int| 0 <= q < v.len() && v[q].0 == k;
    assert(v[q].0 == v[j].0);
}

/// Where the list holds `key`.
fn find_update(v: &Vec<(u16, Option<i8>)>, key: u16) -> (r: Option<usize>)
    ensures
        r matches Some(i) ==> i < v@.len() && v@[i as int].0 == key,
        r is None ==> !update_keys(v@).contains(key),
{
    let mut i: usize = 0;
    while i < v.len()
        invariant
            i <= v@.len(),
            forall|k: int| 0 <= k < i ==> v@[k].0 != key,
        decreases v@.len() - i,
    {
        if v[i].0 == key {
            return Some(i);
        }
        i = i + 1;
    }
    None
}

/// The list with `key` mapped to `value`.
fn set_update(v: &mut Vec<(u16, Option<i8>)>, key: u16, value: Option<i8>)
    requires
        keys_unique(old(v)@),
    ensures
        keys_unique(final(v)@),
        update_keys(final(v)@) == update_keys(old(v)@).insert(key),
        update_model(final(v)@) == update_model(old(v)@).insert(key, value),
{
    let ghost before = v@;
    match find_update(v, key) {
        Some(i) => {
            v.set(i, (key, value));
            assert forall|j: int| 0 <= j < v@.len() implies #[trigger] v@[j].0 == before[j].0 by {}
            assert(keys_unique(v@)) by {
                assert forall|j1: int, j2: int| #![trigger v@[j1], v@[j2]]
                    0 <= j1 < v@.len() && 0 <= j2 < v@.len() && v@[j1].0 == v@[j2].0 implies j1 == j2 by {
                    assert(before[j1].0 == before[j2].0);
                }
            }
            assert forall|k: u16| update_keys(v@).contains(k) <==> update_keys(before).insert(key).contains(k) by {
                if update_keys(before).contains(k) {
                    let j = choose|j: int| 0 <= j < before.len() && #[trigger] before[j].0 == k;
                    assert(v@[j].0 == k);
                }
                if update_keys(v@).contains(k) {
                    let j = choose|j: int| 0 <= j < v@.len() && #[trigger] v@[j].0 == k;
                    assert(before[j].0 == k);
                }
            }
            assert(update_keys(v@) =~= update_keys(before).insert(key));
            assert forall|k: u16| #[trigger] update_model(v@).contains_key(k) implies update_model(v@)[k] == update_model(before).insert(
                key,
                value,
            )[k] by {
                let j = choose|j: int| 0 <= j < v@.len() && v@[j].0 == k;
                lemma_update_model_at(v@, j);
                if j != i {
                    lemma_update_model_at(before, j);
                }
            }
            assert(update_model(v@) =~= update_model(before).insert(key, value));
        },
        None => {
            v.push((key, value));
            assert forall|j: int| 0 <= j < before.len() implies #[trigger] v@[j] == before[j] by {}
            assert(keys_unique(v@)) by {
                assert forall|j1: int, j2: int| #![trigger v@[j1], v@[j2]]
                    0 <= j1 < v@.len() && 0 <= j2 < v@.len() && v@[j1].0 == v@[j2].0 implies j1 == j2 by {
                    if j1 < before.len() && j2 < before.len() {
                        assert(before[j1].0 == before[j2].0);
                    } else if j1 < before.len() {
                        assert(update_keys(before).contains(before[j1].0));
                    } else if j2 < before.len() {
                        assert(update_keys(before).contains(before[j2].0));
                    }
                }
            }
            assert forall|k: u16| update_keys(v@).contains(k) <==> update_keys(before).insert(key).contains(k) by {
                if update_keys(before).contains(k) {
                    let j = choose|j: int| 0 <= j < before.len() && #[trigger] before[j].0 == k;
                    assert(v@[j].0 == k);
                }
                if update_keys(v@).contains(k) {
                    let j = choose|j: int| 0 <= j < v@.len() && #[trigger] v@[j].0 == k;
                    if j < before.len() {
                        assert(before[j].0 == k);
                    }
                }
                if k == key {
                    assert(v@[before.len() as int].0 == k);
                }
            }
            assert(update_keys(v@) =~= update_keys(before).insert(key));
            assert forall|k: u16| #[trigger] update_model(v@).contains_key(k) implies update_model(v@)[k] == update_model(before).insert(
                key,
                value,
            )[k] by {
                let j = choose|j: int| 0 <= j < v@.len() && v@[j].0 == k;
                lemma_update_model_at(v@, j);
                if j < before.len() {
                    lemma_update_model_at(before, j);
                }
            }
            assert(update_model(v@) =~= update_model(before).insert(key, value));
        },
    }
}

/// Some entry of the first `k` of the list makes the cell change by other than zero.
pub open spec fn cleared_by(e: Seq<(u16, Option<i8>)>, k: int, c: u16) -> bool {
    exists|j: int| #![trigger e[j]] 0 <= j < k && e[j].0 == c && e[j].1 != Some(0i8)
}

impl ABFTree {
    /// Records how the tree changes each cell relative to its value before: by a known amount,
    /// or in an unknown way (`None`).
    fn analyze_relative_updates(&self, relative_updates: &mut Vec<(u16, Option<i8>)>)
        requires
            keys_unique(old(relative_updates)@),
        ensures
            keys_unique(final(relative_updates)@),
            update_model(final(relative_updates)@) == rel_tree(update_model(old(relative_updates)@), self@),
            update_keys(final(relative_updates)@).subset_of(update_keys(old(relative_updates)@) + tree_vars(self@)),
        decreases self,
    {
        let ghost r = update_model(relative_updates@);
        match self {
            ABFTree::Add(address, amount) => {
                match find_update(relative_updates, *address) {
                    Some(i) => {
                        proof { lemma_update_model_at(relative_updates@, i as int); }
                        match relative_updates[i].1 {
                            Some(x) => {
                                set_update(relative_updates, *address, Some(x.wrapping_add(*amount)));
                            },
                            None => {},
                        }
                    },
                    None => {
                        set_update(relative_updates, *address, Some(*amount));
                    },
                }
            },
            ABFTree::Write(_) => {},
            ABFTree::Read(address) => {
                set_update(relative_updates, *address, None);
            },
            ABFTree::While(_, body) => {
                let mut body_relative_updates: Vec<(u16, Option<i8>)> = Vec::new();
                let ghost s = trees_view(body@);
                let mut i: usize = 0;
                proof {
                    assert(s.take(0) =~= Seq::<SpecTree>::empty());
                    assert(update_keys(body_relative_updates@) =~= Set::<u16>::empty());
                    assert(update_model(body_relative_updates@) =~= Map::<u16, Option<i8>>::empty());
                }
                while i < body.len()
                    invariant
                        i <= body@.len(),
                        s == trees_view(body@),
                        *self == ABFTree::While(self->While_0, *body),
                        keys_unique(body_relative_updates@),
                        update_model(body_relative_updates@) == rel_trees(Map::empty(), s.take(i as int)),
                        update_keys(body_relative_updates@).subset_of(trees_vars(s.take(i as int))),
                    decreases body@.len() - i,
                {
                    proof {
                        assert(s.take(i + 1) =~= s.take(i as int).push(s[i as int]));
                        assert(s.take(i + 1).drop_last() =~= s.take(i as int));
                        lemma_vars_push(s.take(i as int), s[i as int]);
                        broadcast use vstd::std_specs::vec::axiom_vec_index_decreases;

                        assert(decreases_to!(*body => body[i as int]));
                        assert(decreases_to!(*self => self->While_1));
                    }
                    body[i].analyze_relative_updates(&mut body_relative_updates);
                    i = i + 1;
                }
                assert(s.take(i as int) =~= s);
                let ghost e = body_relative_updates@;
                let ghost bm = rel_trees(Map::empty(), s);
                let mut k: usize = 0;
                proof {
                    assert(update_model(relative_updates@) =~= Map::new(
                        |c: u16| r.contains_key(c) || cleared_by(e, 0, c),
                        |c: u16| if cleared_by(e, 0, c) { None } else { r[c] },
                    ));
                }
                while k < body_relative_updates.len()
                    invariant
                        *self == ABFTree::While(self->While_0, *body),
                        s == trees_view(body@),
                        e == body_relative_updates@,
                        k <= e.len(),
                        keys_unique(relative_updates@),
                        update_keys(body_relative_updates@).subset_of(trees_vars(s)),
                        update_keys(relative_updates@).subset_of(update_keys(old(relative_updates)@) + tree_vars(self@)),
                        update_model(relative_updates@) == Map::new(
                            |c: u16| r.contains_key(c) || cleared_by(e, k as int, c),
                            |c: u16| if cleared_by(e, k as int, c) { None } else { r[c] },
                        ),
                    decreases body_relative_updates@.len() - k,
                {
                    let (key, value) = body_relative_updates[k];
                    let ghost before = update_model(relative_updates@);
                    match value {
                        Some(0) => {},
                        _ => {
                            assert(update_keys(body_relative_updates@).contains(key));
                            set_update(relative_updates, key, None);
                        },
                    }
                    k = k + 1;
                    proof {
                        assert forall|c: u16| cleared_by(e, k as int, c) <==> cleared_by(e, k - 1, c) || (c == key && value != Some(0i8)) by {
                            if cleared_by(e, k as int, c) {
                                let j = choose|j: int| #![trigger e[j]] 0 <= j < k && e[j].0 == c && e[j].1 != Some(0i8);
                                if j < k - 1 {
                                    assert(cleared_by(e, k - 1, c));
                                }
                            }
                            if c == key && value != Some(0i8) {
                                assert(e[k - 1].0 == c);
                            }
                            if cleared_by(e, k - 1, c) {
                                let j = choose|j: int| #![trigger e[j]] 0 <= j < k - 1 && e[j].0 == c && e[j].1 != Some(0i8);
                                assert(e[j].0 == c);
                            }
                        }
                        assert(update_model(relative_updates@) =~= Map::new(
                            |c: u16| r.contains_key(c) || cleared_by(e, k as int, c),
                            |c: u16| if cleared_by(e, k as int, c) { None } else { r[c] },
                        ));
                    }
                }
                proof {
                    assert forall|c: u16| cleared_by(e, e.len() as int, c) <==> !loop_stable(bm, c) by {
                        if cleared_by(e, e.len() as int, c) {
                            let j = choose|j: int| #![trigger e[j]] 0 <= j < e.len() && e[j].0 == c && e[j].1 != Some(0i8);
                            lemma_update_model_at(e, j);
                        }
                        if !loop_stable(bm, c) {
                            let j = choose|j: int| 0 <= j < e.len() && e[j].0 == c;
                            lemma_update_model_at(e, j);
                            assert(e[j].0 == c);
                        }
                    }
                    assert(update_model(relative_updates@) =~= rel_tree(r, self@));
                }
            },
        }
    }
}

/// The trees after `x` is added as [`ABFProgram::push_instruction`] adds it: an addition to
/// the cell that the last tree adds to merges into it.
pub open spec fn merge_push(s: Seq<SpecTree>, x: SpecTree) -> Seq<SpecTree> {
    match (x, s.last()) {
        (SpecTree::Add(a, v), SpecTree::Add(b, w)) => if s.len() > 0 && a == b {
            s.drop_last().push(SpecTree::Add(b, w.wrapping_add(v)))
        } else {
            s.push(x)
        },
        _ => s.push(x),
    }
}

/// The trees added one by one as [`ABFProgram::push_instruction`] adds them.
pub open spec fn merge_all(s: Seq<SpecTree>, t: Seq<SpecTree>) -> Seq<SpecTree>
    decreases t.len(),
{
    if t.len() == 0 {
        s
    } else {
        merge_push(merge_all(s, t.drop_last()), t.last())
    }
}

/// What the dead-loop pass knows of the cells after one more tree: an `Add` moves a known
/// cell, a `Read` makes its cell unknown, and a loop not known dead makes unknown every cell
/// that its body changes by other than zero and leaves its own cell known zero.
pub open spec fn known_step(cs: Seq<Option<u8>>, t: SpecTree) -> Seq<Option<u8>> {
    match t {
        SpecTree::Add(a, d) => match cs[a as int] {
            Some(x) => cs.update(a as int, Some(wrap_add(x, d as int))),
            None => cs,
        },
        SpecTree::Write(_) => cs,
        SpecTree::Read(a) => cs.update(a as int, None),
        SpecTree::While(a, b) => if cs[a as int] == Some(0u8) {
            cs
        } else {
            Seq::new(
                cs.len(),
                |c: int|
                    if c == a as int {
                        Some(0u8)
                    } else if !loop_stable(rel_trees(Map::empty(), b), c as u16) {
                        None
                    } else {
                        cs[c]
                    },
            )
        },
    }
}

/// What the dead-loop pass knows of the cells after the trees, from cells all known zero.
pub open spec fn known_after(s: Seq<SpecTree>) -> Seq<Option<u8>>
    decreases s.len(),
{
    if s.len() == 0 {
        Seq::new(30000, |c: int| Some(0u8))
    } else {
        known_step(known_after(s.drop_last()), s.last())
    }
}

/// The trees without each loop whose cell is known zero where it starts.
pub open spec fn live_trees(s: Seq<SpecTree>) -> Seq<SpecTree>
    decreases s.len(),
{
    if s.len() == 0 {
        Seq::empty()
    } else if s.last() is While && known_after(s.drop_last())[s.last()->While_0 as int] == Some(0u8) {
        live_trees(s.drop_last())
    } else {
        live_trees(s.drop_last()).push(s.last())
    }
}

/// The state after one tree, where it ends within `fuel` rounds of each loop it runs; `None`
/// where a loop needs more, or a byte is read from empty input. A loop runs its body while its
/// cell is not zero.
pub open spec fn run_tree(t: SpecTree, st: AbfState, fuel: nat) -> Option<AbfState>
    decreases fuel, 0nat,
{
    match t {
        SpecTree::Add(a, d) => Some(AbfState { cells: st.cells.insert(a, wrap_add(cell(st.cells, a), d as int)), ..st }),
        SpecTree::Write(a) => Some(AbfState { output: st.output.push(cell(st.cells, a)), ..st }),
        SpecTree::Read(a) => if st.input.len() == 0 {
            None
        } else {
            Some(AbfState { cells: st.cells.insert(a, st.input[0]), input: st.input.drop_first(), output: st.output })
        },
        SpecTree::While(a, body) => if cell(st.cells, a) == 0 {
            Some(st)
        } else if fuel == 0 {
            None
        } else {
            match run_trees(body, st, (fuel - 1) as nat) {
                Some(next) => run_tree(t, next, (fuel - 1) as nat),
                None => None,
            }
        },
    }
}

/// The state after the trees, in order; `None` where one of them gives none.
pub open spec fn run_trees(s: Seq<SpecTree>, st: AbfState, fuel: nat) -> Option<AbfState>
    decreases fuel, s.len(),
{
    if s.len() == 0 {
        Some(st)
    } else {
        match run_trees(s.drop_last(), st, fuel) {
            Some(mid) => run_tree(s.last(), mid, fuel),
            None => None,
        }
    }
}

/// How the cells stand after a tree, relative to where they stood before the code that `r`
/// describes: changed by a known amount, in an unknown way (`None`), or, for a cell that is
/// not a key, not at all. An addition adds to a known amount and makes a cell unknown so far
/// known; a read makes its cell unknown; a loop makes unknown every cell that its body changes
/// by other than zero.
pub open spec fn rel_tree(r: Map<u16, Option<i8>>, t: SpecTree) -> Map<u16, Option<i8>>
    decreases t,
{
    match t {
        SpecTree::Add(a, d) => if r.contains_key(a) {
            match r[a] {
                Some(x) => r.insert(a, Some(x.wrapping_add(d))),
                None => r,
            }
        } else {
            r.insert(a, Some(d))
        },
        SpecTree::Write(_) => r,
        SpecTree::Read(a) => r.insert(a, None),
        SpecTree::While(_, body) => {
            let b = rel_trees(Map::empty(), body);
            Map::new(
                |k: u16| r.contains_key(k) || !loop_stable(b, k),
                |k: u16|
                    if !loop_stable(b, k) {
                        None
                    } else {
                        r[k]
                    },
            )
        },
    }
}

/// [`rel_tree`] over the trees, in order.
pub open spec fn rel_trees(r: Map<u16, Option<i8>>, s: Seq<SpecTree>) -> Map<u16, Option<i8>>
    decreases s,
{
    if s.len() == 0 {
        r
    } else {
        rel_tree(rel_trees(r, s.drop_last()), s.last())
    }
}

/// A body that changes the cell as `b` says leaves it where it was.
pub open spec fn loop_stable(b: Map<u16, Option<i8>>, c: u16) -> bool {
    !b.contains_key(c) || b[c] == Some(0i8)
}

/// `r` says truly how `cells` stand relative to `base`.
pub open spec fn describes(r: Map<u16, Option<i8>>, base: Map<u16, u8>, cells: Map<u16, u8>) -> bool {
    forall|c: u16|
        #[trigger] cell(cells, c) == if !r.contains_key(c) {
            cell(base, c)
        } else {
            match r[c] {
                Some(d) => wrap_add(cell(base, c), d as int),
                None => cell(cells, c),
            }
        }
}

/// What [`rel_trees`] says of a run holds of it.
proof fn lemma_rel_trees(s: Seq<SpecTree>, r: Map<u16, Option<i8>>, base: Map<u16, u8>, st: AbfState, fuel: nat)
    requires
        describes(r, base, st.cells),
        run_trees(s, st, fuel) is Some,
    ensures
        describes(rel_trees(r, s), base, run_trees(s, st, fuel)->Some_0.cells),
    decreases fuel, s.len(), 2nat,
{
    if s.len() > 0 {
        lemma_rel_trees(s.drop_last(), r, base, st, fuel);
        let mid = run_trees(s.drop_last(), st, fuel)->Some_0;
        lemma_rel_tree(s.last(), rel_trees(r, s.drop_last()), base, mid, fuel);
    }
}

/// What [`rel_tree`] says of a run holds of it.
proof fn lemma_rel_tree(t: SpecTree, r: Map<u16, Option<i8>>, base: Map<u16, u8>, st: AbfState, fuel: nat)
    requires
        describes(r, base, st.cells),
        run_tree(t, st, fuel) is Some,
    ensures
        describes(rel_tree(r, t), base, run_tree(t, st, fuel)->Some_0.cells),
    decreases fuel, 0nat, 1nat,
{
    let after = run_tree(t, st, fuel)->Some_0;
    let r2 = rel_tree(r, t);
    match t {
        SpecTree::Add(a, d) => {
            assert forall|c: u16| #[trigger] cell(after.cells, c) == if !r2.contains_key(c) {
                cell(base, c)
            } else {
                match r2[c] {
                    Some(e) => wrap_add(cell(base, c), e as int),
                    None => cell(after.cells, c),
                }
            } by {
                let v = cell(st.cells, c);
                if c == a {
                    assert(cell(after.cells, c) == wrap_add(v, d as int));
                    if r.contains_key(a) {
                        if let Some(x) = r[a] {
                            assert(v == wrap_add(cell(base, c), x as int));
                            lemma_wrap_add_twice(cell(base, c), x as int, d as int);
                            let w = x.wrapping_add(d);
                            assert((x + d) % 256 == (w as int) % 256) by (nonlinear_arith)
                                requires
                                    w == (if x + d > 127 { x + d - 256 } else if x + d < -128 { x + d + 256 } else { x + d }),
                            {
                            }
                            lemma_wrap_add_congruent(cell(base, c), x + d, w as int);
                        }
                    } else {
                        assert(v == cell(base, c));
                    }
                } else {
                    assert(cell(after.cells, c) == v);
                }
            }
        },
        SpecTree::Write(_) => {
            assert forall|c: u16| #[trigger] cell(after.cells, c) == cell(st.cells, c) by {}
        },
        SpecTree::Read(a) => {
            assert forall|c: u16| #[trigger] cell(after.cells, c) == if !r2.contains_key(c) {
                cell(base, c)
            } else {
                match r2[c] {
                    Some(e) => wrap_add(cell(base, c), e as int),
                    None => cell(after.cells, c),
                }
            } by {
                let v = cell(st.cells, c);
                if c != a {
                    assert(cell(after.cells, c) == v);
                    assert(r2.contains_key(c) == r.contains_key(c));
                }
            }
        },
        SpecTree::While(a, body) => {
            let b = rel_trees(Map::empty(), body);
            lemma_loop_stable(a, body, st, fuel);
            assert forall|c: u16| #[trigger] cell(after.cells, c) == if !r2.contains_key(c) {
                cell(base, c)
            } else {
                match r2[c] {
                    Some(e) => wrap_add(cell(base, c), e as int),
                    None => cell(after.cells, c),
                }
            } by {
                assert(cell(st.cells, c) == cell(st.cells, c));
            }
        },
    }
}

/// A loop leaves alone every cell that its body changes by zero, and ends with its own cell at
/// zero.
proof fn lemma_loop_stable(a: u16, body: Seq<SpecTree>, st: AbfState, fuel: nat)
    requires
        run_tree(SpecTree::While(a, body), st, fuel) is Some,
    ensures
        cell(run_tree(SpecTree::While(a, body), st, fuel)->Some_0.cells, a) == 0,
        forall|c: u16|
            loop_stable(rel_trees(Map::empty(), body), c) ==> #[trigger] cell(
                run_tree(SpecTree::While(a, body), st, fuel)->Some_0.cells,
                c,
            ) == cell(st.cells, c),
    decreases fuel, 0nat, 0nat,
{
    if cell(st.cells, a) != 0 {
        let f = (fuel - 1) as nat;
        let b = rel_trees(Map::empty(), body);
        assert(describes(Map::empty(), st.cells, st.cells));
        lemma_rel_trees(body, Map::empty(), st.cells, st, f);
        let next = run_trees(body, st, f)->Some_0;
        assert forall|c: u16| loop_stable(b, c) implies #[trigger] cell(next.cells, c) == cell(st.cells, c) by {
            if b.contains_key(c) {
                lemma_wrap_add_twice(cell(st.cells, c), 0, 0);
            }
        }
        lemma_loop_stable(a, body, next, f);
    }
}

/// Running one more tree.
proof fn lemma_run_trees_push(s: Seq<SpecTree>, x: SpecTree, st: AbfState, fuel: nat)
    ensures
        run_trees(s.push(x), st, fuel) == match run_trees(s, st, fuel) {
            Some(mid) => run_tree(x, mid, fuel),
            None => None,
        },
{
    assert(s.push(x).drop_last() =~= s);
}

/// Merging an addition into the one before it changes nothing in what running does.
proof fn lemma_run_merge_push(s: Seq<SpecTree>, x: SpecTree, st: AbfState, fuel: nat)
    ensures
        run_trees(merge_push(s, x), st, fuel) == run_trees(s.push(x), st, fuel),
{
    lemma_run_trees_push(s, x, st, fuel);
    if let SpecTree::Add(a, v) = x {
        if let SpecTree::Add(b, w) = s.last() {
            if s.len() > 0 && a == b {
                let p = s.drop_last();
                let merged = SpecTree::Add(b, w.wrapping_add(v));
                assert(p.push(s.last()) =~= s);
                lemma_run_trees_push(p, s.last(), st, fuel);
                lemma_run_trees_push(p, merged, st, fuel);
                if let Some(mid) = run_trees(p, st, fuel) {
                    let c0 = cell(mid.cells, b);
                    lemma_wrap_add_twice(c0, w as int, v as int);
                    let u = w.wrapping_add(v);
                    assert((w + v) % 256 == (u as int) % 256) by (nonlinear_arith)
                        requires
                            u == (if w + v > 127 { w + v - 256 } else if w + v < -128 { w + v + 256 } else { w + v }),
                    {
                    }
                    lemma_wrap_add_congruent(c0, w + v, u as int);
                    let one = run_tree(s.last(), mid, fuel)->Some_0;
                    assert(one.cells.insert(b, wrap_add(cell(one.cells, b), v as int)) =~= mid.cells.insert(b, wrap_add(c0, u as int)));
                }
            }
        }
    }
}

/// Adding trees one by one, merging additions, changes nothing in what running does.
proof fn lemma_run_merge_all(s: Seq<SpecTree>, t: Seq<SpecTree>, st: AbfState, fuel: nat)
    ensures
        run_trees(merge_all(s, t), st, fuel) == run_trees(s + t, st, fuel),
    decreases t.len(),
{
    if t.len() == 0 {
        assert(s + t =~= s);
    } else {
        let q = t.drop_last();
        lemma_run_merge_all(s, q, st, fuel);
        lemma_run_merge_push(merge_all(s, q), t.last(), st, fuel);
        lemma_run_trees_push(merge_all(s, q), t.last(), st, fuel);
        lemma_run_trees_push(s + q, t.last(), st, fuel);
        assert((s + q).push(t.last()) =~= s + t);
    }
}

/// Every cell is zero.
pub open spec fn all_zero(cells: Map<u16, u8>) -> bool {
    forall|a: u16| #[trigger] cell(cells, a) == 0
}

/// What `known` says of the first 30000 cells is true of `cells`.
pub open spec fn consistent(known: Seq<Option<u8>>, cells: Map<u16, u8>) -> bool {
    forall|c: u16| c < 30000 && #[trigger] known[c as int] is Some ==> cell(cells, c) == known[c as int]->Some_0
}

/// Adding the byte that an amount truncates to is adding the amount, wrapping.
proof fn lemma_byte_add(x: u8, d: i8)
    ensures
        x.wrapping_add(d as u8) == wrap_add(x, d as int),
{
    assert(d < 0 ==> (d as u8) == d + 256) by (bit_vector);
    assert(d >= 0 ==> (d as u8) == d) by (bit_vector);
}

/// The tape holds what the cells hold, each at its number.
pub open spec fn tape_matches(cells: Map<u16, u8>, tape: Map<int, u8>) -> bool {
    forall|a: u16| #[trigger] cell(cells, a) == tape_cell(tape, a as int)
}

/// A run of absolute Brainfuck and a run of Brainfuck agree: the tape holds what the cells hold,
/// and the same input is left and the same output printed.
pub open spec fn runs_agree(st: AbfState, bst: BFState) -> bool {
    &&& tape_matches(st.cells, bst.tape)
    &&& bst.input == st.input
    &&& bst.output == st.output
}

/// Running the Brainfuck of the trees from the pointer does what running the trees does: it
/// ends exactly where they end, with the pointer on the cell of the last tree, and the runs
/// agree.
pub proof fn lemma_bf_runs_like_trees(s: Seq<SpecTree>, st: AbfState, bst: BFState, pointer: int, fuel: nat)
    requires
        trees_below(s, 30000),
        runs_agree(st, bst),
        bst.pointer == pointer,
        0 <= pointer < 30000,
    ensures
        run_trees(s, st, fuel) is Some <==> run_bf_trees(trees_bf(s, pointer), bst, fuel) is Some,
        run_trees(s, st, fuel) is Some ==> runs_agree(run_trees(s, st, fuel)->Some_0, run_bf_trees(trees_bf(s, pointer), bst, fuel)->Some_0)
            && run_bf_trees(trees_bf(s, pointer), bst, fuel)->Some_0.pointer == trees_end(s, pointer),
    decreases fuel, s.len(), 2nat,
{
    if s.len() == 0 {
        assert(trees_bf(s, pointer) =~= Seq::<SpecBFTree>::empty());
    } else {
        let prev = s.drop_last();
        let x = s.last();
        lemma_trees_below_index(s, 30000, s.len() - 1);
        assert(trees_below(prev, 30000));
        lemma_bf_runs_like_trees(prev, st, bst, pointer, fuel);
        lemma_run_bf_append(trees_bf(prev, pointer), tree_bf(x, trees_end(prev, pointer)), bst, fuel);
        assert(run_trees(s, st, fuel) == match run_trees(prev, st, fuel) {
            Some(mid) => run_tree(x, mid, fuel),
            None => None,
        });
        if let Some(mid) = run_trees(prev, st, fuel) {
            let bmid = run_bf_trees(trees_bf(prev, pointer), bst, fuel)->Some_0;
            if prev.len() > 0 {
                lemma_trees_below_index(prev, 30000, prev.len() - 1);
            }
            lemma_bf_runs_like_tree(x, mid, bmid, trees_end(prev, pointer), fuel);
        }
    }
}

/// Running the Brainfuck of one tree from the pointer does what running the tree does, and
/// ends with the pointer on the tree's cell.
proof fn lemma_bf_runs_like_tree(t: SpecTree, st: AbfState, bst: BFState, pointer: int, fuel: nat)
    requires
        tree_below(t, 30000),
        runs_agree(st, bst),
        bst.pointer == pointer,
        0 <= pointer < 30000,
    ensures
        run_tree(t, st, fuel) is Some <==> run_bf_trees(tree_bf(t, pointer), bst, fuel) is Some,
        run_tree(t, st, fuel) is Some ==> runs_agree(run_tree(t, st, fuel)->Some_0, run_bf_trees(tree_bf(t, pointer), bst, fuel)->Some_0)
            && run_bf_trees(tree_bf(t, pointer), bst, fuel)->Some_0.pointer == tree_address(t) as int,
    decreases fuel, 0nat, 1nat,
{
    let a = tree_address(t) as int;
    let mv = SpecBFTree::Move(a - pointer);
    let op = tree_bf(t, pointer)[1];
    assert(tree_bf(t, pointer) =~= seq![mv, op]);
    let at = BFState { pointer: a, ..bst };
    assert(a < 30000);
    assert(TAPE_LEN == 30000);
    lemma_run_bf_short(mv, op, bst, fuel);
    assert(run_bf_tree(mv, bst, fuel) == Some(at));
    assert(run_bf_trees(tree_bf(t, pointer), bst, fuel) == run_bf_tree(op, at, fuel));
    match t {
        SpecTree::Add(c, d) => {
            let after = run_tree(t, st, fuel)->Some_0;
            let bafter = run_bf_tree(op, at, fuel)->Some_0;
            assert(d < 0 ==> (d as u8) == d + 256) by (bit_vector);
            assert(d >= 0 ==> (d as u8) == d) by (bit_vector);
            let du = d as u8;
            lemma_wrap_add_congruent(cell(st.cells, c), d as int, du as int);
            assert forall|b: u16| #[trigger] cell(after.cells, b) == tape_cell(bafter.tape, b as int) by {
                assert(cell(st.cells, b) == tape_cell(bst.tape, b as int));
            }
        },
        SpecTree::Write(c) => {
            assert(cell(st.cells, c) == tape_cell(bst.tape, c as int));
            let after = run_tree(t, st, fuel)->Some_0;
            let bafter = run_bf_tree(op, at, fuel)->Some_0;
            assert forall|b: u16| #[trigger] cell(after.cells, b) == tape_cell(bafter.tape, b as int) by {
                assert(cell(st.cells, b) == tape_cell(bst.tape, b as int));
            }
        },
        SpecTree::Read(c) => {
            if st.input.len() > 0 {
                let after = run_tree(t, st, fuel)->Some_0;
                let bafter = run_bf_tree(op, at, fuel)->Some_0;
                assert forall|b: u16| #[trigger] cell(after.cells, b) == tape_cell(bafter.tape, b as int) by {
                    assert(cell(st.cells, b) == tape_cell(bst.tape, b as int));
                }
            }
        },
        SpecTree::While(c, body) => {
            lemma_bf_runs_like_loop(c, body, st, at, fuel);
        },
    }
}

/// Running the Brainfuck loop of a loop tree, with the pointer on its cell, does what running
/// the loop does, and ends with the pointer there.
proof fn lemma_bf_runs_like_loop(c: u16, body: Seq<SpecTree>, st: AbfState, bst: BFState, fuel: nat)
    requires
        tree_below(SpecTree::While(c, body), 30000),
        runs_agree(st, bst),
        bst.pointer == c as int,
    ensures
        ({
            let t = SpecTree::While(c, body);
            let inner = trees_bf(body, c as int) + seq![SpecBFTree::Move(c - trees_end(body, c as int))];
            &&& run_tree(t, st, fuel) is Some <==> run_bf_tree(SpecBFTree::Loop(inner), bst, fuel) is Some
            &&& run_tree(t, st, fuel) is Some ==> runs_agree(run_tree(t, st, fuel)->Some_0, run_bf_tree(SpecBFTree::Loop(inner), bst, fuel)->Some_0)
                && run_bf_tree(SpecBFTree::Loop(inner), bst, fuel)->Some_0.pointer == c as int
        }),
    decreases fuel, 0nat, 0nat,
{
    let t = SpecTree::While(c, body);
    let a = c as int;
    let back = SpecBFTree::Move(a - trees_end(body, a));
    let inner = trees_bf(body, a) + seq![back];
    let l = SpecBFTree::Loop(inner);
    assert(cell(st.cells, c) == tape_cell(bst.tape, a));
    if cell(st.cells, c) != 0 && fuel > 0 {
        let f = (fuel - 1) as nat;
        assert(trees_below(body, 30000));
        lemma_bf_runs_like_trees(body, st, bst, a, f);
        lemma_run_bf_append(trees_bf(body, a), seq![back], bst, f);
        if let Some(next) = run_trees(body, st, f) {
            let bnext = run_bf_trees(trees_bf(body, a), bst, f)->Some_0;
            assert(0 <= trees_end(body, a) < 30000) by {
                if body.len() > 0 {
                    lemma_trees_below_index(body, 30000, body.len() - 1);
                }
            }
            let bback = BFState { pointer: a, ..bnext };
            lemma_run_bf_short(back, back, bnext, f);
            assert(TAPE_LEN == 30000);
            assert(run_bf_trees(seq![back], bnext, f) == Some(bback));
            lemma_bf_runs_like_loop(c, body, next, bback, f);
        }
    }
}

/// A program of absolute Brainfuck.
#[derive(Debug)]
pub struct ABFProgram {
    pub body: Vec<ABFTree>,
}

impl ABFProgram {
    pub fn new() -> (r: Self)
        ensures
            r.body@.len() == 0,
    {
        ABFProgram { body: Vec::new() }
    }

    /// Adds a tree at the end; an addition to the cell the last tree adds to merges into it.
    pub fn push_instruction(&mut self, instruction: ABFTree)
        ensures
            trees_view(final(self).body@) == merge_push(trees_view(old(self).body@), instruction@),
    {
        let n = self.body.len();
        let ghost s = trees_view(self.body@);
        if n > 0 {
            if let ABFTree::Add(location_a, a) = &instruction {
                if let ABFTree::Add(location_b, b) = &self.body[n - 1] {
                    if *location_a == *location_b {
                        let merged = ABFTree::Add(*location_b, b.wrapping_add(*a));
                        self.body.set(n - 1, merged);
                        assert(trees_view(self.body@) =~= s.drop_last().push(merged@));
                        return;
                    }
                }
            }
        }
        self.body.push(instruction);
        proof {
            lemma_trees_view_push(old(self).body@, instruction);
        }
    }

    /// Adds the trees of `rhs`, one by one.
    pub fn append(&mut self, rhs: ABFProgram)
        ensures
            trees_view(final(self).body@) == merge_all(trees_view(old(self).body@), trees_view(rhs.body@)),
    {
        let ghost t = trees_view(rhs.body@);
        let ghost start = trees_view(self.body@);
        let n = rhs.body.len();
        let ghost orig = rhs.body@;
        let mut src = crate::abf::abf_ast::reversed(rhs.body);
        let mut k: usize = 0;
        proof {
            assert(t.take(0) =~= Seq::<SpecTree>::empty());
        }
        while src.len() > 0
            invariant
                src@.len() + k == n,
                n == orig.len(),
                t == trees_view(orig),
                forall|j: int| 0 <= j < src@.len() ==> #[trigger] src@[j] == orig[n - 1 - j],
                trees_view(self.body@) == merge_all(start, t.take(k as int)),
            decreases src@.len(),
        {
            let x = src.pop().unwrap();
            assert(x == orig[k as int]);
            self.push_instruction(x);
            proof {
                assert(t.take(k + 1).drop_last() =~= t.take(k as int));
                assert(t.take(k + 1).last() == x@);
            }
            k = k + 1;
        }
        assert(t.take(n as int) =~= t);
    }

    /// The cells the pointer visits, from cell 0 on, each run of one cell kept once.
    pub fn calculate_path(&self) -> (r: Vec<u16>)
        ensures
            r@ == pointer_path(trees_view(self.body@)),
            r@.len() > 0,
    {
        let mut path: Vec<u16> = Vec::new();
        path.push(0);
        let ghost s = trees_view(self.body@);
        proof {
            assert(seq![0u16] =~= Seq::<u16>::empty().push(0u16));
            lemma_collapse_push(Seq::<u16>::empty(), 0u16);
            assert(collapse(Seq::<u16>::empty()) =~= Seq::<u16>::empty());
            assert(collapse(seq![0u16]) =~= seq![0u16]);
            assert(s.take(0) =~= Seq::<SpecTree>::empty());
            assert(seq![0u16] + visits_seq(s.take(0)) =~= seq![0u16]);
        }
        let mut i: usize = 0;
        while i < self.body.len()
            invariant
                i <= self.body@.len(),
                s == trees_view(self.body@),
                path@ == collapse(seq![0u16] + visits_seq(s.take(i as int))),
                path@.len() > 0,
            decreases self.body@.len() - i,
        {
            proof {
                assert(s.take(i + 1) =~= s.take(i as int).push(s[i as int]));
                lemma_visits_push(s.take(i as int), s[i as int]);
                assert(seq![0u16] + visits_seq(s.take(i as int)) + visits(s[i as int]) =~= seq![0u16] + visits_seq(s.take(i + 1)));
            }
            self.body[i].calculate_path_impl(&mut path, Ghost(seq![0u16] + visits_seq(s.take(i as int))));
            i = i + 1;
        }
        assert(s.take(i as int) =~= s);
        path
    }

    /// Renames every cell `a` to `address_map[a]`.
    fn remap_addresses(&mut self, address_map: &[u16])
        requires
            trees_below(trees_view(old(self).body@), address_map@.len() as int),
        ensures
            trees_view(final(self).body@) == remap_trees(trees_view(old(self).body@), address_map@),
    {
        let ghost s = trees_view(self.body@);
        let mut out: Vec<ABFTree> = Vec::new();
        let mut i: usize = 0;
        while i < self.body.len()
            invariant
                i <= self.body@.len(),
                out@.len() == i,
                s == trees_view(self.body@),
                trees_below(s, address_map@.len() as int),
                forall|j: int| 0 <= j < out@.len() ==> (#[trigger] out@[j])@ == remap_tree(s[j], address_map@),
            decreases self.body@.len() - i,
        {
            proof {
                lemma_trees_below_index(s, address_map@.len() as int, i as int);
            }
            out.push(self.body[i].remapped(address_map));
            i = i + 1;
        }
        assert(trees_view(out@) =~= remap_trees(s, address_map@));
        self.body = out;
    }

    /// Brainfuck that runs the program with the pointer moved to each cell in turn; where every
    /// cell is on the tape, the pointer never leaves it, and running it from the first cell does
    /// what running the program does.
    pub fn to_bf(&self) -> (r: BFProgram)
        requires
            trees_below(trees_view(self.body@), 32768),
        ensures
            r@ == trees_bf(trees_view(self.body@), 0),
            trees_below(trees_view(self.body@), 30000) ==> trees_path(r@, 0) is Some,
            trees_below(trees_view(self.body@), 30000) ==> forall|st: AbfState, bst: BFState, fuel: nat|
                #![trigger run_trees(trees_view(self.body@), st, fuel), run_bf_trees(r@, bst, fuel)]
                runs_agree(st, bst) && bst.pointer == 0 ==> (run_trees(trees_view(self.body@), st, fuel) is Some
                    <==> run_bf_trees(r@, bst, fuel) is Some) && (run_trees(trees_view(self.body@), st, fuel) is Some
                    ==> runs_agree(run_trees(trees_view(self.body@), st, fuel)->Some_0, run_bf_trees(r@, bst, fuel)->Some_0)),
    {
        let mut bf_program = BFProgram::new();
        let mut pointer: u16 = 0;
        let ghost s = trees_view(self.body@);
        let ghost on_tape = trees_below(s, 30000);
        let mut i: usize = 0;
        while i < self.body.len()
            invariant
                i <= self.body@.len(),
                s == trees_view(self.body@),
                trees_below(s, 32768),
                on_tape ==> trees_below(s, 30000),
                pointer < 32768,
                on_tape ==> pointer < 30000 && trees_path(bf_program@, 0) == Some(pointer as int),
                bf_program@ == trees_bf(s.take(i as int), 0),
                pointer == trees_end(s.take(i as int), 0),
            decreases self.body@.len() - i,
        {
            proof {
                lemma_trees_below_index(s, 32768, i as int);
                if on_tape {
                    lemma_trees_below_index(s, 30000, i as int);
                }
            }
            self.body[i].to_bf_impl(&mut pointer, &mut bf_program, Ghost(0), Ghost(on_tape));
            proof {
                assert(s.take(i + 1).drop_last() =~= s.take(i as int));
                assert(s.take(i + 1).last() == s[i as int]);
                if on_tape {
                    lemma_trees_below_index(s, 30000, i as int);
                    assert(tree_address(s[i as int]) < 30000) by {
                        match s[i as int] {
                            SpecTree::While(_, _) => {},
                            _ => {},
                        }
                    }
                }
            }
            i = i + 1;
        }
        assert(s.take(i as int) =~= s);
        proof {
            if on_tape {
                assert forall|st: AbfState, bst: BFState, fuel: nat|
                    #![trigger run_trees(s, st, fuel), run_bf_trees(bf_program@, bst, fuel)]
                    runs_agree(st, bst) && bst.pointer == 0 implies (run_trees(s, st, fuel) is Some <==> run_bf_trees(
                        bf_program@,
                        bst,
                        fuel,
                    ) is Some) && (run_trees(s, st, fuel) is Some ==> runs_agree(
                        run_trees(s, st, fuel)->Some_0,
                        run_bf_trees(bf_program@, bst, fuel)->Some_0,
                    )) by {
                    lemma_bf_runs_like_trees(s, st, bst, 0, fuel);
                }
            }
        }
        bf_program
    }

    /// Renames the cells apart: each cell gets a number of its own when it is first met, and
    /// the condition cell of a loop outside any loop gets a fresh one after it.
    pub fn disentangle_addresses(&mut self)
        requires
            2 * trees_size(trees_view(old(self).body@)) <= 65535,
        ensures
            shapes_same(trees_view(old(self).body@), trees_view(final(self).body@)),
            trees_below(trees_view(final(self).body@), 65535),
            trees_view(final(self).body@) == renamed_trees(Map::empty(), 0, trees_view(old(self).body@), false).0,
    {
        let mut address_map: BTreeMap<u16, u16> = BTreeMap::new();
        let mut address_counter: u16 = 0;
        let ghost s = trees_view(self.body@);
        let mut out: Vec<ABFTree> = Vec::new();
        let mut i: usize = 0;
        proof {
            assert(s.take(0) =~= Seq::<SpecTree>::empty());
            assert(trees_view(out@) =~= Seq::<SpecTree>::empty());
        }
        while i < self.body.len()
            invariant
                i <= self.body@.len(),
                s == trees_view(self.body@),
                address_counter <= 2 * trees_size(s.take(i as int)),
                2 * trees_size(s) <= 65535,
                shapes_same(s.take(i as int), trees_view(out@)),
                trees_below(trees_view(out@), address_counter as int),
                forall|a: u16| #[trigger] address_map@.contains_key(a) ==> address_map@[a] < address_counter,
                (trees_view(out@), address_map@, address_counter as int) == renamed_trees(Map::empty(), 0, s.take(i as int), false),
            decreases self.body@.len() - i,
        {
            proof {
                lemma_size_index(s, i as int);
            }
            let ghost before = out@;
            let ghost counter_before = address_counter;
            let tree = self.body[i].disentangled(&mut address_map, &mut address_counter, false);
            out.push(tree);
            proof {
                lemma_trees_view_push(before, tree);
                assert(s.take(i + 1) =~= s.take(i as int).push(s[i as int]));
                assert(s.take(i + 1).drop_last() =~= s.take(i as int));
                lemma_shapes_push(s.take(i as int), trees_view(before), s[i as int], tree@);
                lemma_trees_below_mono(trees_view(before), counter_before as int, address_counter as int);
                lemma_below_push(trees_view(before), tree@, address_counter as int);
            }
            i = i + 1;
        }
        assert(s.take(i as int) =~= s);
        proof {
            lemma_trees_below_mono(trees_view(out@), address_counter as int, 65535);
        }
        self.body = out;
    }
}

impl Default for ABFProgram {
    fn default() -> (r: Self)
        ensures
            r.body@.len() == 0,
    {
        Self::new()
    }
}


/// Appends the characters of `text`.
/// The line of the dot graph for an edge.
pub open spec fn dot_line(e: (Seq<char>, Seq<char>)) -> Seq<char> {
    e.0 + seq![' ', '-', '>', ' '] + e.1 + seq![';', '\n']
}

/// The lines of the dot graph for the edges, in order.
pub open spec fn dot_lines(ds: Seq<(Seq<char>, Seq<char>)>) -> Seq<char>
    decreases ds.len(),
{
    if ds.len() == 0 {
        Seq::empty()
    } else {
        dot_lines(ds.drop_last()) + dot_line(ds.last())
    }
}

/// The first line of the dot graph.
pub open spec fn dot_header() -> Seq<char> {
    seq!['d', 'i', 'g', 'r', 'a', 'p', 'h', ' ', 'G', ' ', '{', '\n']
}

/// The edges of a list of dependencies, in order.
pub open spec fn dependency_edges(deps: Seq<Dependency>) -> Seq<(Seq<char>, Seq<char>)> {
    Seq::new(deps.len(), |i: int| (deps[i].from@, deps[i].to@))
}

impl ABFProgram {
    /// The dependency graph of the program in the dot language: every edge of
    /// [`trees_edges`] once, in some order.
    pub fn dot_dependency_graph(&self) -> (r: String)
        ensures
            exists|ds: Seq<(Seq<char>, Seq<char>)>|
                ds.no_duplicates() && ds.to_set() == trees_edges(trees_view(self.body@)) && r@ == dot_header() + dot_lines(ds)
                    + seq!['}', '\n'],
    {
        let mut dependencies: Vec<Dependency> = Vec::new();
        let ghost s = trees_view(self.body@);
        let mut i: usize = 0;
        proof {
            assert(s.take(0) =~= Seq::<SpecTree>::empty());
            assert(edge_set(dependencies@) =~= Set::empty());
        }
        while i < self.body.len()
            invariant
                i <= self.body@.len(),
                s == trees_view(self.body@),
                edges_distinct(dependencies@),
                edge_set(dependencies@) == trees_edges(s.take(i as int)),
            decreases self.body@.len() - i,
        {
            proof {
                assert(s.take(i + 1) =~= s.take(i as int).push(s[i as int]));
                lemma_edges_push(s.take(i as int), s[i as int]);
            }
            self.body[i].build_dot_dependency_graph(&mut dependencies);
            i = i + 1;
        }
        assert(s.take(i as int) =~= s);
        let mut result = text_of(&['d', 'i', 'g', 'r', 'a', 'p', 'h', ' ', 'G', ' ', '{', '\n']);
        let ghost ds = dependency_edges(dependencies@);
        let mut k: usize = 0;
        while k < dependencies.len()
            invariant
                k <= dependencies@.len(),
                ds == dependency_edges(dependencies@),
                result@ == dot_header() + dot_lines(ds.take(k as int)),
            decreases dependencies@.len() - k,
        {
            let ghost before = result@;
            append_text(&mut result, dependencies[k].from.as_str());
            append_text(&mut result, " -> ");
            append_text(&mut result, dependencies[k].to.as_str());
            append_text(&mut result, ";\n");
            proof {
                reveal_strlit(" -> ");
                reveal_strlit(";\n");
                assert(ds.take(k + 1).drop_last() =~= ds.take(k as int));
                assert(ds.take(k + 1).last() == ds[k as int]);
                assert(result@ =~= dot_header() + dot_lines(ds.take(k + 1)));
            }
            k = k + 1;
        }
        append_text(&mut result, "}\n");
        proof {
            reveal_strlit("}\n");
            assert(ds.take(k as int) =~= ds);
            assert(ds.no_duplicates()) by {
                assert forall|a: int, b: int| 0 <= a < ds.len() && 0 <= b < ds.len() && a != b implies ds[a] != ds[b] by {
                    if a < b {
                        assert((dependencies@[a].from@, dependencies@[a].to@) != (dependencies@[b].from@, dependencies@[b].to@));
                    } else {
                        assert((dependencies@[b].from@, dependencies@[b].to@) != (dependencies@[a].from@, dependencies@[a].to@));
                    }
                }
            }
            assert forall|e: (Seq<char>, Seq<char>)| ds.to_set().contains(e) <==> edge_set(dependencies@).contains(e) by {
                if ds.to_set().contains(e) {
                    assert(ds.contains(e));
                    let j = choose|j: int| 0 <= j < ds.len() && ds[j] == e;
                    assert(e == (dependencies@[j].from@, dependencies@[j].to@));
                }
                if edge_set(dependencies@).contains(e) {
                    let j = choose|j: int| 0 <= j < dependencies@.len() && e == (#[trigger] dependencies@[j].from@, dependencies@[j].to@);
                    assert(ds[j] == e);
                    assert(ds.contains(e));
                }
            }
            assert(ds.to_set() =~= trees_edges(s));
        }
        result
    }

    /// The program without the loops whose condition cell is known to be zero where they
    /// start; the cells start at zero, a read makes a cell unknown, and a loop makes unknown
    /// every cell that its body changes by other than zero. From cells all at zero, running it
    /// does what running the program does.
    pub fn without_dead_loops(&self) -> (r: Self)
        requires
            trees_below(trees_view(self.body@), 30000),
        ensures
            trees_view(r.body@) == merge_all(Seq::empty(), live_trees(trees_view(self.body@))),
            forall|st: AbfState, fuel: nat|
                all_zero(st.cells) ==> #[trigger] run_trees(trees_view(r.body@), st, fuel) == run_trees(trees_view(self.body@), st, fuel),
    {
        let mut current_state: Vec<Option<u8>> = Vec::new();
        while current_state.len() < 30000
            invariant
                current_state@.len() <= 30000,
                forall|c: int| 0 <= c < current_state@.len() ==> #[trigger] current_state@[c] == Some(0u8),
            decreases 30000 - current_state@.len(),
        {
            current_state.push(Some(0));
        }
        let ghost s = trees_view(self.body@);
        let ghost mut kept: Seq<SpecTree> = Seq::empty();
        let mut result = ABFProgram::new();
        let mut i: usize = 0;
        proof {
            assert(s.take(0) =~= Seq::<SpecTree>::empty());
            assert(trees_view(result.body@) =~= Seq::<SpecTree>::empty());
            assert(current_state@ =~= known_after(s.take(0)));
        }
        while i < self.body.len()
            invariant
                i <= self.body@.len(),
                s == trees_view(self.body@),
                trees_below(s, 30000),
                current_state@.len() == 30000,
                current_state@ == known_after(s.take(i as int)),
                kept == live_trees(s.take(i as int)),
                trees_view(result.body@) == merge_all(Seq::empty(), kept),
                forall|st: AbfState, fuel: nat|
                    all_zero(st.cells) ==> #[trigger] run_trees(kept, st, fuel) == run_trees(s.take(i as int), st, fuel),
                forall|st: AbfState, fuel: nat|
                    all_zero(st.cells) && run_trees(s.take(i as int), st, fuel) is Some ==> consistent(
                        current_state@,
                        (#[trigger] run_trees(s.take(i as int), st, fuel))->Some_0.cells,
                    ),
            decreases self.body@.len() - i,
        {
            let tree = &self.body[i];
            let ghost cs = current_state@;
            let ghost x = s[i as int];
            let ghost before = s.take(i as int);
            proof {
                lemma_trees_below_index(s, 30000, i as int);
                assert(s.take(i + 1).drop_last() =~= s.take(i as int));
                assert(s.take(i + 1).last() == s[i as int]);
                assert(s.take(i + 1) =~= before.push(x));
            }
            let keep = match tree {
                ABFTree::Add(address, value) => {
                    match current_state[*address as usize] {
                        Some(x) => {
                            #[verifier::truncate]
                            let delta = *value as u8;
                            current_state.set(*address as usize, Some(x.wrapping_add(delta)));
                            proof {
                                lemma_byte_add(x, *value);
                            }
                        },
                        None => {},
                    }
                    true
                },
                ABFTree::Write(_) => true,
                ABFTree::Read(address) => {
                    current_state.set(*address as usize, None);
                    true
                },
                ABFTree::While(address, body) => {
                    let live = match current_state[*address as usize] {
                        Some(0) => false,
                        _ => true,
                    };
                    if live {
                        let mut relative_updates: Vec<(u16, Option<i8>)> = Vec::new();
                        let ghost b = trees_view(body@);
                        let mut j: usize = 0;
                        proof {
                            assert(b.take(0) =~= Seq::<SpecTree>::empty());
                            assert(update_keys(relative_updates@) =~= Set::<u16>::empty());
                            assert(update_model(relative_updates@) =~= Map::<u16, Option<i8>>::empty());
                            lemma_tree_vars_below(s[i as int], 30000);
                        }
                        while j < body.len()
                            invariant
                                j <= body@.len(),
                                b == trees_view(body@),
                                keys_unique(relative_updates@),
                                update_model(relative_updates@) == rel_trees(Map::empty(), b.take(j as int)),
                                update_keys(relative_updates@).subset_of(trees_vars(b.take(j as int))),
                            decreases body@.len() - j,
                        {
                            proof {
                                assert(b.take(j + 1) =~= b.take(j as int).push(b[j as int]));
                                assert(b.take(j + 1).drop_last() =~= b.take(j as int));
                                lemma_vars_push(b.take(j as int), b[j as int]);
                            }
                            body[j].analyze_relative_updates(&mut relative_updates);
                            j = j + 1;
                        }
                        assert(b.take(j as int) =~= b);
                        let ghost e = relative_updates@;
                        let ghost bm = rel_trees(Map::empty(), b);
                        let mut k: usize = 0;
                        while k < relative_updates.len()
                            invariant
                                current_state@.len() == 30000,
                                e == relative_updates@,
                                k <= e.len(),
                                update_keys(relative_updates@).subset_of(trees_vars(b)),
                                forall|a: u16| tree_vars(s[i as int]).contains(a) ==> a < 30000,
                                s[i as int] == SpecTree::While(*address, b),
                            cs.len() == 30000,
                                forall|c: int|
                                    0 <= c < 30000 ==> #[trigger] current_state@[c] == if cleared_by(e, k as int, c as u16) {
                                        None
                                    } else {
                                        cs[c]
                                    },
                            decreases relative_updates@.len() - k,
                        {
                            let (cell, update) = relative_updates[k];
                            assert(update_keys(relative_updates@).contains(cell));
                            assert(tree_vars(s[i as int]).contains(cell));
                            match update {
                                Some(0) => {},
                                _ => {
                                    current_state.set(cell as usize, None);
                                },
                            }
                            k = k + 1;
                            proof {
                                assert forall|c: int| 0 <= c < 30000 implies #[trigger] current_state@[c] == if cleared_by(
                                    e,
                                    k as int,
                                    c as u16,
                                ) {
                                    None
                                } else {
                                    cs[c]
                                } by {
                                    let cu = c as u16;
                                    if cleared_by(e, k as int, cu) {
                                        let q = choose|q: int| #![trigger e[q]] 0 <= q < k && e[q].0 == cu && e[q].1 != Some(0i8);
                                        if q < k - 1 {
                                            assert(cleared_by(e, k - 1, cu));
                                        }
                                    }
                                    if cleared_by(e, k - 1, cu) {
                                        let q = choose|q: int| #![trigger e[q]] 0 <= q < k - 1 && e[q].0 == cu && e[q].1 != Some(0i8);
                                        assert(cleared_by(e, k as int, cu));
                                    }
                                    if c == cell as int && update != Some(0i8) {
                                        assert(e[k - 1].0 == cu);
                                        assert(cleared_by(e, k as int, cu));
                                    }
                                }
                            }
                        }
                        current_state.set(*address as usize, Some(0));
                        proof {
                            assert forall|c: int| 0 <= c < 30000 implies #[trigger] current_state@[c] == known_step(cs, x)[c] by {
                                if c != *address as int {
                                    if cleared_by(e, e.len() as int, c as u16) {
                                        let q = choose|q: int| #![trigger e[q]] 0 <= q < e.len() && e[q].0 == c as u16 && e[q].1 != Some(0i8);
                                        lemma_update_model_at(e, q);
                                    }
                                    if !loop_stable(bm, c as u16) {
                                        let q = choose|q: int| 0 <= q < e.len() && e[q].0 == c as u16;
                                        lemma_update_model_at(e, q);
                                        assert(e[q].0 == c as u16);
                                    }
                                }
                            }
                            assert(current_state@ =~= known_step(cs, x));
                            assert forall|c: u16| cleared_by(e, e.len() as int, c) <==> !loop_stable(bm, c) by {
                                if cleared_by(e, e.len() as int, c) {
                                    let q = choose|q: int| #![trigger e[q]] 0 <= q < e.len() && e[q].0 == c && e[q].1 != Some(0i8);
                                    lemma_update_model_at(e, q);
                                }
                                if !loop_stable(bm, c) {
                                    let q = choose|q: int| 0 <= q < e.len() && e[q].0 == c;
                                    lemma_update_model_at(e, q);
                                    assert(e[q].0 == c);
                                }
                            }
                            assert forall|st: AbfState, fuel: nat|
                                all_zero(st.cells) && run_trees(s.take(i + 1), st, fuel) is Some implies consistent(
                                    current_state@,
                                    (#[trigger] run_trees(s.take(i + 1), st, fuel))->Some_0.cells,
                                ) by {
                                lemma_run_trees_push(before, x, st, fuel);
                                let mid = run_trees(before, st, fuel)->Some_0;
                                assert(consistent(cs, mid.cells));
                                lemma_loop_stable(*address, b, mid, fuel);
                                let after = run_tree(x, mid, fuel)->Some_0;
                                assert forall|c: u16| c < 30000 && current_state@[c as int] is Some implies cell(after.cells, c)
                                    == current_state@[c as int]->Some_0 by {
                                    if c != *address {
                                        assert(current_state@[c as int] == cs[c as int]);
                                        assert(loop_stable(bm, c));
                                    }
                                }
                            }
                        }
                    }
                    live
                },
            };
            proof {
                assert(keep == !(x is While && cs[x->While_0 as int] == Some(0u8)));
                assert(current_state@ == known_step(cs, x));
                assert(known_after(s.take(i + 1)) == known_step(known_after(before), x));
            }
            if keep {
                let copy = tree.clone();
                result.push_instruction(copy);
                proof {
                    assert(kept.push(s[i as int]).drop_last() =~= kept);
                    kept = kept.push(s[i as int]);
                }
            }
            proof {
                assert forall|st: AbfState, fuel: nat|
                    all_zero(st.cells) implies #[trigger] run_trees(kept, st, fuel) == run_trees(s.take(i + 1), st, fuel) by {
                    lemma_run_trees_push(before, x, st, fuel);
                    if keep {
                        lemma_run_trees_push(kept.drop_last(), x, st, fuel);
                    } else {
                        if let Some(mid) = run_trees(before, st, fuel) {
                            assert(consistent(cs, mid.cells));
                            assert(cell(mid.cells, tree_address(x)) == 0);
                        }
                    }
                }
                if !(x is While) {
                    assert forall|st: AbfState, fuel: nat|
                        all_zero(st.cells) && run_trees(s.take(i + 1), st, fuel) is Some implies consistent(
                            current_state@,
                            (#[trigger] run_trees(s.take(i + 1), st, fuel))->Some_0.cells,
                        ) by {
                        lemma_run_trees_push(before, x, st, fuel);
                        let mid = run_trees(before, st, fuel)->Some_0;
                        assert(consistent(cs, mid.cells));
                        let after = run_tree(x, mid, fuel)->Some_0;
                        assert forall|c: u16| c < 30000 && current_state@[c as int] is Some implies cell(after.cells, c)
                            == current_state@[c as int]->Some_0 by {
                            if c != tree_address(x) {
                                assert(current_state@[c as int] == cs[c as int]);
                            }
                        }
                    }
                } else if !keep {
                    assert forall|st: AbfState, fuel: nat|
                        all_zero(st.cells) && run_trees(s.take(i + 1), st, fuel) is Some implies consistent(
                            current_state@,
                            (#[trigger] run_trees(s.take(i + 1), st, fuel))->Some_0.cells,
                        ) by {
                        lemma_run_trees_push(before, x, st, fuel);
                        let mid = run_trees(before, st, fuel)->Some_0;
                        assert(consistent(cs, mid.cells));
                        assert(cell(mid.cells, tree_address(x)) == 0);
                    }
                }
            }
            i = i + 1;
        }
        assert(s.take(i as int) =~= s);
        proof {
            assert forall|st: AbfState, fuel: nat|
                all_zero(st.cells) implies #[trigger] run_trees(trees_view(result.body@), st, fuel) == run_trees(s, st, fuel) by {
                lemma_run_merge_all(Seq::empty(), kept, st, fuel);
                assert(Seq::<SpecTree>::empty() + kept =~= kept);
            }
        }
        result
    }
}


/// What is known of a cell: nothing, its value, or how much it changed.
#[derive(Debug, Clone, Copy, PartialEq, Eq, Structural)]
pub enum CellAnalysis {
    Unknown,
    Absolute(u8),
    Relative(i8),
}

/// What is known of each of the 30000 cells of the tape.
pub struct TapeAnalysis {
    pub tape: Vec<CellAnalysis>,
}

/// A cell after [`TapeAnalysis::merge_with`] applies `new` on top of `current`.
pub open spec fn merge_cell(current: CellAnalysis, new: CellAnalysis) -> CellAnalysis {
    match (current, new) {
        (_, CellAnalysis::Unknown) => new,
        (_, CellAnalysis::Absolute(_)) => new,
        (CellAnalysis::Unknown, _) => current,
        (CellAnalysis::Absolute(x), CellAnalysis::Relative(i)) => CellAnalysis::Absolute(((x as i8).wrapping_add(i)) as u8),
        (CellAnalysis::Relative(a), CellAnalysis::Relative(b)) => CellAnalysis::Relative(a.wrapping_add(b)),
    }
}

/// A cell after an addition of `v`.
pub open spec fn add_effect(c: CellAnalysis, v: i8) -> CellAnalysis {
    match c {
        CellAnalysis::Unknown => CellAnalysis::Unknown,
        CellAnalysis::Absolute(x) => CellAnalysis::Absolute(((x as i8).wrapping_add(v)) as u8),
        CellAnalysis::Relative(x) => CellAnalysis::Relative(x.wrapping_add(v)),
    }
}

/// The changes of a loop body repeated `n` times; zero times changes nothing.
pub open spec fn repeated(body: Seq<CellAnalysis>, n: u8) -> Seq<CellAnalysis> {
    Seq::new(
        body.len(),
        |i: int|
            if n == 0 {
                CellAnalysis::Relative(0)
            } else {
                match body[i] {
                    CellAnalysis::Relative(x) => CellAnalysis::Relative(x.wrapping_mul(n as i8)),
                    c => c,
                }
            },
    )
}

/// The changes of a loop body repeated an unknown number of times: a cell that grows becomes
/// unknown.
pub open spec fn repeated_unknown(body: Seq<CellAnalysis>) -> Seq<CellAnalysis> {
    Seq::new(
        body.len(),
        |i: int|
            match body[i] {
                CellAnalysis::Relative(x) => if x > 0 {
                    CellAnalysis::Unknown
                } else {
                    body[i]
                },
                c => c,
            },
    )
}

/// The changes of a loop on a cell known as `known` before it, whose body changes the cells
/// as `body` says: repeated as often as the loop runs where that can be told.
pub open spec fn loop_changes(known: CellAnalysis, body: Seq<CellAnalysis>, a: u16) -> Seq<CellAnalysis> {
    match (known, body[a as int]) {
        (_, CellAnalysis::Unknown) => repeated_unknown(body),
        (CellAnalysis::Unknown, _) => repeated_unknown(body),
        (_, CellAnalysis::Absolute(0)) => repeated(body, 1),
        (_, CellAnalysis::Absolute(_)) => repeated_unknown(body),
        (CellAnalysis::Absolute(start), CellAnalysis::Relative(step)) => match least_steps(start, step as u8) {
            Some(n) => repeated(body, n),
            None => repeated_unknown(body),
        },
        (CellAnalysis::Relative(_), _) => repeated_unknown(body),
    }
}

/// Every cell known zero.
pub open spec fn zero_tape() -> Seq<CellAnalysis> {
    Seq::new(30000, |i: int| CellAnalysis::Absolute(0))
}

/// Every cell known unchanged.
pub open spec fn unchanged_tape() -> Seq<CellAnalysis> {
    Seq::new(30000, |i: int| CellAnalysis::Relative(0))
}

/// What is known of the cells after one tree, from `tape` before it: an addition moves its
/// cell, a read makes it unknown, and a loop whose cell is not known zero applies its body's
/// changes, repeated, then leaves its cell known zero.
pub open spec fn analysis_tree(tape: Seq<CellAnalysis>, t: SpecTree) -> Seq<CellAnalysis>
    decreases t,
{
    match t {
        SpecTree::Add(a, v) => tape.update(a as int, add_effect(tape[a as int], v)),
        SpecTree::Write(_) => tape,
        SpecTree::Read(a) => tape.update(a as int, CellAnalysis::Unknown),
        SpecTree::While(a, b) => if tape[a as int] == CellAnalysis::Absolute(0) {
            tape
        } else {
            let changes = loop_changes(tape[a as int], analysis_trees(unchanged_tape(), b), a);
            Seq::new(tape.len(), |i: int| merge_cell(tape[i], changes[i])).update(a as int, CellAnalysis::Absolute(0))
        },
    }
}

/// What is known of the cells after the trees, from `tape` before them.
pub open spec fn analysis_trees(tape: Seq<CellAnalysis>, s: Seq<SpecTree>) -> Seq<CellAnalysis>
    decreases s,
{
    if s.len() == 0 {
        tape
    } else {
        analysis_tree(analysis_trees(tape, s.drop_last()), s.last())
    }
}

impl TapeAnalysis {
    /// The tape has 30000 cells.
    pub open spec fn wf(&self) -> bool {
        self.tape@.len() == 30000
    }

    fn filled(cell: CellAnalysis) -> (r: Self)
        ensures
            r.wf(),
            forall|i: int| 0 <= i < 30000 ==> #[trigger] r.tape@[i] == cell,
    {
        let mut tape: Vec<CellAnalysis> = Vec::new();
        while tape.len() < 30000
            invariant
                tape@.len() <= 30000,
                forall|i: int| 0 <= i < tape@.len() ==> #[trigger] tape@[i] == cell,
            decreases 30000 - tape@.len(),
        {
            tape.push(cell);
        }
        Self { tape }
    }

    /// Every cell known to be zero.
    fn new() -> (r: Self)
        ensures
            r.wf(),
            forall|i: int| 0 <= i < 30000 ==> #[trigger] r.tape@[i] == CellAnalysis::Absolute(0),
    {
        Self::filled(CellAnalysis::Absolute(0))
    }

    /// Every cell known to be unchanged.
    fn new_relative() -> (r: Self)
        ensures
            r.wf(),
            forall|i: int| 0 <= i < 30000 ==> #[trigger] r.tape@[i] == CellAnalysis::Relative(0),
    {
        Self::filled(CellAnalysis::Relative(0))
    }

    /// The changes repeated `amount` times; zero times leaves every cell unchanged.
    fn iterate_effects(&mut self, amount: u8)
        requires
            old(self).wf(),
        ensures
            final(self).wf(),
            forall|i: int|
                0 <= i < 30000 ==> #[trigger] final(self).tape@[i] == if amount == 0 {
                    CellAnalysis::Relative(0)
                } else {
                    match old(self).tape@[i] {
                        CellAnalysis::Relative(x) => CellAnalysis::Relative(x.wrapping_mul(amount as i8)),
                        c => c,
                    }
                },
    {
        let mut i: usize = 0;
        while i < self.tape.len()
            invariant
                i <= 30000,
                self.wf(),
                forall|k: int|
                    0 <= k < i ==> #[trigger] self.tape@[k] == if amount == 0 {
                        CellAnalysis::Relative(0)
                    } else {
                        match old(self).tape@[k] {
                            CellAnalysis::Relative(x) => CellAnalysis::Relative(x.wrapping_mul(amount as i8)),
                            c => c,
                        }
                    },
                forall|k: int| i <= k < 30000 ==> #[trigger] self.tape@[k] == old(self).tape@[k],
            decreases 30000 - i,
        {
            if amount == 0 {
                self.tape.set(i, CellAnalysis::Relative(0));
            } else {
                match self.tape[i] {
                    CellAnalysis::Relative(x) => {
                        #[verifier::truncate]
                        let times = amount as i8;
                        self.tape.set(i, CellAnalysis::Relative(x.wrapping_mul(times)));
                    },
                    _ => {},
                }
            }
            i = i + 1;
        }
    }

    /// The changes repeated an unknown number of times: every cell that grows becomes unknown.
    fn iterate_effects_unknown_times(&mut self)
        requires
            old(self).wf(),
        ensures
            final(self).wf(),
            forall|i: int|
                0 <= i < 30000 ==> #[trigger] final(self).tape@[i] == match old(self).tape@[i] {
                    CellAnalysis::Relative(x) => if x > 0 {
                        CellAnalysis::Unknown
                    } else {
                        old(self).tape@[i]
                    },
                    c => c,
                },
    {
        let mut i: usize = 0;
        while i < self.tape.len()
            invariant
                i <= 30000,
                self.wf(),
                forall|k: int|
                    0 <= k < i ==> #[trigger] self.tape@[k] == match old(self).tape@[k] {
                        CellAnalysis::Relative(x) => if x > 0 {
                            CellAnalysis::Unknown
                        } else {
                            old(self).tape@[k]
                        },
                        c => c,
                    },
                forall|k: int| i <= k < 30000 ==> #[trigger] self.tape@[k] == old(self).tape@[k],
            decreases 30000 - i,
        {
            match self.tape[i] {
                CellAnalysis::Relative(x) => {
                    if x > 0 {
                        self.tape.set(i, CellAnalysis::Unknown);
                    }
                },
                _ => {},
            }
            i = i + 1;
        }
    }

    /// Applies what `other` knows on top of what is known: see [`merge_cell`].
    fn merge_with(&mut self, other: Self)
        requires
            old(self).wf(),
            other.wf(),
        ensures
            final(self).wf(),
            forall|i: int| 0 <= i < 30000 ==> #[trigger] final(self).tape@[i] == merge_cell(old(self).tape@[i], other.tape@[i]),
    {
        let mut i: usize = 0;
        while i < self.tape.len()
            invariant
                i <= 30000,
                self.wf(),
                other.wf(),
                forall|k: int| 0 <= k < i ==> #[trigger] self.tape@[k] == merge_cell(old(self).tape@[k], other.tape@[k]),
                forall|k: int| i <= k < 30000 ==> #[trigger] self.tape@[k] == old(self).tape@[k],
            decreases 30000 - i,
        {
            let merged = match (self.tape[i], other.tape[i]) {
                (_, CellAnalysis::Unknown) => CellAnalysis::Unknown,
                (_, CellAnalysis::Absolute(y)) => CellAnalysis::Absolute(y),
                (CellAnalysis::Unknown, _) => CellAnalysis::Unknown,
                (CellAnalysis::Absolute(x), CellAnalysis::Relative(d)) => {
                    #[verifier::truncate]
                    let signed = x as i8;
                    let sum = signed.wrapping_add(d);
                    #[verifier::truncate]
                    let byte = sum as u8;
                    CellAnalysis::Absolute(byte)
                },
                (CellAnalysis::Relative(a), CellAnalysis::Relative(b)) => CellAnalysis::Relative(a.wrapping_add(b)),
            };
            self.tape.set(i, merged);
            i = i + 1;
        }
    }

    /// What is known of the cell.
    pub fn get(&self, index: u16) -> (r: CellAnalysis)
        requires
            self.wf(),
            index < 30000,
        ensures
            r == self.tape@[index as int],
    {
        self.tape[index as usize]
    }

    /// Records what is known of the cell.
    pub fn set(&mut self, index: u16, value: CellAnalysis)
        requires
            old(self).wf(),
            index < 30000,
        ensures
            final(self).wf(),
            final(self).tape@ == old(self).tape@.update(index as int, value),
    {
        self.tape.set(index as usize, value);
    }
}


/// Adding `step` to `start` `k` times reaches zero, modulo 256.
pub open spec fn reaches_zero(start: int, step: int, k: int) -> bool {
    (start + k * step) % 256 == 0
}

/// Whether `k` additions reach zero depends only on `k` modulo 256.
proof fn lemma_reaches_zero_period(start: int, step: int, k: int)
    requires
        k >= 0,
    ensures
        reaches_zero(start, step, k) == reaches_zero(start, step, k % 256),
{
    let q = k / 256;
    let r = k % 256;
    vstd::arithmetic::div_mod::lemma_fundamental_div_mod(k, 256);
    assert(start + k * step == 256 * (q * step) + (start + r * step)) by (nonlinear_arith)
        requires
            k == 256 * q + r,
    ;
    vstd::arithmetic::div_mod::lemma_mod_multiples_vanish(q * step, start + r * step, 256);
}

/// The least number of additions of `step` that bring `start` to zero, where there is one.
pub open spec fn least_steps(start: u8, step: u8) -> Option<u8> {
    if exists|n: u8| #[trigger] least_reaching(start, step, n) {
        Some(choose|n: u8| #[trigger] least_reaching(start, step, n))
    } else {
        None
    }
}

/// `n` additions of `step` bring `start` to zero, and no fewer do.
pub open spec fn least_reaching(start: u8, step: u8, n: u8) -> bool {
    reaches_zero(start as int, step as int, n as int) && forall|k: int| 0 <= k < n ==> !#[trigger] reaches_zero(
        start as int,
        step as int,
        k,
    )
}

/// What [`steps_to_zero`] gives is the least number of additions.
proof fn lemma_least_steps(start: u8, step: u8, r: Option<u8>)
    requires
        r matches Some(n) ==> reaches_zero(start as int, step as int, n as int),
        r matches Some(n) ==> forall|k: int| 0 <= k < n ==> !#[trigger] reaches_zero(start as int, step as int, k),
        r is None <==> forall|k: int| k >= 0 ==> !#[trigger] reaches_zero(start as int, step as int, k),
    ensures
        r == least_steps(start, step),
{
    match r {
        Some(n) => {
            assert(least_reaching(start, step, n));
            let m = choose|m: u8| #[trigger] least_reaching(start, step, m);
            assert(least_reaching(start, step, m));
            if m < n {
                assert(!reaches_zero(start as int, step as int, m as int));
            } else if n < m {
                assert(!reaches_zero(start as int, step as int, n as int));
            }
        },
        None => {
            assert forall|n: u8| !#[trigger] least_reaching(start, step, n) by {
                assert(!reaches_zero(start as int, step as int, n as int));
            }
        },
    }
}

/// How many times `step` must be added to `start`, modulo 256, to reach zero: the least such
/// number, below 256; `None` where no number of additions reaches zero.
pub fn steps_to_zero(start: u8, step: u8) -> (r: Option<u8>)
    ensures
        r matches Some(n) ==> reaches_zero(start as int, step as int, n as int),
        r matches Some(n) ==> forall|k: int| 0 <= k < n ==> !#[trigger] reaches_zero(start as int, step as int, k),
        r is None <==> forall|k: int| k >= 0 ==> !#[trigger] reaches_zero(start as int, step as int, k),
{
    let mut n: u32 = 0;
    while n < 256
        invariant
            n <= 256,
            forall|k: int| 0 <= k < n ==> !#[trigger] reaches_zero(start as int, step as int, k),
        decreases 256 - n,
    {
        assert(n * (step as u32) <= 255 * 255) by (nonlinear_arith)
            requires
                n < 256,
                step <= 255,
        ;
        let value: u32 = start as u32 + n * step as u32;
        if value % 256 == 0 {
            assert(reaches_zero(start as int, step as int, n as int));
            return Some(n as u8);
        }
        n = n + 1;
    }
    assert forall|k: int| k >= 0 implies !#[trigger] reaches_zero(start as int, step as int, k) by {
        lemma_reaches_zero_period(start as int, step as int, k);
        assert(!reaches_zero(start as int, step as int, k % 256));
    }
    None
}

/// Applying an unchanged cell leaves what is known as it was.
proof fn lemma_merge_unchanged(c: CellAnalysis)
    ensures
        merge_cell(c, CellAnalysis::Relative(0)) == c,
{
    match c {
        CellAnalysis::Absolute(x) => {
            assert(((x as i8).wrapping_add(0i8)) as u8 == x) by (bit_vector);
        },
        CellAnalysis::Relative(a) => {
            assert(a.wrapping_add(0i8) == a) by (bit_vector);
        },
        CellAnalysis::Unknown => {},
    }
}

/// What is known of every cell once the tape is analysed.
pub struct ABFOptimizer;

impl ABFOptimizer {
    /// Updates what is known of the cells by running the tree abstractly: a loop whose
    /// condition cell is not known zero has its body's changes repeated as often as it can be
    /// told, and its condition cell is zero afterwards. Cells the tree does not work on keep
    /// what is known of them.
    fn analyze_abf_tree(tree: &ABFTree, state: &mut TapeAnalysis)
        requires
            old(state).wf(),
            tree_below(tree@, 30000),
        ensures
            final(state).wf(),
            forall|c: int|
                0 <= c < 30000 && !tree_vars(tree@).contains(c as u16) ==> #[trigger] final(state).tape@[c] == old(state).tape@[c],
            tree@ matches SpecTree::Read(a) ==> final(state).tape@[a as int] == CellAnalysis::Unknown,
            tree@ matches SpecTree::Add(a, v) ==> final(state).tape@[a as int] == match old(state).tape@[a as int] {
                CellAnalysis::Unknown => CellAnalysis::Unknown,
                CellAnalysis::Absolute(x) => CellAnalysis::Absolute(((x as i8).wrapping_add(v)) as u8),
                CellAnalysis::Relative(x) => CellAnalysis::Relative(x.wrapping_add(v)),
            },
            tree@ matches SpecTree::While(a, _) ==> final(state).tape@[a as int] == CellAnalysis::Absolute(0),
            final(state).tape@ == analysis_tree(old(state).tape@, tree@),
        decreases tree,
    {
        match tree {
            ABFTree::Add(address, value) => {
                let updated = match state.get(*address) {
                    CellAnalysis::Unknown => CellAnalysis::Unknown,
                    CellAnalysis::Absolute(current) => {
                        #[verifier::truncate]
                        let signed = current as i8;
                        let sum = signed.wrapping_add(*value);
                        #[verifier::truncate]
                        let byte = sum as u8;
                        CellAnalysis::Absolute(byte)
                    },
                    CellAnalysis::Relative(current) => CellAnalysis::Relative(current.wrapping_add(*value)),
                };
                state.set(*address, updated);
            },
            ABFTree::Write(_) => {},
            ABFTree::Read(address) => {
                state.set(*address, CellAnalysis::Unknown);
            },
            ABFTree::While(address, body) => {
                if state.get(*address) != CellAnalysis::Absolute(0) {
                    let mut body_analysis = TapeAnalysis::new_relative();
                    let ghost b = trees_view(body@);
                    let mut i: usize = 0;
                    proof {
                        assert(b.take(0) =~= Seq::<SpecTree>::empty());
                        assert(body_analysis.tape@ =~= analysis_trees(unchanged_tape(), b.take(0)));
                    }
                    while i < body.len()
                        invariant
                            i <= body@.len(),
                            b == trees_view(body@),
                            *tree == ABFTree::While(*address, *body),
                            tree_below(tree@, 30000),
                            body_analysis.wf(),
                            forall|c: int|
                                0 <= c < 30000 && !trees_vars(b.take(i as int)).contains(c as u16) ==> #[trigger] body_analysis.tape@[c]
                                    == CellAnalysis::Relative(0),
                            body_analysis.tape@ == analysis_trees(unchanged_tape(), b.take(i as int)),
                        decreases body@.len() - i,
                    {
                        proof {
                            assert(b.take(i + 1) =~= b.take(i as int).push(b[i as int]));
                            lemma_vars_push(b.take(i as int), b[i as int]);
                            lemma_trees_below_index(b, 30000, i as int);
                            broadcast use vstd::std_specs::vec::axiom_vec_index_decreases;

                            assert(decreases_to!(*body => body[i as int]));
                            assert(decreases_to!(*tree => tree->While_1));
                        }
                        Self::analyze_abf_tree(&body[i], &mut body_analysis);
                        proof {
                            assert(b.take(i + 1).drop_last() =~= b.take(i as int));
                            assert(b.take(i + 1).last() == b[i as int]);
                        }
                        i = i + 1;
                    }
                    assert(b.take(i as int) =~= b);
                    let ghost before = body_analysis.tape@;
                    match (state.get(*address), body_analysis.get(*address)) {
                        (_, CellAnalysis::Unknown) => body_analysis.iterate_effects_unknown_times(),
                        (CellAnalysis::Unknown, _) => body_analysis.iterate_effects_unknown_times(),
                        (_, CellAnalysis::Absolute(0)) => body_analysis.iterate_effects(1),
                        (_, CellAnalysis::Absolute(_)) => body_analysis.iterate_effects_unknown_times(),
                        (CellAnalysis::Absolute(start), CellAnalysis::Relative(step)) => {
                            #[verifier::truncate]
                            let step_byte = step as u8;
                            let steps = steps_to_zero(start, step_byte);
                            proof {
                                lemma_least_steps(start, step_byte, steps);
                            }
                            match steps {
                                Some(iterations) => body_analysis.iterate_effects(iterations),
                                None => body_analysis.iterate_effects_unknown_times(),
                            }
                        },
                        (CellAnalysis::Relative(_), _) => body_analysis.iterate_effects_unknown_times(),
                    }
                    assert forall|c: int| 0 <= c < 30000 && !trees_vars(b).contains(c as u16) implies #[trigger] body_analysis.tape@[c] == CellAnalysis::Relative(0) by {
                        assert(before[c] == CellAnalysis::Relative(0));
                        assert(0i8.wrapping_mul(1i8) == 0i8) by (bit_vector);
                        assert(forall|k: i8| 0i8.wrapping_mul(k) == 0i8) by (bit_vector);
                    }
                    let ghost pre_merge = state.tape@;
                    let ghost changes = body_analysis.tape@;
                    proof {
                        assert(changes =~= loop_changes(pre_merge[*address as int], before, *address));
                    }
                    state.merge_with(body_analysis);
                    assert forall|c: int| 0 <= c < 30000 && !tree_vars(tree@).contains(c as u16) implies #[trigger] state.tape@[c] == old(state).tape@[c] by {
                        assert(!trees_vars(b).contains(c as u16));
                        lemma_merge_unchanged(pre_merge[c]);
                    }
                    state.set(*address, CellAnalysis::Absolute(0));
                    proof {
                        assert(state.tape@ =~= analysis_tree(old(state).tape@, tree@));
                    }
                }
            },
        }
    }

    /// What is known of every cell after the program, from a tape of zeros; the cells it does
    /// not work on are known zero, a cell read and not worked on afterwards is unknown, and the
    /// cell of a loop not worked on afterwards is known zero.
    pub fn analyze_abf(program: &ABFProgram) -> (r: TapeAnalysis)
        requires
            trees_below(trees_view(program.body@), 30000),
        ensures
            r.wf(),
            forall|c: int|
                0 <= c < 30000 && !trees_vars(trees_view(program.body@)).contains(c as u16) ==> #[trigger] r.tape@[c]
                    == CellAnalysis::Absolute(0),
            last_effects_hold(trees_view(program.body@), program.body@.len() as int, r.tape@),
            r.tape@ == analysis_trees(zero_tape(), trees_view(program.body@)),
    {
        let mut analysis = TapeAnalysis::new();
        let ghost s = trees_view(program.body@);
        let mut i: usize = 0;
        proof {
            assert(s.take(0) =~= Seq::<SpecTree>::empty());
            assert(analysis.tape@ =~= analysis_trees(zero_tape(), s.take(0)));
        }
        while i < program.body.len()
            invariant
                i <= program.body@.len(),
                s == trees_view(program.body@),
                trees_below(s, 30000),
                analysis.wf(),
                forall|c: int|
                    0 <= c < 30000 && !trees_vars(s.take(i as int)).contains(c as u16) ==> #[trigger] analysis.tape@[c]
                        == CellAnalysis::Absolute(0),
                last_effects_hold(s, i as int, analysis.tape@),
                analysis.tape@ == analysis_trees(zero_tape(), s.take(i as int)),
            decreases program.body@.len() - i,
        {
            proof {
                assert(s.take(i + 1) =~= s.take(i as int).push(s[i as int]));
                lemma_vars_push(s.take(i as int), s[i as int]);
                lemma_trees_below_index(s, 30000, i as int);
            }
            let ghost before = analysis.tape@;
            Self::analyze_abf_tree(&program.body[i], &mut analysis);
            proof {
                assert(s.take(i + 1).drop_last() =~= s.take(i as int));
                assert(s.take(i + 1).last() == s[i as int]);
                assert forall|j: int| #![trigger s[j]] 0 <= j < i + 1 implies match s[j] {
                    SpecTree::Read(a) => !trees_vars(s.subrange(j + 1, i + 1)).contains(a) ==> analysis.tape@[a as int] == CellAnalysis::Unknown,
                    SpecTree::While(a, _) => !trees_vars(s.subrange(j + 1, i + 1)).contains(a) ==> analysis.tape@[a as int]
                        == CellAnalysis::Absolute(0),
                    _ => true,
                } by {
                    if j < i {
                        assert(s.subrange(j + 1, i + 1) =~= s.subrange(j + 1, i as int).push(s[i as int]));
                        lemma_vars_push(s.subrange(j + 1, i as int), s[i as int]);
                        lemma_trees_below_index(s, 30000, j);
                    } else {
                        assert(s.subrange(j + 1, i + 1) =~= Seq::<SpecTree>::empty());
                    }
                }
            }
            i = i + 1;
        }
        assert(s.take(i as int) =~= s);
        analysis
    }
}


/// Each `Read` among the first `n` trees leaves its cell unknown in `tape`, and each loop its
/// cell known zero, where no later tree among them works on that cell.
pub open spec fn last_effects_hold(s: Seq<SpecTree>, n: int, tape: Seq<CellAnalysis>) -> bool {
    forall|j: int|
        #![trigger s[j]]
        0 <= j < n ==> match s[j] {
            SpecTree::Read(a) => !trees_vars(s.subrange(j + 1, n)).contains(a) ==> tape[a as int] == CellAnalysis::Unknown,
            SpecTree::While(a, _) => !trees_vars(s.subrange(j + 1, n)).contains(a) ==> tape[a as int] == CellAnalysis::Absolute(0),
            _ => true,
        }
}

/// A number below `bound`: `rand::Rng::gen_range` on the range `0..bound` with the
/// thread-local generator of `rand::thread_rng`. Only the range is claimed of it.
#[verifier::external_body]
fn random_below(bound: usize) -> (r: usize)
    requires
        bound > 0,
    ensures
        r < bound,
{
    rand::thread_rng().gen_range(0..bound)
}

/// How far the pointer moves along the path, from cell 0.
pub open spec fn path_moves(p: Seq<u16>) -> int
    decreases p.len(),
{
    if p.len() < 2 {
        0
    } else {
        let a = p[p.len() - 2] as int;
        let b = p[p.len() - 1] as int;
        path_moves(p.drop_last()) + if a >= b {
            a - b
        } else {
            b - a
        }
    }
}

/// The cost of a path: the moves from cell 0 to its first cell and along it.
pub open spec fn path_cost(p: Seq<u16>) -> int {
    if p.len() == 0 {
        0
    } else {
        p[0] + path_moves(p)
    }
}

proof fn lemma_moves_bound(p: Seq<u16>)
    ensures
        0 <= path_moves(p) <= 65535 * p.len(),
    decreases p.len(),
{
    if p.len() >= 2 {
        lemma_moves_bound(p.drop_last());
    }
}

/// The path with every cell `a` renamed `map[a]`.
pub open spec fn remap_seq(p: Seq<u16>, map: Seq<u16>) -> Seq<u16> {
    Seq::new(p.len(), |i: int| map[p[i] as int])
}

/// The numbers from 0 below `n`, in order.
pub open spec fn identity_map(n: nat) -> Seq<u16> {
    Seq::new(n, |i: int| i as u16)
}

/// The cost of the path: how far the pointer moves from cell 0 along it.
fn path_score(path: &[u16]) -> (r: u32)
    requires
        0 < path@.len() <= 65536,
    ensures
        r == path_cost(path@),
{
    let mut total: u32 = path[0] as u32;
    let mut i: usize = 1;
    proof {
        assert(path@.take(1).len() < 2);
    }
    while i < path.len()
        invariant
            1 <= i <= path@.len() <= 65536,
            total == path@[0] + path_moves(path@.take(i as int)),
            path_moves(path@.take(i as int)) <= 65535 * i,
        decreases path@.len() - i,
    {
        let a = path[i - 1];
        let b = path[i];
        let step: u32 = if a >= b {
            (a - b) as u32
        } else {
            (b - a) as u32
        };
        proof {
            assert(path@.take(i + 1).drop_last() =~= path@.take(i as int));
            assert(path@.take(i + 1)[i - 1] == a);
            assert(path@.take(i + 1)[i as int] == b);
            assert(65535 * i + 65535 + 65535 <= 65535 * 65537) by (nonlinear_arith)
                requires
                    i <= 65535,
            ;
        }
        total = total + step;
        i = i + 1;
    }
    assert(path@.take(i as int) =~= path@);
    total
}

/// The path with every cell `a` renamed `map[a]`.
fn remap_path(path: &[u16], map: &[u16]) -> (r: Vec<u16>)
    requires
        forall|i: int| 0 <= i < path@.len() ==> #[trigger] path@[i] < map@.len(),
    ensures
        r@ == remap_seq(path@, map@),
{
    let mut result: Vec<u16> = Vec::new();
    let mut i: usize = 0;
    while i < path.len()
        invariant
            i <= path@.len(),
            forall|k: int| 0 <= k < path@.len() ==> #[trigger] path@[k] < map@.len(),
            result@ == remap_seq(path@.take(i as int), map@),
        decreases path@.len() - i,
    {
        result.push(map[path[i] as usize]);
        i = i + 1;
        assert(result@ =~= remap_seq(path@.take(i as int), map@));
    }
    assert(path@.take(i as int) =~= path@);
    result
}

/// Swaps the entries at `index_a` and `index_b`: the map stays a permutation of what it was.
pub fn swap_entries(map: &mut Vec<u16>, index_a: usize, index_b: usize)
    requires
        index_a < old(map)@.len(),
        index_b < old(map)@.len(),
    ensures
        final(map)@ == old(map)@.update(index_a as int, old(map)@[index_b as int]).update(index_b as int, old(map)@[index_a as int]),
        final(map)@.to_multiset() == old(map)@.to_multiset(),
{
    let a = map[index_a];
    let b = map[index_b];
    let ghost before = map@;
    map.set(index_a, b);
    map.set(index_b, a);
    proof {
        broadcast use vstd::seq_lib::to_multiset_update;
        broadcast use vstd::multiset::group_multiset_properties;

        let mid = before.update(index_a as int, b);
        assert(map@ == mid.update(index_b as int, a));
        assert(mid.to_multiset() == before.to_multiset().insert(b).remove(a));
        assert(map@.to_multiset() == mid.to_multiset().insert(a).remove(mid[index_b as int]));
        if index_a == index_b {
            assert(mid[index_b as int] == b);
            assert(b == a);
            assert(map@ =~= before);
        } else {
            assert(mid[index_b as int] == b);
            assert(before.to_multiset().insert(b).remove(a).insert(a).remove(b) =~= before.to_multiset()) by {
                assert(before.to_multiset().count(a) > 0) by {
                    assert(before[index_a as int] == a);
                    vstd::seq_lib::to_multiset_contains(before, a);
                }
            }
        }
    }
}

/// The map with between one and `max_mutations` random pairs of entries swapped: a
/// permutation of it.
fn mutate_map(map: &[u16], max_mutations: u8) -> (r: Vec<u16>)
    requires
        map@.len() > 0,
        max_mutations >= 1,
    ensures
        r@.to_multiset() == map@.to_multiset(),
        r@.len() == map@.len(),
{
    let mut result: Vec<u16> = Vec::new();
    let mut k: usize = 0;
    while k < map.len()
        invariant
            k <= map@.len(),
            result@ == map@.take(k as int),
        decreases map@.len() - k,
    {
        result.push(map[k]);
        k = k + 1;
        assert(result@ =~= map@.take(k as int));
    }
    assert(map@.take(k as int) =~= map@);
    let number_of_mutations = 1 + random_below(max_mutations as usize);
    let mut i: usize = 0;
    while i < number_of_mutations
        invariant
            result@.to_multiset() == map@.to_multiset(),
            result@.len() == map@.len(),
            map@.len() > 0,
        decreases number_of_mutations - i,
    {
        let index_a = random_below(map.len());
        let index_b = random_below(map.len());
        swap_entries(&mut result, index_a, index_b);
        i = i + 1;
    }
    result
}

/// The largest element of a non-empty sequence.
pub open spec fn seq_max(p: Seq<u16>) -> u16
    decreases p.len(),
{
    if p.len() <= 1 {
        p[0]
    } else {
        let m = seq_max(p.drop_last());
        if m >= p.last() {
            m
        } else {
            p.last()
        }
    }
}

proof fn lemma_seq_max(p: Seq<u16>)
    requires
        p.len() > 0,
    ensures
        forall|i: int| 0 <= i < p.len() ==> #[trigger] p[i] <= seq_max(p),
    decreases p.len(),
{
    if p.len() > 1 {
        lemma_seq_max(p.drop_last());
        assert forall|i: int| 0 <= i < p.len() implies #[trigger] p[i] <= seq_max(p) by {
            if i < p.len() - 1 {
                assert(p.drop_last()[i] == p[i]);
            }
        }
    }
}

/// A renaming of the cells of the path, found by random search from no renaming at all: a
/// permutation of the cells up to the largest, under which the path costs no more than it
/// did.
pub fn path_optimize(path: &[u16], max_iterations: u32) -> (r: Vec<u16>)
    requires
        0 < path@.len() <= 65536,
    ensures
        r@.len() == seq_max(path@) + 1,
        r@.to_multiset() == identity_map((seq_max(path@) + 1) as nat).to_multiset(),
        path_cost(remap_seq(path@, r@)) <= path_cost(path@),
        max_iterations == 0 ==> r@ == identity_map((seq_max(path@) + 1) as nat),
{
    let mut best_score = path_score(path);
    let mut largest: u16 = path[0];
    let mut k: usize = 1;
    proof {
        assert(path@.take(1) =~= seq![path@[0]]);
    }
    while k < path.len()
        invariant
            1 <= k <= path@.len(),
            largest == seq_max(path@.take(k as int)),
        decreases path@.len() - k,
    {
        proof {
            assert(path@.take(k + 1).drop_last() =~= path@.take(k as int));
            assert(path@.take(k + 1).last() == path@[k as int]);
        }
        if path[k] > largest {
            largest = path[k];
        }
        k = k + 1;
    }
    assert(path@.take(k as int) =~= path@);
    proof {
        lemma_seq_max(path@);
    }
    let mut best_map: Vec<u16> = Vec::new();
    let mut a: u32 = 0;
    while a <= largest as u32
        invariant
            a <= largest as u32 + 1,
            best_map@ == identity_map(a as nat),
        decreases largest as u32 + 1 - a,
    {
        best_map.push(a as u16);
        a = a + 1;
        assert(best_map@ =~= identity_map(a as nat));
    }
    proof {
        assert(remap_seq(path@, best_map@) =~= path@);
    }
    let mut i: u32 = 0;
    while i < max_iterations
        invariant
            best_map@.len() == largest + 1,
            largest == seq_max(path@),
            forall|q: int| 0 <= q < path@.len() ==> #[trigger] path@[q] <= largest,
            0 < path@.len() <= 65536,
            best_map@.to_multiset() == identity_map((largest + 1) as nat).to_multiset(),
            best_score == path_cost(remap_seq(path@, best_map@)),
            best_score <= path_cost(path@),
            max_iterations == 0 ==> best_map@ == identity_map((largest + 1) as nat),
        decreases max_iterations - i,
    {
        let mutation = mutate_map(best_map.as_slice(), 5);
        let current_path = remap_path(path, mutation.as_slice());
        let current_score = path_score(current_path.as_slice());
        if current_score < best_score {
            best_score = current_score;
            best_map = mutation;
        }
        i = i + 1;
    }
    best_map
}

} // verus!

verus! {

/// The cells the pointer of a program visits, from cell 0 on, each run of one cell kept
/// once.
pub open spec fn pointer_path(body: Seq<SpecTree>) -> Seq<u16> {
    collapse(seq![0u16] + visits_seq(body))
}

proof fn lemma_collapse_facts(s: Seq<u16>)
    ensures
        collapse(s).len() <= s.len(),
        s.len() > 0 ==> collapse(s).len() > 0 && collapse(s)[0] == s[0] && collapse(s).last() == s.last(),
        forall|i: int| 0 <= i < s.len() ==> collapse(s).contains(#[trigger] s[i]),
    decreases s.len(),
{
    if s.len() > 0 {
        let t = s.drop_last();
        lemma_collapse_facts(t);
        let c = collapse(t);
        assert forall|i: int| 0 <= i < s.len() implies collapse(s).contains(#[trigger] s[i]) by {
            if i < s.len() - 1 {
                assert(t[i] == s[i]);
                let j = choose|j: int| 0 <= j < c.len() && c[j] == t[i];
                assert(collapse(s)[j] == s[i]);
            } else {
                assert(collapse(s)[collapse(s).len() - 1] == s[i]);
            }
        }
    }
}

proof fn lemma_moves_push(p: Seq<u16>, x: u16)
    requires
        p.len() > 0,
    ensures
        path_moves(p.push(x)) == path_moves(p) + if p.last() >= x {
            p.last() - x
        } else {
            x - p.last()
        },
{
    assert(p.push(x).drop_last() =~= p);
}

proof fn lemma_remap_push(p: Seq<u16>, x: u16, m: Seq<u16>)
    ensures
        remap_seq(p.push(x), m) == remap_seq(p, m).push(m[x as int]),
{
    assert(remap_seq(p.push(x), m) =~= remap_seq(p, m).push(m[x as int]));
}

/// Keeping runs of one cell once changes neither where a renamed path starts nor how far
/// its pointer moves.
proof fn lemma_collapse_moves(s: Seq<u16>, m: Seq<u16>)
    ensures
        path_moves(remap_seq(collapse(s), m)) == path_moves(remap_seq(s, m)),
    decreases s.len(),
{
    if s.len() > 0 {
        let t = s.drop_last();
        let a = s.last();
        assert(s =~= t.push(a));
        lemma_collapse_moves(t, m);
        lemma_collapse_facts(t);
        let c = collapse(t);
        lemma_remap_push(t, a, m);
        if t.len() == 0 {
            assert(c =~= Seq::<u16>::empty());
            assert(collapse(s) =~= seq![a]);
        } else {
            lemma_moves_push(remap_seq(t, m), m[a as int]);
            if c.last() == a {
                assert(collapse(s) == c);
            } else {
                assert(collapse(s) == c.push(a));
                lemma_remap_push(c, a, m);
                lemma_moves_push(remap_seq(c, m), m[a as int]);
            }
        }
    }
}

proof fn lemma_collapse_cost(s: Seq<u16>, m: Seq<u16>)
    ensures
        path_cost(remap_seq(collapse(s), m)) == path_cost(remap_seq(s, m)),
        path_cost(collapse(s)) == path_cost(s),
{
    lemma_collapse_facts(s);
    lemma_collapse_moves(s, m);
    let id = identity_map(65536);
    assert(remap_seq(s, id) =~= s);
    assert(remap_seq(collapse(s), id) =~= collapse(s));
    lemma_collapse_moves(s, id);
}

proof fn lemma_moves_prepend(a: u16, r: Seq<u16>)
    requires
        r.len() > 0,
    ensures
        path_moves(seq![a] + r) == path_moves(r) + if a >= r[0] {
            a - r[0]
        } else {
            r[0] - a
        },
    decreases r.len(),
{
    let t = r.drop_last();
    let x = r.last();
    assert(seq![a] + r =~= (seq![a] + t).push(x));
    if t.len() == 0 {
        assert(seq![a] + r =~= seq![a, x]);
        assert(seq![a, x].drop_last() =~= seq![a]);
        assert(path_moves(seq![a]) == 0);
        assert(path_moves(r) == 0);
        assert(r[0] == x);
    } else {
        lemma_moves_prepend(a, t);
        lemma_moves_push(seq![a] + t, x);
        lemma_moves_push(t, x);
        assert(r =~= t.push(x));
        assert((seq![a] + t).last() == t.last());
        assert(r[0] == t[0]);
    }
}

proof fn lemma_visits_below_tree(t: SpecTree, bound: int)
    requires
        forall|i: int| 0 <= i < visits(t).len() ==> #[trigger] visits(t)[i] < bound,
    ensures
        tree_below(t, bound),
    decreases t,
{
    match t {
        SpecTree::While(a, body) => {
            let v = visits_seq(body);
            assert(visits(t)[0] == a);
            assert forall|i: int| 0 <= i < v.len() implies #[trigger] v[i] < bound by {
                assert(visits(t)[i + 1] == v[i]);
            }
            lemma_visits_below_seq(body, bound);
        },
        _ => {
            assert(visits(t)[0] == tree_address(t));
        },
    }
}

proof fn lemma_visits_below_seq(s: Seq<SpecTree>, bound: int)
    requires
        forall|i: int| 0 <= i < visits_seq(s).len() ==> #[trigger] visits_seq(s)[i] < bound,
    ensures
        trees_below(s, bound),
    decreases s,
{
    if s.len() > 0 {
        let v = visits_seq(s.drop_last());
        let w = visits(s.last());
        assert forall|i: int| 0 <= i < v.len() implies #[trigger] v[i] < bound by {
            assert(visits_seq(s)[i] == v[i]);
        }
        assert forall|i: int| 0 <= i < w.len() implies #[trigger] w[i] < bound by {
            assert(visits_seq(s)[v.len() + i] == w[i]);
        }
        lemma_visits_below_seq(s.drop_last(), bound);
        lemma_visits_below_tree(s.last(), bound);
    }
}

proof fn lemma_visits_remap(t: SpecTree, m: Seq<u16>)
    ensures
        visits(remap_tree(t, m)) == remap_seq(visits(t), m),
    decreases t,
{
    match t {
        SpecTree::While(a, body) => {
            lemma_visits_seq_remap(body, m);
            assert(visits(remap_tree(t, m)) =~= remap_seq(visits(t), m));
        },
        _ => {
            assert(visits(remap_tree(t, m)) =~= remap_seq(visits(t), m));
        },
    }
}

proof fn lemma_visits_seq_remap(s: Seq<SpecTree>, m: Seq<u16>)
    ensures
        visits_seq(remap_trees(s, m)) == remap_seq(visits_seq(s), m),
    decreases s,
{
    if s.len() == 0 {
        assert(remap_seq(visits_seq(s), m) =~= Seq::<u16>::empty());
    } else {
        lemma_visits_seq_remap(s.drop_last(), m);
        lemma_visits_remap(s.last(), m);
        let r = remap_trees(s, m);
        assert(r.drop_last() =~= remap_trees(s.drop_last(), m));
        assert(r.last() == remap_tree(s.last(), m));
        let v = visits_seq(s.drop_last());
        let w = visits(s.last());
        assert(remap_seq(v + w, m) =~= remap_seq(v, m) + remap_seq(w, m));
    }
}

/// A rearrangement of the numbers below its length names each of them once.
proof fn lemma_permutation_facts(m: Seq<u16>)
    requires
        m.len() <= 65536,
        m.to_multiset() == identity_map(m.len()).to_multiset(),
    ensures
        m.no_duplicates(),
        forall|i: int| 0 <= i < m.len() ==> #[trigger] m[i] < m.len(),
{
    broadcast use vstd::seq_lib::group_to_multiset_ensures;

    let id = identity_map(m.len());
    assert(id.no_duplicates());
    id.lemma_multiset_has_no_duplicates();
    m.lemma_multiset_has_no_duplicates_conv();
    assert forall|i: int| 0 <= i < m.len() implies #[trigger] m[i] < m.len() by {
        assert(m.contains(m[i]));
        assert(m.to_multiset().count(m[i]) > 0);
        assert(id.contains(m[i]));
        let j = choose|j: int| 0 <= j < id.len() && id[j] == m[i];
    }
}

/// Two runs agree through the renaming `m` of the cells below its length: each such cell holds
/// in the second run what the cell it is renamed from holds in the first, and the same input is
/// left and the same output printed.
pub open spec fn renamed_agree(st: AbfState, st2: AbfState, m: Seq<u16>) -> bool {
    &&& forall|a: u16| a < m.len() ==> #[trigger] cell(st2.cells, m[a as int]) == cell(st.cells, a)
    &&& st2.input == st.input
    &&& st2.output == st.output
}

/// Running the trees with their cells renamed by a one-to-one `m` does what running them does.
proof fn lemma_run_renamed(s: Seq<SpecTree>, m: Seq<u16>, st: AbfState, st2: AbfState, fuel: nat)
    requires
        m.no_duplicates(),
        trees_below(s, m.len() as int),
        renamed_agree(st, st2, m),
    ensures
        run_trees(s, st, fuel) is Some <==> run_trees(remap_trees(s, m), st2, fuel) is Some,
        run_trees(s, st, fuel) is Some ==> renamed_agree(run_trees(s, st, fuel)->Some_0, run_trees(remap_trees(s, m), st2, fuel)->Some_0, m),
    decreases fuel, s.len(), 1nat,
{
    if s.len() > 0 {
        let prev = s.drop_last();
        assert(remap_trees(s, m).drop_last() =~= remap_trees(prev, m));
        assert(remap_trees(s, m).last() == remap_tree(s.last(), m));
        lemma_run_renamed(prev, m, st, st2, fuel);
        if let Some(mid) = run_trees(prev, st, fuel) {
            let mid2 = run_trees(remap_trees(prev, m), st2, fuel)->Some_0;
            lemma_run_renamed_tree(s.last(), m, mid, mid2, fuel);
        }
    }
}

/// Running a tree with its cells renamed by a one-to-one `m` does what running it does.
proof fn lemma_run_renamed_tree(t: SpecTree, m: Seq<u16>, st: AbfState, st2: AbfState, fuel: nat)
    requires
        m.no_duplicates(),
        tree_below(t, m.len() as int),
        renamed_agree(st, st2, m),
    ensures
        run_tree(t, st, fuel) is Some <==> run_tree(remap_tree(t, m), st2, fuel) is Some,
        run_tree(t, st, fuel) is Some ==> renamed_agree(run_tree(t, st, fuel)->Some_0, run_tree(remap_tree(t, m), st2, fuel)->Some_0, m),
    decreases fuel, 0nat, 0nat,
{
    let a = tree_address(t);
    assert(cell(st2.cells, m[a as int]) == cell(st.cells, a));
    match t {
        SpecTree::While(c, body) => {
            if cell(st.cells, c) != 0 && fuel > 0 {
                let f = (fuel - 1) as nat;
                lemma_run_renamed(body, m, st, st2, f);
                if let Some(next) = run_trees(body, st, f) {
                    let next2 = run_trees(remap_trees(body, m), st2, f)->Some_0;
                    lemma_run_renamed_tree(t, m, next, next2, f);
                }
            }
        },
        _ => {
            if let Some(after) = run_tree(t, st, fuel) {
                let after2 = run_tree(remap_tree(t, m), st2, fuel)->Some_0;
                assert forall|b: u16| b < m.len() implies #[trigger] cell(after2.cells, m[b as int]) == cell(after.cells, b) by {
                    assert(cell(st2.cells, m[b as int]) == cell(st.cells, b));
                    if b != a {
                        assert(m[b as int] != m[a as int]);
                    }
                }
            }
        },
    }
}

impl ABFProgram {
    /// Renames the cells of the program by a permutation found by random search, under which
    /// the pointer travels no farther than it did.
    pub fn optimize_addresses(&mut self, max_iterations: u32)
        requires
            visits_seq(trees_view(old(self).body@)).len() < 65536,
        ensures
            exists|m: Seq<u16>|
                #![auto]
                m.to_multiset() == identity_map(m.len()).to_multiset() && trees_view(final(self).body@)
                    == remap_trees(trees_view(old(self).body@), m),
            path_cost(pointer_path(trees_view(final(self).body@))) <= path_cost(
                pointer_path(trees_view(old(self).body@)),
            ),
            forall|st: AbfState, fuel: nat|
                all_zero(st.cells) ==> (#[trigger] run_trees(trees_view(final(self).body@), st, fuel) is Some <==> run_trees(
                    trees_view(old(self).body@),
                    st,
                    fuel,
                ) is Some) && (run_trees(trees_view(old(self).body@), st, fuel) is Some ==> run_trees(
                    trees_view(final(self).body@),
                    st,
                    fuel,
                )->Some_0.output == run_trees(trees_view(old(self).body@), st, fuel)->Some_0.output),
    {
        let ghost s = trees_view(self.body@);
        let ghost v = visits_seq(s);
        let current_path = self.calculate_path();
        proof {
            lemma_collapse_facts(seq![0u16] + v);
        }
        let address_map = path_optimize(current_path.as_slice(), max_iterations);
        let ghost m = address_map@;
        let ghost p = current_path@;
        proof {
            lemma_seq_max(p);
            assert forall|i: int| 0 <= i < v.len() implies #[trigger] v[i] < m.len() by {
                assert((seq![0u16] + v)[i + 1] == v[i]);
                let j = choose|j: int| 0 <= j < p.len() && p[j] == v[i];
            }
            lemma_visits_below_seq(s, m.len() as int);
        }
        self.remap_addresses(address_map.as_slice());
        proof {
            let s2 = trees_view(self.body@);
            lemma_visits_seq_remap(s, m);
            let v2 = remap_seq(v, m);
            assert(visits_seq(s2) == v2);
            lemma_collapse_cost(seq![0u16] + v2, m);
            lemma_collapse_cost(seq![0u16] + v, m);
            assert(remap_seq(seq![0u16] + v, m) =~= seq![m[0]] + v2);
            if v.len() == 0 {
                assert(seq![0u16] + v2 =~= seq![0u16]);
                lemma_moves_bound(remap_seq(p, m));
            } else {
                lemma_moves_prepend(0u16, v2);
                lemma_moves_prepend(m[0], v2);
                assert((seq![0u16] + v2)[0] == 0);
                assert((seq![m[0]] + v2)[0] == m[0]);
            }
            assert(m.len() == identity_map(m.len()).len());
            lemma_permutation_facts(m);
            assert forall|st: AbfState, fuel: nat|
                all_zero(st.cells) implies (#[trigger] run_trees(s2, st, fuel) is Some <==> run_trees(s, st, fuel) is Some) && (run_trees(
                    s,
                    st,
                    fuel,
                ) is Some ==> run_trees(s2, st, fuel)->Some_0.output == run_trees(s, st, fuel)->Some_0.output) by {
                assert(renamed_agree(st, st, m));
                lemma_run_renamed(s, m, st, st, fuel);
            }
        }
    }
}

} // verus!

verus! {

/// The text of what is known of a cell: `?`, its value, or its change with a sign.
pub open spec fn cell_text(c: CellAnalysis) -> Seq<char> {
    match c {
        CellAnalysis::Unknown => seq!['?'],
        CellAnalysis::Absolute(x) => decimal(x as nat),
        CellAnalysis::Relative(x) => if x >= 0 {
            seq!['+'] + decimal(x as nat)
        } else {
            signed_decimal(x as int)
        },
    }
}

/// The text of the first `n` cells of a tape: each as its number, a colon, the cell and a tab.
pub open spec fn tape_text(tape: Seq<CellAnalysis>, n: nat) -> Seq<char>
    decreases n,
{
    if n == 0 {
        Seq::empty()
    } else {
        tape_text(tape, (n - 1) as nat) + decimal((n - 1) as nat) + seq![':'] + cell_text(tape[n - 1])
            + seq!['\t']
    }
}

impl CellAnalysis {
    /// The text of what is known of the cell: `?`, its value, or its change with a sign.
    pub fn to_string(&self) -> (r: String)
        ensures
            r@ == cell_text(*self),
    {
        match self {
            CellAnalysis::Unknown => {
                let mut r = String::new();
                string_push(&mut r, '?');
                assert(r@ =~= seq!['?']);
                r
            },
            CellAnalysis::Absolute(x) => decimal_text(*x as u16),
            CellAnalysis::Relative(x) => {
                if *x >= 0 {
                    let mut r = String::new();
                    string_push(&mut r, '+');
                    let digits = decimal_text(*x as u16);
                    append_text(&mut r, digits.as_str());
                    assert(r@ =~= seq!['+'] + decimal(*x as nat));
                    r
                } else {
                    signed_text(*x)
                }
            },
        }
    }
}

impl TapeAnalysis {
    /// The text of the first ten cells: each as its number, a colon, the cell and a tab.
    pub fn to_string(&self) -> (r: String)
        requires
            self.wf(),
        ensures
            r@ == tape_text(self.tape@, 10),
    {
        let mut r = String::new();
        let mut i: u16 = 0;
        while i < 10
            invariant
                i <= 10,
                self.wf(),
                r@ == tape_text(self.tape@, i as nat),
            decreases 10 - i,
        {
            let number = decimal_text(i);
            append_text(&mut r, number.as_str());
            string_push(&mut r, ':');
            let cell = self.get(i).to_string();
            append_text(&mut r, cell.as_str());
            string_push(&mut r, '\t');
            i = i + 1;
            assert(r@ =~= tape_text(self.tape@, i as nat));
        }
        r
    }
}

} // verus!
