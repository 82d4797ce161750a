use vstd::prelude::*;

use crate::abf::abf_ast::{seq_used, SpecABF};
use crate::abf::abf_semantics::{
    cell, lemma_run_append, lemma_run_push, lemma_run_seq_frame, lemma_wrap_add_twice, run_instr, run_seq, wrap_add, AbfState,
};

verus! {

/// The code that declares the variables numbered from `start` on with the bytes of `data`, in
/// order.
#[verifier::opaque]
pub open spec fn declarations(start: u16, data: Seq<u8>) -> Seq<SpecABF> {
    Seq::new(data.len(), |i: int| SpecABF::New((start + i) as u16, data[i]))
}

/// The `n` variable numbers from `start` on.
#[verifier::opaque]
pub open spec fn numbered_from(start: u16, n: nat) -> Seq<u16> {
    Seq::new(n, |i: int| (start + i) as u16)
}

/// `n` zero bytes.
#[verifier::opaque]
pub open spec fn zeros(n: nat) -> Seq<u8> {
    Seq::new(n, |i: int| 0u8)
}

/// The loop that counts the variable down to zero.
pub open spec fn clear_code(a: u16) -> SpecABF {
    SpecABF::While(a, seq![SpecABF::Add(a, -1i8)])
}

/// The loops that clear each of the variables.
#[verifier::opaque]
pub open spec fn clear_all_code(addresses: Seq<u16>) -> Seq<SpecABF> {
    Seq::new(addresses.len(), |i: int| clear_code(addresses[i]))
}

/// The code that prints each of the variables.
#[verifier::opaque]
pub open spec fn write_all_code(addresses: Seq<u16>) -> Seq<SpecABF> {
    Seq::new(addresses.len(), |i: int| SpecABF::Write(addresses[i]))
}

/// The variables at place `i` of each value.
pub open spec fn column(values: Seq<Seq<u16>>, i: int) -> Seq<u16> {
    Seq::new(values.len(), |k: int| values[k][i])
}

/// The code that counts up each of the variables by one.
pub open spec fn adds(addresses: Seq<u16>) -> Seq<SpecABF> {
    Seq::new(addresses.len(), |k: int| SpecABF::Add(addresses[k], 1i8))
}

/// The loop that counts `source` down to zero and counts up each destination as many times.
pub open spec fn move_loop(source: u16, destinations: Seq<u16>) -> SpecABF {
    SpecABF::While(source, seq![SpecABF::Add(source, -1i8)] + adds(destinations))
}

/// For each variable of `source`, a loop that counts it down to zero and counts up, each time,
/// the variable at the same place of each destination.
#[verifier::opaque]
pub open spec fn move_code(source: Seq<u16>, destinations: Seq<Seq<u16>>) -> Seq<SpecABF> {
    Seq::new(source.len(), |i: int| move_loop(source[i], column(destinations, i)))
}

/// The code that gives `source` variables of its own, the `n` numbered from `start` on: they
/// are declared at zero and `source` is copied into them through `n` more after them.
#[verifier::opaque]
pub open spec fn owned_copy_code(source: Seq<u16>, start: u16, n: nat) -> Seq<SpecABF> {
    declarations(start, zeros(n)) + copy_code(source, seq![numbered_from(start, n)], (start + n) as u16, n)
}

/// The code that sets `destination` to `source`: `destination` is cleared, then `source` is
/// moved into it where `source` is owned, or copied through `n` new variables numbered from
/// `temp` on otherwise.
#[verifier::opaque]
pub open spec fn assign_code(destination: Seq<u16>, source: Seq<u16>, source_owned: bool, temp: u16, n: nat) -> Seq<SpecABF> {
    clear_all_code(destination) + if source_owned {
        move_code(source, seq![destination])
    } else {
        copy_code(source, seq![destination], temp, n)
    }
}

/// The code that adds `value` to itself: a new variable numbered `temp` is declared at zero,
/// `value` is copied into it through `n` more after it, and it is moved back into `value`.
#[verifier::opaque]
pub open spec fn doubling_code(value: Seq<u16>, temp: u16, n: nat) -> Seq<SpecABF> {
    declarations(temp, seq![0u8]) + copy_code(value, seq![seq![temp]], (temp + 1) as u16, n) + move_code(seq![temp], seq![value])
}

/// The code that runs `body` as many times as the variable `count` says: an owned count is
/// counted down to zero; a borrowed one is counted down into a new variable numbered `temp`,
/// which gives it back its value afterwards.
#[verifier::opaque]
pub open spec fn repeat_code(count: u16, owned: bool, temp: u16, body: Seq<SpecABF>) -> Seq<SpecABF> {
    if owned {
        seq![SpecABF::While(count, seq![SpecABF::Add(count, -1i8)] + body)]
    } else {
        seq![
            SpecABF::New(temp, 0u8),
            SpecABF::While(count, seq![SpecABF::Add(count, -1i8), SpecABF::Add(temp, 1i8)] + body),
            move_loop(temp, seq![count]),
        ]
    }
}

/// The code that prints the bytes, each from a new variable of its own, numbered from `start`
/// on.
#[verifier::opaque]
pub open spec fn print_code(start: u16, text: Seq<u8>) -> Seq<SpecABF>
    decreases text.len(),
{
    if text.len() == 0 {
        Seq::empty()
    } else {
        let a = (start + text.len() - 1) as u16;
        print_code(start, text.drop_last()) + seq![SpecABF::New(a, text.last()), SpecABF::Write(a)]
    }
}

/// The bytes of ASCII text.
pub open spec fn ascii_bytes(text: Seq<char>) -> Seq<u8> {
    Seq::new(text.len(), |i: int| text[i] as u8)
}

/// The variables that hold the condition of an `if` with an `else` whose flag is numbered
/// `flag`: the condition's own where it is owned, otherwise the `n` after the flag that copy it.
pub open spec fn branch_check(flag: u16, condition: Seq<u16>, owned: bool, n: nat) -> Seq<u16> {
    if owned {
        condition
    } else {
        numbered_from((flag + 1) as u16, n)
    }
}

/// The code that opens an `if` with an `else`: its flag, numbered `flag` and declared at one,
/// and, for a borrowed condition, the copy of it.
#[verifier::opaque]
pub open spec fn branch_setup(flag: u16, condition: Seq<u16>, owned: bool, n: nat) -> Seq<SpecABF> {
    seq![SpecABF::New(flag, 1u8)] + if owned {
        Seq::<SpecABF>::empty()
    } else {
        owned_copy_code(condition, (flag + 1) as u16, n)
    }
}

/// The two loops of an `if` with an `else`: the first runs `then_body` where the condition is
/// true, then clears the flag and the condition; the second runs `else_body` where the flag is
/// still set, then clears it.
#[verifier::opaque]
pub open spec fn branches(flag: u16, check: Seq<u16>, then_body: Seq<SpecABF>, else_body: Seq<SpecABF>) -> Seq<SpecABF> {
    seq![
        SpecABF::While(check[0], then_body.push(SpecABF::Add(flag, -1i8)) + clear_all_code(check)),
        SpecABF::While(flag, else_body.push(SpecABF::Add(flag, -1i8))),
    ]
}

/// Each destination has as many variables as the source.
pub open spec fn sizes_match(source: Seq<u16>, destinations: Seq<Seq<u16>>) -> bool {
    forall|k: int| 0 <= k < destinations.len() ==> #[trigger] destinations[k].len() == source.len()
}

/// Some destination holds, at some place, the variable that the source holds there.
pub open spec fn overlapping(source: Seq<u16>, destinations: Seq<Seq<u16>>) -> bool {
    exists|i: int, k: int| 0 <= i < source.len() && 0 <= k < destinations.len() && #[trigger] destinations[k][i] == source[i]
}

/// The code that adds `source` to each destination and gives `source` back its value, through
/// `n` new variables numbered from `temp` on: `source` is moved into them and into the
/// destinations, then they are moved back into `source`.
#[verifier::opaque]
pub open spec fn copy_code(source: Seq<u16>, destinations: Seq<Seq<u16>>, temp: u16, n: nat) -> Seq<SpecABF> {
    let t = numbered_from(temp, n);
    declarations(temp, zeros(n)) + move_code(source, seq![t] + destinations) + move_code(t, seq![source])
}


/// Counting up distinct variables by one each: each of them is one more, wrapping, and nothing
/// else changes.
pub proof fn lemma_run_adds(ds: Seq<u16>, st: AbfState, fuel: nat)
    requires
        ds.no_duplicates(),
    ensures
        run_seq(adds(ds), st, fuel) matches Some(after) && after.input == st.input && after.output == st.output
            && (forall|a: u16| #[trigger] ds.contains(a) ==> cell(after.cells, a) == wrap_add(cell(st.cells, a), 1))
            && (forall|a: u16| !ds.contains(a) ==> #[trigger] cell(after.cells, a) == cell(st.cells, a)),
    decreases ds.len(),
{
    reveal(declarations);
    reveal(numbered_from);
    reveal(zeros);
    reveal(clear_all_code);
    reveal(write_all_code);
    reveal(move_code);
    reveal(owned_copy_code);
    reveal(assign_code);
    reveal(doubling_code);
    reveal(repeat_code);
    reveal(copy_code);
    reveal(branch_setup);
    reveal(branches);
    if ds.len() > 0 {
        let prev = ds.drop_last();
        let x = ds.last();
        assert(adds(ds) =~= adds(prev).push(SpecABF::Add(x, 1i8)));
        lemma_run_push(adds(prev), SpecABF::Add(x, 1i8), st, fuel);
        assert(prev.no_duplicates()) by {
            assert forall|i: int, j: int| 0 <= i < prev.len() && 0 <= j < prev.len() && i != j implies prev[i] != prev[j] by {
                assert(prev[i] == ds[i] && prev[j] == ds[j]);
            }
        }
        lemma_run_adds(prev, st, fuel);
        let mid = run_seq(adds(prev), st, fuel)->Some_0;
        assert(!prev.contains(x)) by {
            if prev.contains(x) {
                let j = choose|j: int| 0 <= j < prev.len() && prev[j] == x;
                assert(ds[j] == ds[ds.len() - 1]);
            }
        }
        let after = run_seq(adds(ds), st, fuel)->Some_0;
        assert(ds.contains(x)) by {
            assert(ds[ds.len() - 1] == x);
        }
        assert forall|a: u16| #[trigger] ds.contains(a) implies cell(after.cells, a) == wrap_add(cell(st.cells, a), 1) by {
            if a != x {
                let j = choose|j: int| 0 <= j < ds.len() && ds[j] == a;
                assert(prev[j] == a);
                assert(prev.contains(a));
            }
        }
        assert(after.cells == mid.cells.insert(x, wrap_add(cell(mid.cells, x), 1)));
        assert forall|a: u16| !ds.contains(a) implies #[trigger] cell(after.cells, a) == cell(st.cells, a) by {
            assert(a != x);
            assert(cell(after.cells, a) == cell(mid.cells, a));
            if prev.contains(a) {
                let j = choose|j: int| 0 <= j < prev.len() && prev[j] == a;
                assert(ds[j] == a);
            }
        }
    }
}

/// Running the loop that moves `source` into distinct destinations, with enough rounds:
/// `source` ends at zero, each destination has gained the value `source` had, wrapping, and
/// nothing else changes.
pub proof fn lemma_run_move_loop(source: u16, ds: Seq<u16>, st: AbfState, fuel: nat)
    requires
        ds.no_duplicates(),
        !ds.contains(source),
        fuel >= cell(st.cells, source),
    ensures
        run_instr(move_loop(source, ds), st, fuel) matches Some(after) && after.input == st.input
            && after.output == st.output && cell(after.cells, source) == 0
            && (forall|a: u16| #[trigger] ds.contains(a) ==> cell(after.cells, a) == wrap_add(cell(st.cells, a), cell(st.cells, source) as int))
            && (forall|a: u16| a != source && !ds.contains(a) ==> #[trigger] cell(after.cells, a) == cell(st.cells, a)),
    decreases cell(st.cells, source),
{
    reveal(declarations);
    reveal(numbered_from);
    reveal(zeros);
    reveal(clear_all_code);
    reveal(write_all_code);
    reveal(move_code);
    reveal(owned_copy_code);
    reveal(assign_code);
    reveal(doubling_code);
    reveal(repeat_code);
    reveal(copy_code);
    reveal(branch_setup);
    reveal(branches);
    let c = cell(st.cells, source);
    let down = seq![SpecABF::Add(source, -1i8)];
    if c == 0 {
        assert forall|a: u16| #[trigger] ds.contains(a) implies cell(st.cells, a) == wrap_add(cell(st.cells, a), c as int) by {
            lemma_wrap_add_twice(cell(st.cells, a), 0, 0);
        }
    } else {
        let f = (fuel - 1) as nat;
        lemma_run_append(down, adds(ds), st, f);
        lemma_run_push(Seq::<SpecABF>::empty(), SpecABF::Add(source, -1i8), st, f);
        assert(Seq::<SpecABF>::empty().push(SpecABF::Add(source, -1i8)) =~= down);
        let st1 = run_instr(SpecABF::Add(source, -1i8), st, f)->Some_0;
        assert(cell(st1.cells, source) == c - 1);
        lemma_run_adds(ds, st1, f);
        let st2 = run_seq(adds(ds), st1, f)->Some_0;
        assert(cell(st2.cells, source) == c - 1);
        lemma_run_move_loop(source, ds, st2, f);
        let after = run_instr(move_loop(source, ds), st2, f)->Some_0;
        assert forall|a: u16| #[trigger] ds.contains(a) implies cell(after.cells, a) == wrap_add(cell(st.cells, a), c as int) by {
            assert(a != source);
            assert(cell(st1.cells, a) == cell(st.cells, a));
            lemma_wrap_add_twice(cell(st.cells, a), 1, c - 1);
        }
        assert forall|a: u16| a != source && !ds.contains(a) implies #[trigger] cell(after.cells, a) == cell(st.cells, a) by {
            assert(cell(st2.cells, a) == cell(st1.cells, a));
        }
    }
}

/// The variables of `source` are distinct, and each variable at a place of a destination is
/// distinct from every other such variable and from every variable of `source`.
pub open spec fn moves_apart(source: Seq<u16>, ds: Seq<Seq<u16>>) -> bool {
    &&& source.no_duplicates()
    &&& forall|i: int, j: int, k: int|
        #![trigger ds[k][i], source[j]]
        0 <= i < source.len() && 0 <= j < source.len() && 0 <= k < ds.len() ==> ds[k][i] != source[j]
    &&& forall|i: int, j: int, k: int, l: int|
        #![trigger ds[k][i], ds[l][j]]
        0 <= i < source.len() && 0 <= j < source.len() && 0 <= k < ds.len() && 0 <= l < ds.len() && (i != j || k != l)
            ==> ds[k][i] != ds[l][j]
}

/// The variable is the one of `source` at place `i`, or the one of a destination there.
pub open spec fn touches(source: Seq<u16>, ds: Seq<Seq<u16>>, i: int, a: u16) -> bool {
    source[i] == a || column(ds, i).contains(a)
}

/// Moving `source` into the destinations involves the variable.
pub open spec fn moved_by(source: Seq<u16>, ds: Seq<Seq<u16>>, a: u16) -> bool {
    exists|i: int| 0 <= i < source.len() && #[trigger] touches(source, ds, i, a)
}

/// Running the code that moves `source` into destinations all apart from it and from each
/// other, with enough rounds: every variable of `source` ends at zero, the variable at each place
/// of each destination has gained the value that `source` had there, wrapping, and nothing else
/// changes.
pub proof fn lemma_run_moves(source: Seq<u16>, ds: Seq<Seq<u16>>, st: AbfState, fuel: nat)
    requires
        forall|k: int| 0 <= k < ds.len() ==> #[trigger] ds[k].len() >= source.len(),
        moves_apart(source, ds),
        fuel >= 255,
    ensures
        run_seq(move_code(source, ds), st, fuel) matches Some(after) && after.input == st.input
            && after.output == st.output
            && (forall|i: int| 0 <= i < source.len() ==> cell(after.cells, #[trigger] source[i]) == 0)
            && (forall|i: int, k: int|
                0 <= i < source.len() && 0 <= k < ds.len() ==> cell(after.cells, #[trigger] ds[k][i]) == wrap_add(
                    cell(st.cells, ds[k][i]),
                    cell(st.cells, source[i]) as int,
                ))
            && (forall|a: u16| !moved_by(source, ds, a) ==> #[trigger] cell(after.cells, a) == cell(st.cells, a)),
    decreases source.len(),
{
    reveal(declarations);
    reveal(numbered_from);
    reveal(zeros);
    reveal(clear_all_code);
    reveal(write_all_code);
    reveal(move_code);
    reveal(owned_copy_code);
    reveal(assign_code);
    reveal(doubling_code);
    reveal(repeat_code);
    reveal(copy_code);
    reveal(branch_setup);
    reveal(branches);
    let n = source.len();
    if n == 0 {
        assert(move_code(source, ds) =~= Seq::<SpecABF>::empty());
    } else {
        let prev = source.drop_last();
        let x = source[n - 1];
        let col = column(ds, n - 1);
        assert(move_code(source, ds) =~= move_code(prev, ds).push(move_loop(x, col)));
        lemma_run_push(move_code(prev, ds), move_loop(x, col), st, fuel);
        assert(moves_apart(prev, ds)) by {
            assert forall|i: int, j: int| 0 <= i < prev.len() && 0 <= j < prev.len() && i != j implies prev[i] != prev[j] by {
                assert(prev[i] == source[i] && prev[j] == source[j]);
            }
            assert forall|i: int, j: int, k: int|
                #![trigger ds[k][i], prev[j]]
                0 <= i < prev.len() && 0 <= j < prev.len() && 0 <= k < ds.len() implies ds[k][i] != prev[j] by {
                assert(prev[j] == source[j]);
            }
        }
        lemma_run_moves(prev, ds, st, fuel);
        let mid = run_seq(move_code(prev, ds), st, fuel)->Some_0;
        assert(col.no_duplicates()) by {
            assert forall|k: int, l: int| 0 <= k < col.len() && 0 <= l < col.len() && k != l implies col[k] != col[l] by {
                assert(ds[k][n - 1] != ds[l][n - 1]);
            }
        }
        assert(!col.contains(x)) by {
            if col.contains(x) {
                let k = choose|k: int| 0 <= k < col.len() && col[k] == x;
                assert(ds[k][n - 1] != source[n - 1]);
            }
        }
        lemma_run_move_loop(x, col, mid, fuel);
        let after = run_instr(move_loop(x, col), mid, fuel)->Some_0;
        // what `prev` did not touch kept its value until the last loop
        assert(!moved_by(prev, ds, x)) by {
            if moved_by(prev, ds, x) {
                let i = choose|i: int| 0 <= i < prev.len() && #[trigger] touches(prev, ds, i, x);
                if prev[i] == x {
                    assert(source[i] == source[n - 1]);
                } else {
                    let k = choose|k: int| 0 <= k < column(ds, i).len() && column(ds, i)[k] == x;
                    assert(ds[k][i] != source[n - 1]);
                }
            }
        }
        assert forall|k: int| 0 <= k < col.len() implies !moved_by(prev, ds, #[trigger] col[k]) by {
            if moved_by(prev, ds, col[k]) {
                let i = choose|i: int| 0 <= i < prev.len() && #[trigger] touches(prev, ds, i, col[k]);
                if prev[i] == col[k] {
                    assert(ds[k][n - 1] != source[i]);
                } else {
                    let l = choose|l: int| 0 <= l < column(ds, i).len() && column(ds, i)[l] == col[k];
                    assert(ds[l][i] != ds[k][n - 1]);
                }
            }
        }
        assert forall|i: int| 0 <= i < source.len() implies cell(after.cells, #[trigger] source[i]) == 0 by {
            if i < n - 1 {
                assert(source[i] != x);
                assert(prev[i] == source[i]);
                if col.contains(source[i]) {
                    let k = choose|k: int| 0 <= k < col.len() && col[k] == source[i];
                    assert(ds[k][n - 1] != source[i]);
                }
            }
        }
        assert forall|i: int, k: int| 0 <= i < source.len() && 0 <= k < ds.len() implies cell(after.cells, #[trigger] ds[k][i])
            == wrap_add(cell(st.cells, ds[k][i]), cell(st.cells, source[i]) as int) by {
            if i < n - 1 {
                assert(prev[i] == source[i]);
                assert(ds[k][i] != x);
                if col.contains(ds[k][i]) {
                    let l = choose|l: int| 0 <= l < col.len() && col[l] == ds[k][i];
                    assert(ds[l][n - 1] != ds[k][i]);
                }
            } else {
                assert(col[k] == ds[k][i]);
                assert(col.contains(col[k]));
                assert(!moved_by(prev, ds, col[k]));
            }
        }
        assert forall|a: u16| !moved_by(source, ds, a) implies #[trigger] cell(after.cells, a) == cell(st.cells, a) by {
            assert(!touches(source, ds, n - 1, a));
            assert(a != x);
            if moved_by(prev, ds, a) {
                let i = choose|i: int| 0 <= i < prev.len() && #[trigger] touches(prev, ds, i, a);
                assert(prev[i] == source[i]);
                assert(column(ds, i) == column(ds, i));
                assert(touches(source, ds, i, a));
            }
        }
    }
}

/// Running the declarations from `start` on: the variable at each place holds the byte there,
/// and nothing else changes.
pub proof fn lemma_run_declarations(start: u16, data: Seq<u8>, st: AbfState, fuel: nat)
    requires
        start + data.len() <= 65536,
    ensures
        run_seq(declarations(start, data), st, fuel) matches Some(after) && after.input == st.input
            && after.output == st.output
            && (forall|j: int| 0 <= j < data.len() ==> #[trigger] cell(after.cells, (start + j) as u16) == data[j])
            && (forall|a: u16| !(start <= a < start + data.len()) ==> #[trigger] cell(after.cells, a) == cell(st.cells, a)),
    decreases data.len(),
{
    reveal(declarations);
    reveal(numbered_from);
    reveal(zeros);
    reveal(clear_all_code);
    reveal(write_all_code);
    reveal(move_code);
    reveal(owned_copy_code);
    reveal(assign_code);
    reveal(doubling_code);
    reveal(repeat_code);
    reveal(copy_code);
    reveal(branch_setup);
    reveal(branches);
    let n = data.len();
    if n == 0 {
        assert(declarations(start, data) =~= Seq::<SpecABF>::empty());
    } else {
        let prev = data.drop_last();
        let x = SpecABF::New((start + (n - 1)) as u16, data[n - 1]);
        assert(declarations(start, data) =~= declarations(start, prev).push(x));
        lemma_run_push(declarations(start, prev), x, st, fuel);
        lemma_run_declarations(start, prev, st, fuel);
        let mid = run_seq(declarations(start, prev), st, fuel)->Some_0;
        let after = run_instr(x, mid, fuel)->Some_0;
        assert forall|j: int| 0 <= j < data.len() implies #[trigger] cell(after.cells, (start + j) as u16) == data[j] by {
            if j < n - 1 {
                assert(cell(mid.cells, (start + j) as u16) == prev[j]);
            }
        }
        assert forall|a: u16| !(start <= a < start + data.len()) implies #[trigger] cell(after.cells, a) == cell(st.cells, a) by {
            assert(a != (start + (n - 1)) as u16);
            assert(cell(after.cells, a) == cell(mid.cells, a));
        }
    }
}

/// The conditions under which copying `source` into the destinations through the `n` new
/// variables numbered from `temp` on touches each variable for one purpose only: `source` has
/// `n` variables, the destinations are apart from it and from each other, and all of them come
/// before `temp`.
pub open spec fn copy_apart(source: Seq<u16>, ds: Seq<Seq<u16>>, temp: u16, n: nat) -> bool {
    &&& source.len() == n
    &&& temp + n <= 65536
    &&& sizes_match(source, ds)
    &&& moves_apart(source, ds)
    &&& forall|i: int| 0 <= i < n ==> #[trigger] source[i] < temp
    &&& forall|i: int, k: int| 0 <= i < n && 0 <= k < ds.len() ==> #[trigger] ds[k][i] < temp
}

/// Running the code that copies `source` into the destinations through new variables: `source`
/// keeps its value, the variable at each place of each destination has gained the value that
/// `source` has there, wrapping, the new variables end at zero, and nothing else changes.
pub proof fn lemma_run_copy(source: Seq<u16>, ds: Seq<Seq<u16>>, temp: u16, n: nat, st: AbfState, fuel: nat)
    requires
        copy_apart(source, ds, temp, n),
        fuel >= 255,
    ensures
        run_seq(copy_code(source, ds, temp, n), st, fuel) matches Some(after) && after.input == st.input
            && after.output == st.output
            && (forall|i: int| 0 <= i < n ==> cell(after.cells, #[trigger] source[i]) == cell(st.cells, source[i]))
            && (forall|i: int, k: int|
                0 <= i < n && 0 <= k < ds.len() ==> cell(after.cells, #[trigger] ds[k][i]) == wrap_add(
                    cell(st.cells, ds[k][i]),
                    cell(st.cells, source[i]) as int,
                ))
            && (forall|j: int| 0 <= j < n ==> #[trigger] cell(after.cells, (temp + j) as u16) == 0)
            && (forall|a: u16| !moved_by(source, ds, a) && !(temp <= a < temp + n) ==> #[trigger] cell(after.cells, a) == cell(st.cells, a)),
{
    reveal(declarations);
    reveal(numbered_from);
    reveal(zeros);
    reveal(clear_all_code);
    reveal(write_all_code);
    reveal(move_code);
    reveal(owned_copy_code);
    reveal(assign_code);
    reveal(doubling_code);
    reveal(repeat_code);
    reveal(copy_code);
    reveal(branch_setup);
    reveal(branches);
    let t = numbered_from(temp, n);
    let decl = declarations(temp, zeros(n));
    let first = move_code(source, seq![t] + ds);
    let second = move_code(t, seq![source]);
    assert(copy_code(source, ds, temp, n) == decl + first + second);
    lemma_run_append(decl + first, second, st, fuel);
    lemma_run_append(decl, first, st, fuel);
    lemma_run_declarations(temp, zeros(n), st, fuel);
    let st1 = run_seq(decl, st, fuel)->Some_0;
    let nd = seq![t] + ds;
    assert(nd[0] == t);
    assert(forall|k: int| 0 <= k < ds.len() ==> #[trigger] nd[k + 1] == ds[k]);
    assert forall|k: int| 0 <= k < nd.len() implies #[trigger] nd[k].len() >= source.len() by {
        if k > 0 {
            assert(nd[(k - 1) + 1] == ds[k - 1]);
        }
    }
    assert(moves_apart(source, nd)) by {
        assert forall|i: int, j: int, k: int|
            #![trigger nd[k][i], source[j]]
            0 <= i < source.len() && 0 <= j < source.len() && 0 <= k < nd.len() implies nd[k][i] != source[j] by {
            if k > 0 {
                assert(nd[(k - 1) + 1] == ds[k - 1]);
            }
        }
        assert forall|i: int, j: int, k: int, l: int|
            #![trigger nd[k][i], nd[l][j]]
            0 <= i < source.len() && 0 <= j < source.len() && 0 <= k < nd.len() && 0 <= l < nd.len() && (i != j || k != l)
                implies nd[k][i] != nd[l][j] by {
            if k > 0 {
                assert(nd[(k - 1) + 1] == ds[k - 1]);
            }
            if l > 0 {
                assert(nd[(l - 1) + 1] == ds[l - 1]);
            }
        }
    }
    lemma_run_moves(source, nd, st1, fuel);
    let st2 = run_seq(first, st1, fuel)->Some_0;
    let back = seq![source];
    assert(back[0] == source);
    assert(moves_apart(t, back)) by {
        assert forall|i: int, j: int| 0 <= i < t.len() && 0 <= j < t.len() && i != j implies t[i] != t[j] by {}
    }
    lemma_run_moves(t, back, st2, fuel);
    let after = run_seq(second, st2, fuel)->Some_0;
    // where each variable stands in the three steps
    assert forall|i: int| 0 <= i < n implies cell(after.cells, #[trigger] source[i]) == cell(st.cells, source[i]) by {
        assert(back[0][i] == source[i]);
        assert(cell(st1.cells, source[i]) == cell(st.cells, source[i]));
        assert(cell(st2.cells, t[i]) == wrap_add(cell(st1.cells, nd[0][i]), cell(st1.cells, source[i]) as int));
        assert(cell(st1.cells, (temp + i) as u16) == zeros(n)[i]);
        lemma_wrap_add_twice(0, cell(st.cells, source[i]) as int, 0);
        lemma_wrap_add_twice(0, cell(st2.cells, t[i]) as int, 0);
        assert(cell(st2.cells, source[i]) == 0);
    }
    assert forall|i: int, k: int| 0 <= i < n && 0 <= k < ds.len() implies cell(after.cells, #[trigger] ds[k][i]) == wrap_add(
        cell(st.cells, ds[k][i]),
        cell(st.cells, source[i]) as int,
    ) by {
        assert(nd[k + 1][i] == ds[k][i]);
        assert(cell(st1.cells, ds[k][i]) == cell(st.cells, ds[k][i]));
        assert(cell(st1.cells, source[i]) == cell(st.cells, source[i]));
        assert(!moved_by(t, back, ds[k][i])) by {
            if moved_by(t, back, ds[k][i]) {
                let j = choose|j: int| 0 <= j < t.len() && #[trigger] touches(t, back, j, ds[k][i]);
                if !(t[j] == ds[k][i]) {
                    let l = choose|l: int| 0 <= l < column(back, j).len() && column(back, j)[l] == ds[k][i];
                    assert(back[l][j] == source[j]);
                    assert(ds[k][i] != source[j]);
                }
            }
        }
    }
    assert forall|j: int| 0 <= j < n implies #[trigger] cell(after.cells, (temp + j) as u16) == 0 by {
        assert(t[j] == (temp + j) as u16);
    }
    assert forall|a: u16| !moved_by(source, ds, a) && !(temp <= a < temp + n) implies #[trigger] cell(after.cells, a) == cell(
        st.cells,
        a,
    ) by {
        assert(!moved_by(source, nd, a)) by {
            if moved_by(source, nd, a) {
                let i = choose|i: int| 0 <= i < source.len() && #[trigger] touches(source, nd, i, a);
                if source[i] != a {
                    let k = choose|k: int| 0 <= k < column(nd, i).len() && column(nd, i)[k] == a;
                    if k == 0 {
                        assert(t[i] == a);
                    } else {
                        assert(nd[(k - 1) + 1] == ds[k - 1]);
                        assert(column(ds, i)[k - 1] == a);
                        assert(touches(source, ds, i, a));
                    }
                } else {
                    assert(touches(source, ds, i, a));
                }
            }
        }
        assert(!moved_by(t, back, a)) by {
            if moved_by(t, back, a) {
                let j = choose|j: int| 0 <= j < t.len() && #[trigger] touches(t, back, j, a);
                if t[j] != a {
                    let l = choose|l: int| 0 <= l < column(back, j).len() && column(back, j)[l] == a;
                    assert(back[l][j] == source[j]);
                    assert(touches(source, ds, j, a));
                }
            }
        }
    }
}

/// Running the loops that clear distinct variables: each of them ends at zero, and nothing else
/// changes.
pub proof fn lemma_run_clears(addresses: Seq<u16>, st: AbfState, fuel: nat)
    requires
        addresses.no_duplicates(),
        fuel >= 255,
    ensures
        run_seq(clear_all_code(addresses), st, fuel) matches Some(after) && after.input == st.input
            && after.output == st.output
            && (forall|i: int| 0 <= i < addresses.len() ==> cell(after.cells, #[trigger] addresses[i]) == 0)
            && (forall|a: u16| !addresses.contains(a) ==> #[trigger] cell(after.cells, a) == cell(st.cells, a)),
{
    reveal(declarations);
    reveal(numbered_from);
    reveal(zeros);
    reveal(clear_all_code);
    reveal(write_all_code);
    reveal(move_code);
    reveal(owned_copy_code);
    reveal(assign_code);
    reveal(doubling_code);
    reveal(repeat_code);
    reveal(copy_code);
    reveal(branch_setup);
    reveal(branches);
    let none = Seq::<Seq<u16>>::empty();
    assert forall|i: int| 0 <= i < addresses.len() implies #[trigger] clear_all_code(addresses)[i] == move_code(addresses, none)[i] by {
        assert(seq![SpecABF::Add(addresses[i], -1i8)] + adds(column(none, i)) =~= seq![SpecABF::Add(addresses[i], -1i8)]);
    }
    assert(clear_all_code(addresses) =~= move_code(addresses, none));
    lemma_run_moves(addresses, none, st, fuel);
    let after = run_seq(clear_all_code(addresses), st, fuel)->Some_0;
    assert forall|a: u16| !addresses.contains(a) implies #[trigger] cell(after.cells, a) == cell(st.cells, a) by {
        if moved_by(addresses, none, a) {
            let i = choose|i: int| 0 <= i < addresses.len() && #[trigger] touches(addresses, none, i, a);
            assert(addresses[i] == a);
        }
    }
}

/// The values of the variables, in order.
pub open spec fn cells_of(cells: Map<u16, u8>, addresses: Seq<u16>) -> Seq<u8> {
    Seq::new(addresses.len(), |i: int| cell(cells, addresses[i]))
}

/// Running the code that prints the variables: their values are printed in order, and nothing
/// else changes.
pub proof fn lemma_run_writes(addresses: Seq<u16>, st: AbfState, fuel: nat)
    ensures
        run_seq(write_all_code(addresses), st, fuel) == Some(
            AbfState { output: st.output + cells_of(st.cells, addresses), ..st },
        ),
    decreases addresses.len(),
{
    reveal(declarations);
    reveal(numbered_from);
    reveal(zeros);
    reveal(clear_all_code);
    reveal(write_all_code);
    reveal(move_code);
    reveal(owned_copy_code);
    reveal(assign_code);
    reveal(doubling_code);
    reveal(repeat_code);
    reveal(copy_code);
    reveal(branch_setup);
    reveal(branches);
    let n = addresses.len();
    if n == 0 {
        assert(write_all_code(addresses) =~= Seq::<SpecABF>::empty());
        assert(st.output + cells_of(st.cells, addresses) =~= st.output);
    } else {
        let prev = addresses.drop_last();
        assert(write_all_code(addresses) =~= write_all_code(prev).push(SpecABF::Write(addresses[n - 1])));
        lemma_run_push(write_all_code(prev), SpecABF::Write(addresses[n - 1]), st, fuel);
        lemma_run_writes(prev, st, fuel);
        assert(st.output + cells_of(st.cells, addresses) =~= (st.output + cells_of(st.cells, prev)).push(
            cell(st.cells, addresses[n - 1]),
        ));
    }
}

/// Running the code that sets `destination` to `source`, where the two are apart and, for a
/// copy, the new variables come after both: each variable of `destination` ends with the value
/// that `source` had at its place, `source` keeps its values where it is copied and ends at
/// zero where it is moved, the new variables end at zero, and nothing else changes.
pub proof fn lemma_run_assign(
    destination: Seq<u16>,
    source: Seq<u16>,
    source_owned: bool,
    temp: u16,
    n: nat,
    st: AbfState,
    fuel: nat,
)
    requires
        destination.len() == source.len(),
        moves_apart(source, seq![destination]),
        !source_owned ==> copy_apart(source, seq![destination], temp, n),
        fuel >= 255,
    ensures
        run_seq(assign_code(destination, source, source_owned, temp, n), st, fuel) matches Some(after)
            && after.input == st.input && after.output == st.output
            && (forall|i: int| 0 <= i < destination.len() ==> cell(after.cells, #[trigger] destination[i]) == cell(st.cells, source[i]))
            && (forall|i: int|
                0 <= i < source.len() ==> cell(after.cells, #[trigger] source[i]) == if source_owned {
                    0
                } else {
                    cell(st.cells, source[i])
                })
            && (!source_owned ==> forall|j: int| 0 <= j < n ==> #[trigger] cell(after.cells, (temp + j) as u16) == 0)
            && (forall|a: u16|
                !destination.contains(a) && !source.contains(a) && (!source_owned ==> !(temp <= a < temp + n)) ==> #[trigger] cell(
                    after.cells,
                    a,
                ) == cell(st.cells, a)),
{
    reveal(declarations);
    reveal(numbered_from);
    reveal(zeros);
    reveal(clear_all_code);
    reveal(write_all_code);
    reveal(move_code);
    reveal(owned_copy_code);
    reveal(assign_code);
    reveal(doubling_code);
    reveal(repeat_code);
    reveal(copy_code);
    reveal(branch_setup);
    reveal(branches);
    let ds = seq![destination];
    assert(ds[0] == destination);
    let rest = if source_owned {
        move_code(source, ds)
    } else {
        copy_code(source, ds, temp, n)
    };
    lemma_run_append(clear_all_code(destination), rest, st, fuel);
    assert(destination.no_duplicates()) by {
        assert forall|i: int, j: int| 0 <= i < destination.len() && 0 <= j < destination.len() && i != j implies destination[i]
            != destination[j] by {
            assert(ds[0][i] != ds[0][j]);
        }
    }
    lemma_run_clears(destination, st, fuel);
    let st1 = run_seq(clear_all_code(destination), st, fuel)->Some_0;
    assert forall|i: int| 0 <= i < source.len() implies cell(st1.cells, #[trigger] source[i]) == cell(st.cells, source[i]) by {
        if destination.contains(source[i]) {
            let j = choose|j: int| 0 <= j < destination.len() && destination[j] == source[i];
            assert(ds[0][j] != source[i]);
        }
    }
    assert forall|k: int| 0 <= k < ds.len() implies #[trigger] ds[k].len() >= source.len() by {}
    if source_owned {
        lemma_run_moves(source, ds, st1, fuel);
    } else {
        lemma_run_copy(source, ds, temp, n, st1, fuel);
    }
    let after = run_seq(rest, st1, fuel)->Some_0;
    assert forall|i: int| 0 <= i < destination.len() implies cell(after.cells, #[trigger] destination[i]) == cell(st.cells, source[i]) by {
        assert(ds[0][i] == destination[i]);
        assert(cell(st1.cells, destination[i]) == 0);
        lemma_wrap_add_twice(0, cell(st.cells, source[i]) as int, 0);
    }
    assert forall|a: u16|
        !destination.contains(a) && !source.contains(a) && (!source_owned ==> !(temp <= a < temp + n)) implies #[trigger] cell(
            after.cells,
            a,
        ) == cell(st.cells, a) by {
        if moved_by(source, ds, a) {
            let i = choose|i: int| 0 <= i < source.len() && #[trigger] touches(source, ds, i, a);
            if source[i] == a {
                assert(source.contains(a));
            } else {
                let k = choose|k: int| 0 <= k < column(ds, i).len() && column(ds, i)[k] == a;
                assert(column(ds, i)[k] == ds[k][i]);
                assert(destination.contains(a));
            }
        }
    }
}

/// Running the code that gives `source` variables of its own, numbered from `start` on after
/// every variable of `source`: each new variable ends with the value that `source` has at its
/// place, the variables used on the way end at zero, and nothing else changes.
pub proof fn lemma_run_owned_copy(source: Seq<u16>, start: u16, n: nat, st: AbfState, fuel: nat)
    requires
        source.len() == n,
        source.no_duplicates(),
        forall|i: int| 0 <= i < n ==> #[trigger] source[i] < start,
        start + 2 * n <= 65536,
        fuel >= 255,
    ensures
        run_seq(owned_copy_code(source, start, n), st, fuel) matches Some(after) && after.input == st.input
            && after.output == st.output
            && (forall|j: int| 0 <= j < n ==> #[trigger] cell(after.cells, (start + j) as u16) == cell(st.cells, source[j]))
            && (forall|j: int| 0 <= j < n ==> #[trigger] cell(after.cells, (start + n + j) as u16) == 0)
            && (forall|a: u16| !(start <= a < start + 2 * n) ==> #[trigger] cell(after.cells, a) == cell(st.cells, a)),
{
    reveal(declarations);
    reveal(numbered_from);
    reveal(zeros);
    reveal(clear_all_code);
    reveal(write_all_code);
    reveal(move_code);
    reveal(owned_copy_code);
    reveal(assign_code);
    reveal(doubling_code);
    reveal(repeat_code);
    reveal(copy_code);
    reveal(branch_setup);
    reveal(branches);
    let t = numbered_from(start, n);
    let ds = seq![t];
    let temp = (start + n) as u16;
    assert(ds[0] == t);
    lemma_run_append(declarations(start, zeros(n)), copy_code(source, ds, temp, n), st, fuel);
    lemma_run_declarations(start, zeros(n), st, fuel);
    let st1 = run_seq(declarations(start, zeros(n)), st, fuel)->Some_0;
    assert(moves_apart(source, ds)) by {
        assert forall|i: int, j: int, k: int|
            #![trigger ds[k][i], source[j]]
            0 <= i < source.len() && 0 <= j < source.len() && 0 <= k < ds.len() implies ds[k][i] != source[j] by {
            assert(ds[k] == t);
        }
        assert forall|i: int, j: int, k: int, l: int|
            #![trigger ds[k][i], ds[l][j]]
            0 <= i < source.len() && 0 <= j < source.len() && 0 <= k < ds.len() && 0 <= l < ds.len() && (i != j || k != l)
                implies ds[k][i] != ds[l][j] by {
            assert(ds[k] == t && ds[l] == t);
        }
    }
    assert(copy_apart(source, ds, temp, n)) by {
        assert forall|i: int, k: int| 0 <= i < n && 0 <= k < ds.len() implies #[trigger] ds[k][i] < temp by {
            assert(ds[k] == t);
        }
    }
    lemma_run_copy(source, ds, temp, n, st1, fuel);
    let after = run_seq(copy_code(source, ds, temp, n), st1, fuel)->Some_0;
    assert forall|j: int| 0 <= j < n implies #[trigger] cell(after.cells, (start + j) as u16) == cell(st.cells, source[j]) by {
        assert(ds[0][j] == (start + j) as u16);
        assert(cell(st1.cells, (start + j) as u16) == zeros(n)[j]);
        assert(cell(st1.cells, source[j]) == cell(st.cells, source[j]));
        lemma_wrap_add_twice(0, cell(st.cells, source[j]) as int, 0);
    }
    assert forall|j: int| 0 <= j < n implies #[trigger] cell(after.cells, (start + n + j) as u16) == 0 by {
        assert((start + n + j) as u16 == (temp + j) as u16);
    }
    assert forall|a: u16| !(start <= a < start + 2 * n) implies #[trigger] cell(after.cells, a) == cell(st.cells, a) by {
        if a < start {
            assert(cell(after.cells, a) == cell(st1.cells, a)) by {
                if moved_by(source, ds, a) {
                    let i = choose|i: int| 0 <= i < source.len() && #[trigger] touches(source, ds, i, a);
                    if source[i] != a {
                        let k = choose|k: int| 0 <= k < column(ds, i).len() && column(ds, i)[k] == a;
                        assert(ds[k][i] == t[i]);
                    }
                }
            }
        } else {
            assert(!moved_by(source, ds, a)) by {
                if moved_by(source, ds, a) {
                    let i = choose|i: int| 0 <= i < source.len() && #[trigger] touches(source, ds, i, a);
                    if source[i] != a {
                        let k = choose|k: int| 0 <= k < column(ds, i).len() && column(ds, i)[k] == a;
                        assert(ds[k][i] == t[i]);
                    }
                }
            }
        }
    }
}

/// Running the code that prints bytes prints them, in order, and reads nothing.
pub proof fn lemma_run_print(start: u16, text: Seq<u8>, st: AbfState, fuel: nat)
    requires
        start + text.len() <= 65536,
    ensures
        run_seq(print_code(start, text), st, fuel) matches Some(after) && after.input == st.input
            && after.output == st.output + text,
    decreases text.len(),
{
    reveal(print_code);
    if text.len() == 0 {
        assert(st.output + text =~= st.output);
    } else {
        let prev = text.drop_last();
        let a = (start + text.len() - 1) as u16;
        let pair = seq![SpecABF::New(a, text.last()), SpecABF::Write(a)];
        lemma_run_print(start, prev, st, fuel);
        lemma_run_append(print_code(start, prev), pair, st, fuel);
        let mid = run_seq(print_code(start, prev), st, fuel)->Some_0;
        lemma_run_push(seq![SpecABF::New(a, text.last())], SpecABF::Write(a), mid, fuel);
        assert(seq![SpecABF::New(a, text.last())].push(SpecABF::Write(a)) =~= pair);
        lemma_run_push(Seq::<SpecABF>::empty(), SpecABF::New(a, text.last()), mid, fuel);
        assert(Seq::<SpecABF>::empty().push(SpecABF::New(a, text.last())) =~= seq![SpecABF::New(a, text.last())]);
        assert(st.output + prev + seq![text.last()] =~= st.output + text);
    }
}

/// An `if` runs its body at most once: where the first variable of its condition is not zero,
/// the loop runs the body and then clears the condition, which ends it.
pub proof fn lemma_run_if(check: Seq<u16>, body: Seq<SpecABF>, st: AbfState, fuel: nat)
    requires
        check.len() > 0,
        check.no_duplicates(),
        fuel >= 256,
    ensures
        run_instr(SpecABF::While(check[0], body + clear_all_code(check)), st, fuel) == if cell(st.cells, check[0]) == 0 {
            Some(st)
        } else {
            run_seq(body + clear_all_code(check), st, (fuel - 1) as nat)
        },
{
    let f = (fuel - 1) as nat;
    let whole = body + clear_all_code(check);
    let w = SpecABF::While(check[0], whole);
    if cell(st.cells, check[0]) != 0 {
        assert(run_instr(w, st, fuel) == match run_seq(whole, st, f) {
            Some(next) => run_instr(w, next, f),
            None => None,
        });
        lemma_run_append(body, clear_all_code(check), st, f);
        if let Some(mid) = run_seq(body, st, f) {
            lemma_run_clears(check, mid, f);
            let after = run_seq(clear_all_code(check), mid, f)->Some_0;
            assert(cell(after.cells, check[0]) == 0);
            assert(run_seq(whole, st, f) == Some(after));
            assert(run_instr(w, after, f) == Some(after));
        }
    }
}

/// An `if` with an `else` runs exactly one of its branches: with the flag set and neither branch
/// mentioning it nor the condition mentioning it, the loops run `then_body` (then clear the flag
/// and the condition) where the condition's first variable is not zero, and `else_body` (then
/// clear the flag) where it is.
pub proof fn lemma_run_branches(
    flag: u16,
    check: Seq<u16>,
    then_body: Seq<SpecABF>,
    else_body: Seq<SpecABF>,
    st: AbfState,
    fuel: nat,
)
    requires
        cell(st.cells, flag) == 1,
        check.len() > 0,
        check.no_duplicates(),
        !check.contains(flag),
        !seq_used(then_body).contains(flag),
        !seq_used(else_body).contains(flag),
        fuel >= 256,
    ensures
        run_seq(branches(flag, check, then_body, else_body), st, fuel) == if cell(st.cells, check[0]) != 0 {
            run_seq(then_body.push(SpecABF::Add(flag, -1i8)) + clear_all_code(check), st, (fuel - 1) as nat)
        } else {
            run_seq(else_body.push(SpecABF::Add(flag, -1i8)), st, (fuel - 1) as nat)
        },
{
    reveal(branches);
    reveal(clear_all_code);
    let f = (fuel - 1) as nat;
    let first_body = then_body.push(SpecABF::Add(flag, -1i8));
    let second_body = else_body.push(SpecABF::Add(flag, -1i8));
    let first = SpecABF::While(check[0], first_body + clear_all_code(check));
    let second = SpecABF::While(flag, second_body);
    let code = branches(flag, check, then_body, else_body);
    assert(code == seq![first].push(second));
    lemma_run_push(seq![first], second, st, fuel);
    lemma_run_push(Seq::<SpecABF>::empty(), first, st, fuel);
    assert(Seq::<SpecABF>::empty().push(first) =~= seq![first]);
    lemma_run_if(check, first_body, st, fuel);
    if cell(st.cells, check[0]) != 0 {
        lemma_run_append(first_body, clear_all_code(check), st, f);
        if let Some(mid) = run_seq(first_body, st, f) {
            lemma_run_push(then_body, SpecABF::Add(flag, -1i8), st, f);
            let inner = run_seq(then_body, st, f)->Some_0;
            lemma_run_seq_frame(then_body, st, f, flag);
            assert(cell(mid.cells, flag) == 0);
            lemma_run_clears(check, mid, f);
            let after = run_seq(clear_all_code(check), mid, f)->Some_0;
            assert(cell(after.cells, flag) == 0);
            assert(run_instr(second, after, fuel) == Some(after));
        }
    } else {
        assert(run_seq(seq![first], st, fuel) == Some(st));
        assert(run_instr(second, st, fuel) == match run_seq(second_body, st, f) {
            Some(next) => run_instr(second, next, f),
            None => None,
        });
        lemma_run_push(else_body, SpecABF::Add(flag, -1i8), st, f);
        if let Some(next) = run_seq(second_body, st, f) {
            lemma_run_seq_frame(else_body, st, f, flag);
            assert(cell(next.cells, flag) == 0);
            assert(run_instr(second, next, f) == Some(next));
        }
    }
}

/// The code of an `and`: keeps `destination` where the bool in `value` is true and clears it
/// where it is false; an `if` with an `else`, with its flag numbered `flag`.
pub open spec fn and_code(flag: u16, destination: Seq<u16>, value: Seq<u16>, owned: bool) -> Seq<SpecABF> {
    branch_setup(flag, value, owned, 1) + branches(
        flag,
        branch_check(flag, value, owned, 1),
        Seq::<SpecABF>::empty(),
        clear_all_code(destination),
    )
}

/// Only the variable the loops clear is mentioned in them.
proof fn lemma_clear_one_used(d: u16)
    ensures
        clear_all_code(seq![d]) == seq![clear_code(d)],
        seq_used(clear_all_code(seq![d])) == set![d],
{
    reveal(clear_all_code);
    assert(clear_all_code(seq![d]) =~= seq![clear_code(d)]);
    let body = seq![SpecABF::Add(d, -1i8)];
    assert(body.drop_last() =~= Seq::<SpecABF>::empty());
    assert(body.last() == SpecABF::Add(d, -1i8));
    assert(seq_used(Seq::<SpecABF>::empty()) == Set::<u16>::empty());
    assert(crate::abf::abf_ast::used_set(SpecABF::Add(d, -1i8)) == set![d]);
    assert(seq_used(body) == seq_used(body.drop_last()) + crate::abf::abf_ast::used_set(body.last()));
    assert(seq_used(body) =~= set![d]);
    let w = seq![clear_code(d)];
    assert(w.drop_last() =~= Seq::<SpecABF>::empty());
    assert(w.last() == clear_code(d));
    assert(crate::abf::abf_ast::used_set(clear_code(d)) =~= set![d]);
    assert(seq_used(w) == seq_used(w.drop_last()) + crate::abf::abf_ast::used_set(w.last()));
    assert(seq_used(w) =~= set![d]);
}

/// Running the code of an `and` of two bools: the destination ends true exactly where both
/// were true (it keeps its value where the other is true, and ends at zero otherwise), and
/// nothing is read or printed.
pub proof fn lemma_run_and(flag: u16, d: u16, v: u16, owned: bool, st: AbfState, fuel: nat)
    requires
        d < flag,
        v < flag,
        d != v,
        flag < 65535,
        owned || flag + 3 <= 65536,
        fuel >= 257,
    ensures
        run_seq(and_code(flag, seq![d], seq![v], owned), st, fuel) matches Some(after) && after.input == st.input
            && after.output == st.output
            && (cell(after.cells, d) != 0 <==> (cell(st.cells, d) != 0 && cell(st.cells, v) != 0))
            && cell(after.cells, d) == if cell(st.cells, v) != 0 {
                cell(st.cells, d)
            } else {
                0
            },
{
    reveal(branch_setup);
    reveal(numbered_from);
    let rest = if owned {
        Seq::<SpecABF>::empty()
    } else {
        owned_copy_code(seq![v], (flag + 1) as u16, 1)
    };
    let setup = branch_setup(flag, seq![v], owned, 1);
    let check = branch_check(flag, seq![v], owned, 1);
    let else_body = clear_all_code(seq![d]);
    let br = branches(flag, check, Seq::<SpecABF>::empty(), else_body);
    assert(setup == seq![SpecABF::New(flag, 1u8)] + rest);
    lemma_run_append(setup, br, st, fuel);
    lemma_run_append(seq![SpecABF::New(flag, 1u8)], rest, st, fuel);
    lemma_run_push(Seq::<SpecABF>::empty(), SpecABF::New(flag, 1u8), st, fuel);
    assert(Seq::<SpecABF>::empty().push(SpecABF::New(flag, 1u8)) =~= seq![SpecABF::New(flag, 1u8)]);
    let st1 = AbfState { cells: st.cells.insert(flag, 1u8), ..st };
    assert(run_seq(seq![SpecABF::New(flag, 1u8)], st, fuel) == Some(st1));
    assert(cell(st1.cells, flag) == 1);
    assert(cell(st1.cells, d) == cell(st.cells, d));
    assert(cell(st1.cells, v) == cell(st.cells, v));
    let st2 = run_seq(rest, st1, fuel)->Some_0;
    if owned {
        assert(st2 == st1);
        assert(check =~= seq![v]);
    } else {
        lemma_run_owned_copy(seq![v], (flag + 1) as u16, 1, st1, fuel);
        assert(cell(st2.cells, ((flag + 1) as u16 + 0) as u16) == cell(st1.cells, seq![v][0]));
        assert(check =~= seq![(flag + 1) as u16]);
        assert(cell(st2.cells, flag) == 1);
        assert(cell(st2.cells, d) == cell(st.cells, d));
    }
    assert(cell(st2.cells, check[0]) == cell(st.cells, v));
    assert(st2.input == st.input && st2.output == st.output);
    lemma_clear_one_used(d);
    assert(Seq::<SpecABF>::empty().len() == 0);
    assert(!seq_used(Seq::<SpecABF>::empty()).contains(flag));
    lemma_run_branches(flag, check, Seq::<SpecABF>::empty(), else_body, st2, fuel);
    let f = (fuel - 1) as nat;
    let add_flag = SpecABF::Add(flag, -1i8);
    if cell(st2.cells, check[0]) != 0 {
        let first = Seq::<SpecABF>::empty().push(add_flag);
        lemma_run_append(first, clear_all_code(check), st2, f);
        lemma_run_push(Seq::<SpecABF>::empty(), add_flag, st2, f);
        let mid = run_seq(first, st2, f)->Some_0;
        assert(cell(mid.cells, d) == cell(st2.cells, d));
        lemma_run_clears(check, mid, f);
        assert(!check.contains(d));
    } else {
        lemma_run_push(else_body, add_flag, st2, f);
        lemma_run_clears(seq![d], st2, f);
        let mid = run_seq(else_body, st2, f)->Some_0;
        assert(seq![d][0] == d);
        assert(cell(mid.cells, d) == 0);
    }
}

} // verus!
