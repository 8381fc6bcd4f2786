//! Which solution the search arrives at.
//!
//! The search branches on one cell at a time and tries its candidates in
//! ascending order, each on the board that propagation leaves. On a
//! consistent board that board is the largest consistent board with the
//! digit alone in the cell, so the solution found can be told without
//! running the search: it is `first_solution`.

use crate::rules::{
    assigned, consistent, is_solution, keeps_closure, lemma_keeps_consistent, lemma_keeps_trans,
    lemma_refines_total, lemma_refines_trans, lemma_within_single, no_solution_with, refines,
    settles, total, well_formed,
};
use crate::topology::valid_index;
use vstd::prelude::*;

verus! {

/// Some cell has more than one candidate.
pub open spec fn is_open(g: Seq<Seq<u8>>) -> bool {
    exists|j: int| 0 <= j < 81 && (#[trigger] g[j]).len() > 1
}

/// The cell at `i` is the one to branch on: it has more than one candidate,
/// no cell with more than one has fewer, and none with as many comes
/// before it.
pub open spec fn is_branch_cell(g: Seq<Seq<u8>>, i: int) -> bool {
    &&& valid_index(i)
    &&& g[i].len() > 1
    &&& forall|j: int|
        0 <= j < 81 && (#[trigger] g[j]).len() > 1 ==> {
            ||| g[i].len() < g[j].len()
            ||| g[i].len() == g[j].len() && i <= j
        }
}

/// The position of the cell to branch on.
pub open spec fn branch_cell(g: Seq<Seq<u8>>) -> int {
    choose|i: int| is_branch_cell(g, i)
}

/// `d` is the least digit that some solution within `g` has in the cell at
/// `idx`.
pub open spec fn is_first_digit(g: Seq<Seq<u8>>, idx: int, d: u8) -> bool {
    &&& !no_solution_with(g, idx, d)
    &&& forall|e: u8| e < d ==> #[trigger] no_solution_with(g, idx, e)
}

/// The least digit that some solution within `g` has in the cell at `idx`.
pub open spec fn first_digit(g: Seq<Seq<u8>>, idx: int) -> u8 {
    choose|d: u8| is_first_digit(g, idx, d)
}

/// `n` is the largest consistent board within `g` that has `d` alone in the
/// cell at `idx`.
pub open spec fn is_narrowed(g: Seq<Seq<u8>>, idx: int, d: u8, n: Seq<Seq<u8>>) -> bool {
    &&& settles(n, g, idx, d)
    &&& forall|t: Seq<Seq<u8>>| #[trigger] settles(t, g, idx, d) ==> refines(t, n)
}

/// The largest consistent board within `g` that has `d` alone in the cell
/// at `idx`.
pub open spec fn narrowed(g: Seq<Seq<u8>>, idx: int, d: u8) -> Seq<Seq<u8>> {
    choose|n: Seq<Seq<u8>>| is_narrowed(g, idx, d, n)
}

/// The solution that the search arrives at, on a consistent board that has
/// one: the board itself if no cell is open; otherwise the first solution
/// of the board narrowed to the least digit, in the cell to branch on, that
/// a solution has there. The narrowed board has fewer candidates
/// (`lemma_branch_smaller`); the definition asks for it so that it is well
/// founded.
pub open spec fn first_solution(g: Seq<Seq<u8>>) -> Seq<Seq<u8>>
    decreases total(g),
{
    if !is_open(g) {
        g
    } else {
        let n = narrowed(g, branch_cell(g), first_digit(g, branch_cell(g)));
        if total(n) < total(g) {
            first_solution(n)
        } else {
            g
        }
    }
}

/// There is one cell to branch on at most.
pub proof fn lemma_branch_cell(g: Seq<Seq<u8>>, i: int)
    requires
        is_branch_cell(g, i),
    ensures
        branch_cell(g) == i,
        is_open(g),
{
    let c = branch_cell(g);
    assert(is_branch_cell(g, c));
    assert(g[i].len() > 1 && g[c].len() > 1);
}

/// There is one first digit at most.
pub proof fn lemma_first_digit(g: Seq<Seq<u8>>, idx: int, d: u8)
    requires
        is_first_digit(g, idx, d),
    ensures
        first_digit(g, idx) == d,
{
    let c = first_digit(g, idx);
    assert(is_first_digit(g, idx, c));
    if c < d {
        assert(no_solution_with(g, idx, c));
    }
    if d < c {
        assert(no_solution_with(g, idx, d));
    }
}

/// There is one largest board at most.
pub proof fn lemma_narrowed(g: Seq<Seq<u8>>, idx: int, d: u8, n: Seq<Seq<u8>>)
    requires
        is_narrowed(g, idx, d, n),
    ensures
        narrowed(g, idx, d) == n,
{
    let c = narrowed(g, idx, d);
    assert(is_narrowed(g, idx, d, c));
    assert(settles(c, g, idx, d));
    assert(settles(n, g, idx, d));
    assert(refines(c, n));
    assert(refines(n, c));
    lemma_refines_total(c, n);
    lemma_refines_total(n, c);
}

/// One step of `first_solution`: from a board to the board narrowed at the
/// cell to branch on.
pub proof fn lemma_first_solution_step(g: Seq<Seq<u8>>, idx: int, d: u8, n: Seq<Seq<u8>>)
    requires
        is_branch_cell(g, idx),
        is_first_digit(g, idx, d),
        is_narrowed(g, idx, d, n),
        total(n) < total(g),
    ensures
        first_solution(g) == first_solution(n),
{
    lemma_branch_cell(g, idx);
    lemma_first_digit(g, idx, d);
    lemma_narrowed(g, idx, d, n);
}

/// A board with no open cell is where the search ends.
pub proof fn lemma_closed(g: Seq<Seq<u8>>)
    requires
        well_formed(g),
        !is_open(g),
    ensures
        forall|j: int| 0 <= j < 81 ==> (#[trigger] g[j]).len() <= 1,
        first_solution(g) == g,
        consistent(g) ==> is_solution(g),
{
    assert forall|j: int| 0 <= j < 81 implies (#[trigger] g[j]).len() <= 1 by {}
    if consistent(g) {
        assert forall|j: int| 0 <= j < g.len() implies (#[trigger] g[j]).len() == 1 by {}
    }
}

/// Assigning a digit to a cell with more than one candidate leaves fewer
/// candidates on the board.
pub proof fn lemma_branch_smaller(g: Seq<Seq<u8>>, idx: int, d: u8, branch: Seq<Seq<u8>>)
    requires
        well_formed(g),
        well_formed(branch),
        valid_index(idx),
        g[idx].len() > 1,
        assigned(g, idx, d, branch, true),
    ensures
        total(branch) < total(g),
{
    lemma_refines_total(branch, g);
    assert(branch[idx].len() == 1);
}

/// A digit whose assignment fails, or leaves a board with no solution
/// within, is the digit of no solution in that cell.
pub proof fn lemma_branch_dead(g: Seq<Seq<u8>>, idx: int, d: u8, branch: Seq<Seq<u8>>, ok: bool)
    requires
        assigned(g, idx, d, branch, ok),
        ok ==> forall|t: Seq<Seq<u8>>| #[trigger] is_solution(t) ==> !refines(t, branch),
    ensures
        no_solution_with(g, idx, d),
{
    assert forall|t: Seq<Seq<u8>>| #[trigger] is_solution(t) && refines(t, g) implies t[idx]
        != seq![d] by {
        if t[idx] == seq![d] {
            assert(settles(t, g, idx, d));
            assert(refines(t, branch));
        }
    }
}

/// If no candidate of a cell is the digit of a solution, the board has no
/// solution within.
pub proof fn lemma_branches_dead(g: Seq<Seq<u8>>, idx: int)
    requires
        0 <= idx < g.len(),
        forall|q: int| 0 <= q < g[idx].len() ==> no_solution_with(g, idx, #[trigger] g[idx][q]),
    ensures
        forall|t: Seq<Seq<u8>>| #[trigger] is_solution(t) ==> !refines(t, g),
{
    assert forall|t: Seq<Seq<u8>>| #[trigger] is_solution(t) implies !refines(t, g) by {
        if refines(t, g) {
            let d = t[idx][0];
            assert(t[idx].len() == 1);
            assert(t[idx] =~= seq![d]);
            assert(t[idx].contains(d));
            assert(g[idx].contains(d));
            let q = choose|q: int| 0 <= q < g[idx].len() && g[idx][q] == d;
            assert(no_solution_with(g, idx, g[idx][q]));
        }
    }
}

/// What the search finds on the board that the `k`-th candidate of the cell
/// to branch on leaves, when the candidates before it led nowhere, is what
/// it finds on the board itself.
pub proof fn lemma_branch_found(
    g: Seq<Seq<u8>>,
    idx: int,
    k: int,
    branch: Seq<Seq<u8>>,
    s: Seq<Seq<u8>>,
)
    requires
        well_formed(g),
        well_formed(branch),
        well_formed(s),
        is_branch_cell(g, idx),
        0 <= k < g[idx].len(),
        assigned(g, idx, g[idx][k], branch, true),
        forall|q: int| 0 <= q < k ==> no_solution_with(g, idx, #[trigger] g[idx][q]),
        refines(s, branch),
        keeps_closure(branch, s),
        consistent(branch) ==> is_solution(s) && s == first_solution(branch),
    ensures
        refines(s, g),
        keeps_closure(g, s),
        consistent(g) ==> is_solution(s) && s == first_solution(g),
{
    let d = g[idx][k];
    lemma_refines_trans(s, branch, g);
    lemma_keeps_trans(g, branch, s);
    lemma_branch_smaller(g, idx, d, branch);
    if consistent(g) {
        lemma_keeps_consistent(g, branch);
        lemma_within_single(s, branch, idx, d);
        assert forall|e: u8| e < d implies #[trigger] no_solution_with(g, idx, e) by {
            if g[idx].contains(e) {
                let q = choose|q: int| 0 <= q < g[idx].len() && g[idx][q] == e;
                if q > k {
                    assert(g[idx][k] < g[idx][q]);
                }
                assert(no_solution_with(g, idx, g[idx][q]));
            } else {
                assert forall|t: Seq<Seq<u8>>| #[trigger]
                    is_solution(t) && refines(t, g) implies t[idx] != seq![e] by {
                    if t[idx] == seq![e] {
                        assert(seq![e][0] == e);
                        assert(t[idx].contains(e));
                    }
                }
            }
        }
        assert(is_solution(s) && refines(s, g) && s[idx] == seq![d]);
        assert(is_first_digit(g, idx, d));
        assert(is_narrowed(g, idx, d, branch));
        lemma_first_solution_step(g, idx, d, branch);
    }
}

} // verus!
