//! What the rules of the puzzle say about a board of candidate sets.
//!
//! A board is a sequence of 81 candidate sets, one per cell in row-major
//! order. Propagation only ever shrinks candidate sets, and the two rules it
//! applies are stated here as conditions on a board:
//!
//! * naked single: the digit of a cell with a single candidate is no
//!   candidate of any cell that shares a unit with it;
//! * hidden single: in every unit every digit has a place, and a digit with
//!   a single place in a unit is the only candidate there.
//!
//! A board on which both hold, with no cell empty, is *consistent*.

use crate::digits::{all_digits, is_digit_set, lemma_only_member, lemma_subset_len, without};
use crate::topology::{is_peer, lemma_unit_cell, unit_cell, unit_has, valid_index};
use vstd::prelude::*;

verus! {

/// 81 candidate sets, each a set of digits.
pub open spec fn well_formed(g: Seq<Seq<u8>>) -> bool {
    &&& g.len() == 81
    &&& forall|i: int| 0 <= i < 81 ==> is_digit_set(#[trigger] g[i])
}

/// Every candidate of `t` is a candidate of `g`, cell by cell.
pub open spec fn refines(t: Seq<Seq<u8>>, g: Seq<Seq<u8>>) -> bool {
    &&& t.len() == g.len()
    &&& forall|i: int, d: u8| 0 <= i < t.len() && #[trigger] t[i].contains(d) ==> g[i].contains(d)
}

/// The number of candidates on the board, all cells together.
pub open spec fn total(g: Seq<Seq<u8>>) -> nat
    decreases g.len(),
{
    if g.len() == 0 {
        0
    } else {
        total(g.drop_last()) + g.last().len()
    }
}

/// Every cell has exactly one candidate.
pub open spec fn solved(g: Seq<Seq<u8>>) -> bool {
    forall|i: int| 0 <= i < g.len() ==> (#[trigger] g[i]).len() == 1
}

/// Naked single, for the cell at `i` and its neighbour at `j`: if the cell
/// at `i` has a single candidate, the cell at `j` does not list it.
pub open spec fn naked_ok(g: Seq<Seq<u8>>, i: int, j: int) -> bool {
    g[i].len() == 1 ==> !g[j].contains(g[i][0])
}

/// `d` is a candidate of the `k`-th cell of unit `u`.
pub open spec fn holds(g: Seq<Seq<u8>>, u: int, k: int, d: u8) -> bool {
    g[unit_cell(u, k)].contains(d)
}

/// The `k`-th cell of unit `u` is the only cell of the unit that lists `d`.
pub open spec fn sole_place(g: Seq<Seq<u8>>, u: int, k: int, d: u8) -> bool {
    &&& holds(g, u, k, d)
    &&& forall|k2: int| 0 <= k2 < 9 && k2 != k ==> !#[trigger] holds(g, u, k2, d)
}

/// Hidden single, for unit `u` and digit `d`: some cell of the unit lists
/// `d`, and if only one does, `d` is its only candidate.
#[verifier::opaque]
pub open spec fn hidden_ok(g: Seq<Seq<u8>>, u: int, d: u8) -> bool {
    &&& exists|k: int| 0 <= k < 9 && #[trigger] holds(g, u, k, d)
    &&& forall|k: int|
        0 <= k < 9 && #[trigger] sole_place(g, u, k, d) ==> g[unit_cell(u, k)] == seq![d]
}

/// No cell is empty and both rules hold everywhere.
pub open spec fn consistent(g: Seq<Seq<u8>>) -> bool {
    &&& well_formed(g)
    &&& forall|i: int| 0 <= i < 81 ==> (#[trigger] g[i]).len() > 0
    &&& forall|i: int, j: int|
        valid_index(i) && valid_index(j) && is_peer(i, j) ==> #[trigger] naked_ok(g, i, j)
    &&& forall|u: int, d: u8| 0 <= u < 27 && 1 <= d <= 9 ==> #[trigger] hidden_ok(g, u, d)
}

/// Naked single holds between the cell at `idx` and each of its neighbours.
pub open spec fn naked_around(g: Seq<Seq<u8>>, idx: int) -> bool {
    forall|j: int| valid_index(j) && is_peer(idx, j) ==> #[trigger] naked_ok(g, idx, j)
}

/// Hidden single holds for `value` in each unit of the cell at `idx`.
pub open spec fn hidden_around(g: Seq<Seq<u8>>, idx: int, value: u8) -> bool {
    forall|u: int| 0 <= u < 27 && unit_has(u, idx) ==> #[trigger] hidden_ok(g, u, value)
}

/// No neighbour of the cell at `idx` lists `value`.
pub open spec fn peers_lack(g: Seq<Seq<u8>>, idx: int, value: u8) -> bool {
    forall|j: int| valid_index(j) && is_peer(idx, j) ==> !(#[trigger] g[j]).contains(value)
}

/// The board on which every cell still lists every digit.
pub open spec fn full_board() -> Seq<Seq<u8>> {
    Seq::new(81, |i: int| all_digits())
}

/// A consistent board on which every cell is down to one digit.
pub open spec fn is_solution(g: Seq<Seq<u8>>) -> bool {
    consistent(g) && solved(g)
}

/// What the puzzle asks for: one digit in every cell, and no digit twice
/// among cells that share a unit.
pub open spec fn is_filling(g: Seq<Seq<u8>>) -> bool {
    &&& well_formed(g)
    &&& solved(g)
    &&& forall|i: int, j: int|
        valid_index(i) && valid_index(j) && is_peer(i, j) ==> #[trigger] g[i][0]
            != #[trigger] g[j][0]
}

/// Unit `u` holds `d` at exactly one place, as the only candidate there.
pub open spec fn placed_once(g: Seq<Seq<u8>>, u: int, d: u8) -> bool {
    exists|k: int|
        0 <= k < 9 && #[trigger] sole_place(g, u, k, d) && g[unit_cell(u, k)] == seq![d]
}

/// No solution within `g` has `d` in the cell at `idx`.
pub open spec fn no_solution_with(g: Seq<Seq<u8>>, idx: int, d: u8) -> bool {
    forall|t: Seq<Seq<u8>>| #[trigger] is_solution(t) && refines(t, g) ==> t[idx] != seq![d]
}

/// Whatever held on `old`, of a cell being non-empty and of either rule at
/// any one place, holds on `new`.
pub open spec fn keeps_closure(old: Seq<Seq<u8>>, new: Seq<Seq<u8>>) -> bool {
    &&& forall|i: int| 0 <= i < 81 && old[i].len() > 0 ==> (#[trigger] new[i]).len() > 0
    &&& forall|i: int, j: int|
        valid_index(i) && valid_index(j) && is_peer(i, j) && naked_ok(old, i, j)
            ==> #[trigger] naked_ok(new, i, j)
    &&& forall|u: int, d: u8|
        0 <= u < 27 && 1 <= d <= 9 && hidden_ok(old, u, d) ==> #[trigger] hidden_ok(new, u, d)
}

/// `t` is a consistent board within `g` that does without `value` in the
/// cell at `idx`.
pub open spec fn excludes(t: Seq<Seq<u8>>, g: Seq<Seq<u8>>, idx: int, value: u8) -> bool {
    &&& consistent(t)
    &&& refines(t, g)
    &&& !t[idx].contains(value)
}

/// `t` is a consistent board within `g` that has `value` as the only
/// candidate of the cell at `idx`.
pub open spec fn settles(t: Seq<Seq<u8>>, g: Seq<Seq<u8>>, idx: int, value: u8) -> bool {
    &&& consistent(t)
    &&& refines(t, g)
    &&& t[idx] == seq![value]
}

/// How a board may stand after `value` was to be taken out of the cell at
/// `idx` of `old`, with `ok` telling whether that went through:
///
/// * candidates are only ever taken away;
/// * if `value` was no candidate there, nothing changes and `ok` holds;
/// * if `ok`, `value` is gone from the cell, whatever held on `old` of either
///   rule holds on `new`, and, where `value` was a candidate, both rules hold
///   again around the cell;
/// * every consistent board within `old` that does without `value` in the
///   cell lies within `new`, and `ok` is owed if there is one.
pub open spec fn eliminated(
    old: Seq<Seq<u8>>,
    idx: int,
    value: u8,
    new: Seq<Seq<u8>>,
    ok: bool,
) -> bool {
    &&& refines(new, old)
    &&& !old[idx].contains(value) ==> ok && new == old
    &&& ok ==> !new[idx].contains(value)
    &&& ok ==> keeps_closure(old, new)
    &&& ok && old[idx].contains(value) ==> {
        &&& new[idx].len() > 0
        &&& naked_around(new, idx)
        &&& hidden_around(new, idx, value)
    }
    &&& forall|t: Seq<Seq<u8>>| #[trigger] excludes(t, old, idx, value) ==> ok && refines(t, new)
}

/// How a board may stand after the cell at `idx` of `old` was to be left
/// with `value` alone, with `ok` telling whether that went through:
///
/// * candidates are only ever taken away;
/// * if the cell had no candidate other than `value`, nothing changes and
///   `ok` holds;
/// * if `ok`, the cell lists nothing but `value`, and lists it unless it was
///   empty before; whatever held on `old` of either rule holds on `new`; and
///   no neighbour lists `value`, unless the cell was empty before or was
///   down to one candidate that a neighbour still listed;
/// * every consistent board within `old` that has `value` alone in the cell
///   lies within `new`, and `ok` is owed if there is one.
pub open spec fn assigned(
    old: Seq<Seq<u8>>,
    idx: int,
    value: u8,
    new: Seq<Seq<u8>>,
    ok: bool,
) -> bool {
    &&& refines(new, old)
    &&& without(old[idx], value).len() == 0 ==> ok && new == old
    &&& ok ==> keeps_closure(old, new)
    &&& ok ==> forall|d: u8| new[idx].contains(d) ==> d == value
    &&& ok && old[idx].len() > 0 ==> new[idx] == seq![value]
    &&& ok && old[idx].len() > 0 && naked_around(old, idx) ==> peers_lack(new, idx, value)
    &&& forall|t: Seq<Seq<u8>>| #[trigger] settles(t, old, idx, value) ==> ok && refines(t, new)
}

/// Lying within another board is reflexive and transitive.
pub proof fn lemma_refines_trans(a: Seq<Seq<u8>>, b: Seq<Seq<u8>>, c: Seq<Seq<u8>>)
    requires
        refines(a, b),
        refines(b, c),
    ensures
        refines(a, c),
        refines(a, a),
{
    assert forall|i: int, d: u8|
        0 <= i < a.len() && #[trigger] a[i].contains(d) implies c[i].contains(d) by {
        assert(b[i].contains(d));
    }
}

/// `keeps_closure` is reflexive and transitive.
pub proof fn lemma_keeps_trans(a: Seq<Seq<u8>>, b: Seq<Seq<u8>>, c: Seq<Seq<u8>>)
    requires
        keeps_closure(a, b),
        keeps_closure(b, c),
    ensures
        keeps_closure(a, c),
        keeps_closure(a, a),
{
    assert forall|i: int| 0 <= i < 81 && a[i].len() > 0 implies (#[trigger] c[i]).len() > 0 by {
        assert(b[i].len() > 0);
    }
    assert forall|i: int, j: int|
        valid_index(i) && valid_index(j) && is_peer(i, j) && naked_ok(
            a,
            i,
            j,
        ) implies #[trigger] naked_ok(c, i, j) by {
        assert(naked_ok(b, i, j));
    }
    assert forall|u: int, d: u8|
        0 <= u < 27 && 1 <= d <= 9 && hidden_ok(a, u, d) implies #[trigger] hidden_ok(c, u, d) by {
        assert(hidden_ok(b, u, d));
    }
}

/// A board that keeps what held on a consistent board is consistent.
pub proof fn lemma_keeps_consistent(old: Seq<Seq<u8>>, new: Seq<Seq<u8>>)
    requires
        consistent(old),
        well_formed(new),
        keeps_closure(old, new),
    ensures
        consistent(new),
{
    assert forall|i: int| 0 <= i < 81 implies (#[trigger] new[i]).len() > 0 by {
        assert(old[i].len() > 0);
    }
    assert forall|i: int, j: int|
        valid_index(i) && valid_index(j) && is_peer(i, j) implies #[trigger] naked_ok(
        new,
        i,
        j,
    ) by {
        assert(naked_ok(old, i, j));
    }
    assert forall|u: int, d: u8| 0 <= u < 27 && 1 <= d <= 9 implies #[trigger] hidden_ok(
        new,
        u,
        d,
    ) by {
        assert(hidden_ok(old, u, d));
    }
}

/// Replacing one candidate set changes the total by the difference of the
/// two lengths.
pub proof fn lemma_total_update(g: Seq<Seq<u8>>, i: int, s: Seq<u8>)
    requires
        0 <= i < g.len(),
    ensures
        total(g.update(i, s)) == total(g) - g[i].len() + s.len(),
    decreases g.len(),
{
    let h = g.update(i, s);
    if i == g.len() - 1 {
        assert(h.drop_last() == g.drop_last());
    } else {
        assert(h.drop_last() == g.drop_last().update(i, s));
        lemma_total_update(g.drop_last(), i, s);
    }
}

/// Cell by cell shorter means shorter in total.
pub proof fn lemma_total_le(t: Seq<Seq<u8>>, g: Seq<Seq<u8>>)
    requires
        t.len() == g.len(),
        forall|i: int| 0 <= i < t.len() ==> (#[trigger] t[i]).len() <= g[i].len(),
    ensures
        total(t) <= total(g),
        total(t) == total(g) ==> forall|i: int|
            0 <= i < t.len() ==> (#[trigger] t[i]).len() == g[i].len(),
    decreases t.len(),
{
    if t.len() > 0 {
        lemma_total_le(t.drop_last(), g.drop_last());
        assert(t[t.len() - 1].len() <= g[t.len() - 1].len());
        if total(t) == total(g) {
            assert forall|i: int| 0 <= i < t.len() implies (#[trigger] t[i]).len()
                == g[i].len() by {
                if i < t.len() - 1 {
                    assert(t.drop_last()[i].len() == g.drop_last()[i].len());
                }
            }
        }
    }
}

/// A board within another has no more candidates, cell by cell and in total;
/// with as many in total, it is the same board.
pub proof fn lemma_refines_total(t: Seq<Seq<u8>>, g: Seq<Seq<u8>>)
    requires
        well_formed(t),
        well_formed(g),
        refines(t, g),
    ensures
        forall|i: int| 0 <= i < 81 ==> (#[trigger] t[i]).len() <= g[i].len(),
        total(t) <= total(g),
        total(t) == total(g) ==> t == g,
{
    assert forall|i: int| 0 <= i < 81 implies (#[trigger] t[i]).len() <= g[i].len() by {
        lemma_subset_len(t[i], g[i]);
    }
    lemma_total_le(t, g);
    if total(t) == total(g) {
        assert forall|i: int| 0 <= i < 81 implies t[i] == g[i] by {
            lemma_subset_len(t[i], g[i]);
        }
        assert(t =~= g);
    }
}

/// A non-empty candidate set within `[value]` is `[value]`.
pub proof fn lemma_within_single(t: Seq<Seq<u8>>, g: Seq<Seq<u8>>, i: int, value: u8)
    requires
        well_formed(t),
        refines(t, g),
        0 <= i < 81,
        t[i].len() > 0,
        forall|d: u8| g[i].contains(d) ==> d == value,
    ensures
        t[i] == seq![value],
{
    assert forall|d: u8| t[i].contains(d) implies d == value by {
        assert(g[i].contains(d));
    }
    lemma_only_member(t[i], value);
}

/// Two places for a digit in a unit: hidden single asks nothing more.
pub proof fn lemma_hidden_from_two(g: Seq<Seq<u8>>, u: int, d: u8, k1: int, k2: int)
    requires
        0 <= k1 < 9,
        0 <= k2 < 9,
        k1 != k2,
        holds(g, u, k1, d),
        holds(g, u, k2, d),
    ensures
        hidden_ok(g, u, d),
{
    reveal(hidden_ok);
    assert forall|k: int| 0 <= k < 9 && #[trigger] sole_place(g, u, k, d) implies g[unit_cell(
        u,
        k,
    )] == seq![d] by {
        if k != k1 {
            assert(holds(g, u, k1, d));
        } else {
            assert(holds(g, u, k2, d));
        }
    }
}

/// A cell of the unit with the digit as its only candidate: hidden single
/// holds.
pub proof fn lemma_hidden_from_single(g: Seq<Seq<u8>>, u: int, d: u8, k: int)
    requires
        0 <= k < 9,
        g[unit_cell(u, k)] == seq![d],
    ensures
        hidden_ok(g, u, d),
{
    reveal(hidden_ok);
    assert(seq![d][0] == d);
    assert(holds(g, u, k, d));
    assert forall|k2: int| 0 <= k2 < 9 && #[trigger] sole_place(g, u, k2, d) implies g[unit_cell(
        u,
        k2,
    )] == seq![d] by {
        if k2 != k {
            assert(holds(g, u, k, d));
        }
    }
}

/// The board on which nothing is decided yet is consistent.
pub proof fn lemma_full_board_consistent()
    ensures
        consistent(full_board()),
{
    let g = full_board();
    assert(is_digit_set(all_digits()));
    assert forall|u: int, d: u8| 0 <= u < 27 && 1 <= d <= 9 implies #[trigger] hidden_ok(
        g,
        u,
        d,
    ) by {
        lemma_unit_cell(u, 0);
        lemma_unit_cell(u, 1);
        assert(all_digits()[d - 1] == d);
        assert(g[unit_cell(u, 0)] == all_digits());
        assert(g[unit_cell(u, 1)] == all_digits());
        assert(holds(g, u, 0, d));
        assert(holds(g, u, 1, d));
        lemma_hidden_from_two(g, u, d, 0, 1);
    }
}

} // verus!
