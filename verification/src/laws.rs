//! What follows from the contracts of the solver: laws that hold of every
//! board and every outcome that the contracts allow.

use crate::digits::{all_digits, lemma_without_members, without};
use crate::paint::{ascii, lemma_painted_tokens, painted};
use crate::parser::{char_tokens, fits, lemma_tokens_by_character, overlong, reads_as, satisfiable};
use crate::rules::{
    assigned, consistent, eliminated, excludes, hidden_ok, holds, is_filling, is_solution,
    lemma_hidden_from_single, lemma_keeps_consistent, lemma_refines_total, lemma_refines_trans,
    lemma_total_le, lemma_within_single, naked_around, naked_ok, peers_lack, placed_once, refines,
    settles, sole_place, well_formed,
};
use crate::topology::{
    cell_at, cell_seq, index_of, is_peer, lemma_cell_index, lemma_index_cell, lemma_peer_at,
    lemma_peer_rank, lemma_peer_shares_unit, lemma_row_col, lemma_unit_cell, lemma_unit_contains,
    lemma_units_of, peer_at, peer_rank, peer_seq, unit_cell, unit_has, unit_seq, units_of,
    valid_cell, valid_index, Cell,
};
use vstd::prelude::*;
use vstd::seq_lib::seq_to_set_is_finite;
use vstd::set_lib::lemma_subset_equality;
use vstd::utf8::{encode_utf8, is_ascii_chars_encode_utf8};

verus! {

/// Two boards that lie within each other are the same board.
pub proof fn law_refines_antisymmetric(a: Seq<Seq<u8>>, b: Seq<Seq<u8>>)
    requires
        well_formed(a),
        well_formed(b),
        refines(a, b),
        refines(b, a),
    ensures
        a == b,
{
    lemma_refines_total(a, b);
    lemma_refines_total(b, a);
}

/// Eliminating keeps a consistent board consistent.
pub proof fn law_eliminate_keeps_consistent(
    old: Seq<Seq<u8>>,
    idx: int,
    value: u8,
    new: Seq<Seq<u8>>,
)
    requires
        consistent(old),
        well_formed(new),
        eliminated(old, idx, value, new, true),
    ensures
        consistent(new),
{
    lemma_keeps_consistent(old, new);
}

/// Assigning keeps a consistent board consistent.
pub proof fn law_assign_keeps_consistent(
    old: Seq<Seq<u8>>,
    idx: int,
    value: u8,
    new: Seq<Seq<u8>>,
)
    requires
        consistent(old),
        well_formed(new),
        assigned(old, idx, value, new, true),
    ensures
        consistent(new),
{
    lemma_keeps_consistent(old, new);
}

/// On a consistent board, eliminating succeeds exactly when some consistent
/// board within it does without the digit in the cell, and the board it
/// leaves is the largest of those.
pub proof fn law_eliminate_finds_the_largest(
    old: Seq<Seq<u8>>,
    idx: int,
    value: u8,
    new: Seq<Seq<u8>>,
    ok: bool,
)
    requires
        consistent(old),
        well_formed(new),
        eliminated(old, idx, value, new, ok),
    ensures
        ok <==> exists|t: Seq<Seq<u8>>| excludes(t, old, idx, value),
        ok ==> excludes(new, old, idx, value),
        forall|t: Seq<Seq<u8>>| #[trigger] excludes(t, old, idx, value) ==> refines(t, new),
{
    if ok {
        lemma_keeps_consistent(old, new);
        assert(excludes(new, old, idx, value));
    }
}

/// On a consistent board, assigning succeeds exactly when some consistent
/// board within it has the digit alone in the cell, and the board it leaves
/// is the largest of those.
pub proof fn law_assign_finds_the_largest(
    old: Seq<Seq<u8>>,
    idx: int,
    value: u8,
    new: Seq<Seq<u8>>,
    ok: bool,
)
    requires
        consistent(old),
        valid_index(idx),
        well_formed(new),
        assigned(old, idx, value, new, ok),
    ensures
        ok <==> exists|t: Seq<Seq<u8>>| settles(t, old, idx, value),
        ok ==> settles(new, old, idx, value),
        forall|t: Seq<Seq<u8>>| #[trigger] settles(t, old, idx, value) ==> refines(t, new),
{
    if ok {
        lemma_keeps_consistent(old, new);
        assert(old[idx].len() > 0);
        assert(settles(new, old, idx, value));
    }
}

/// What eliminating leaves of a consistent board does not depend on the
/// order in which neighbours and units were visited: any two outcomes that
/// the contract allows agree on success, and on the board if they succeed.
pub proof fn law_eliminate_is_determined(
    old: Seq<Seq<u8>>,
    idx: int,
    value: u8,
    new1: Seq<Seq<u8>>,
    ok1: bool,
    new2: Seq<Seq<u8>>,
    ok2: bool,
)
    requires
        consistent(old),
        well_formed(new1),
        well_formed(new2),
        eliminated(old, idx, value, new1, ok1),
        eliminated(old, idx, value, new2, ok2),
    ensures
        ok1 == ok2,
        ok1 ==> new1 == new2,
{
    law_eliminate_finds_the_largest(old, idx, value, new1, ok1);
    law_eliminate_finds_the_largest(old, idx, value, new2, ok2);
    if ok1 {
        assert(excludes(new1, old, idx, value));
        assert(ok2 && refines(new1, new2));
        assert(excludes(new2, old, idx, value));
        assert(refines(new2, new1));
        law_refines_antisymmetric(new1, new2);
    }
    if ok2 {
        assert(excludes(new2, old, idx, value));
    }
}

/// What assigning leaves of a consistent board does not depend on the
/// order of the eliminations: any two outcomes that the contract allows
/// agree on success, and on the board if they succeed.
pub proof fn law_assign_is_determined(
    old: Seq<Seq<u8>>,
    idx: int,
    value: u8,
    new1: Seq<Seq<u8>>,
    ok1: bool,
    new2: Seq<Seq<u8>>,
    ok2: bool,
)
    requires
        consistent(old),
        valid_index(idx),
        well_formed(new1),
        well_formed(new2),
        assigned(old, idx, value, new1, ok1),
        assigned(old, idx, value, new2, ok2),
    ensures
        ok1 == ok2,
        ok1 ==> new1 == new2,
{
    law_assign_finds_the_largest(old, idx, value, new1, ok1);
    law_assign_finds_the_largest(old, idx, value, new2, ok2);
    if ok1 {
        assert(settles(new1, old, idx, value));
        assert(ok2 && refines(new1, new2));
        assert(settles(new2, old, idx, value));
        assert(refines(new2, new1));
        law_refines_antisymmetric(new1, new2);
    }
    if ok2 {
        assert(settles(new2, old, idx, value));
    }
}

/// Two assignments may be made in either order: on a consistent board,
/// where each goes through when made first, the second goes through in one
/// order exactly when it does in the other, and the board left is the same.
pub proof fn law_assignments_commute(
    g: Seq<Seq<u8>>,
    i: int,
    v: u8,
    j: int,
    w: u8,
    first_i: Seq<Seq<u8>>,
    both_ij: Seq<Seq<u8>>,
    ok_ij: bool,
    first_j: Seq<Seq<u8>>,
    both_ji: Seq<Seq<u8>>,
    ok_ji: bool,
)
    requires
        consistent(g),
        valid_index(i),
        valid_index(j),
        well_formed(first_i),
        well_formed(both_ij),
        well_formed(first_j),
        well_formed(both_ji),
        assigned(g, i, v, first_i, true),
        assigned(first_i, j, w, both_ij, ok_ij),
        assigned(g, j, w, first_j, true),
        assigned(first_j, i, v, both_ji, ok_ji),
    ensures
        ok_ij == ok_ji,
        ok_ij ==> both_ij == both_ji,
{
    law_assign_finds_the_largest(g, i, v, first_i, true);
    law_assign_finds_the_largest(g, j, w, first_j, true);
    law_assign_finds_the_largest(first_i, j, w, both_ij, ok_ij);
    law_assign_finds_the_largest(first_j, i, v, both_ji, ok_ji);
    if ok_ij {
        assert(settles(both_ij, first_i, j, w));
        lemma_refines_trans(both_ij, first_i, g);
        lemma_within_single(both_ij, first_i, i, v);
        assert(settles(both_ij, g, j, w));
        assert(refines(both_ij, first_j));
        assert(settles(both_ij, first_j, i, v));
    }
    if ok_ji {
        assert(settles(both_ji, first_j, i, v));
        lemma_refines_trans(both_ji, first_j, g);
        lemma_within_single(both_ji, first_j, j, w);
        assert(settles(both_ji, g, i, v));
        assert(refines(both_ji, first_i));
        assert(settles(both_ji, first_i, j, w));
    }
    if ok_ij && ok_ji {
        assert(refines(both_ij, both_ji));
        assert(refines(both_ji, both_ij));
        law_refines_antisymmetric(both_ij, both_ji);
    }
}

/// Eliminating a digit that the cell does not list changes nothing and
/// succeeds.
pub proof fn law_eliminate_absent(
    old: Seq<Seq<u8>>,
    idx: int,
    value: u8,
    new: Seq<Seq<u8>>,
    ok: bool,
)
    requires
        eliminated(old, idx, value, new, ok),
        !old[idx].contains(value),
    ensures
        ok,
        new == old,
{
}

/// Eliminating twice is eliminating once: after a first success a second
/// elimination of the same digit from the same cell changes nothing.
pub proof fn law_eliminate_again(
    old: Seq<Seq<u8>>,
    idx: int,
    value: u8,
    mid: Seq<Seq<u8>>,
    new: Seq<Seq<u8>>,
    ok: bool,
)
    requires
        eliminated(old, idx, value, mid, true),
        eliminated(mid, idx, value, new, ok),
    ensures
        ok,
        new == mid,
{
}

/// After a successful assignment the cell lists the digit and nothing
/// else, and no neighbour lists the digit: on every board whose cell was
/// not empty and, if it was down to one candidate before, had no neighbour
/// listing that candidate; so on every consistent board.
pub proof fn law_assign_settles_the_cell(
    old: Seq<Seq<u8>>,
    idx: int,
    value: u8,
    new: Seq<Seq<u8>>,
)
    requires
        assigned(old, idx, value, new, true),
        old[idx].len() > 0,
        naked_around(old, idx) || consistent(old),
        valid_index(idx),
    ensures
        new[idx] == seq![value],
        peers_lack(new, idx, value),
{
    if consistent(old) {
        assert(naked_around(old, idx));
    }
}

/// Assigning the digit that a cell already holds alone changes nothing and
/// succeeds, on any board; so a second assignment of the same digit after a
/// first that went through is idle.
pub proof fn law_assign_held_digit(
    old: Seq<Seq<u8>>,
    idx: int,
    value: u8,
    new: Seq<Seq<u8>>,
    ok: bool,
)
    requires
        assigned(old, idx, value, new, ok),
        old[idx] == seq![value],
    ensures
        ok,
        new == old,
{
    let others = without(old[idx], value);
    lemma_without_members(old[idx], value);
    if others.len() > 0 {
        let d = others[0];
        assert(others.contains(d));
        assert(old[idx].contains(d) && d != value);
        let p = choose|p: int| 0 <= p < old[idx].len() && old[idx][p] == d;
        assert(seq![value][p] == d);
    }
}

/// A cell that was assigned one digit cannot be assigned another.
pub proof fn law_second_digit_fails(
    old: Seq<Seq<u8>>,
    idx: int,
    first: u8,
    mid: Seq<Seq<u8>>,
    second: u8,
    new: Seq<Seq<u8>>,
    ok: bool,
)
    requires
        old[idx].len() > 0,
        0 <= idx < mid.len(),
        first != second,
        assigned(old, idx, first, mid, true),
        assigned(mid, idx, second, new, ok),
    ensures
        !ok,
{
    assert(mid[idx] == seq![first]);
    if ok {
        assert(new[idx] == seq![second]);
        assert(seq![second][0] == second);
        assert(new[idx].contains(second));
        assert(mid[idx].contains(second));
    }
}

/// Hidden single: on a consistent board, a digit with a single place left
/// in a unit is the only candidate there.
pub proof fn law_hidden_single(g: Seq<Seq<u8>>, u: int, k: int, d: u8)
    requires
        consistent(g),
        0 <= u < 27,
        0 <= k < 9,
        1 <= d <= 9,
        sole_place(g, u, k, d),
    ensures
        g[unit_cell(u, k)] == seq![d],
{
    reveal(hidden_ok);
    assert(hidden_ok(g, u, d));
}

/// Hidden single after an elimination: if the digit taken out of a cell is
/// left with a single place in a unit of that cell, it is the only
/// candidate there, whatever the board was before.
pub proof fn law_hidden_single_after_eliminate(
    old: Seq<Seq<u8>>,
    idx: int,
    value: u8,
    new: Seq<Seq<u8>>,
    u: int,
    k: int,
)
    requires
        eliminated(old, idx, value, new, true),
        old[idx].contains(value),
        0 <= u < 27,
        unit_has(u, idx),
        0 <= k < 9,
        sole_place(new, u, k, value),
    ensures
        new[unit_cell(u, k)] == seq![value],
{
    reveal(hidden_ok);
    assert(hidden_ok(new, u, value));
}

/// Naked single: on a consistent board, the digit of a cell that is down to
/// one candidate is listed by none of its neighbours.
pub proof fn law_naked_single(g: Seq<Seq<u8>>, i: int, j: int)
    requires
        consistent(g),
        valid_index(i),
        valid_index(j),
        is_peer(i, j),
        g[i].len() == 1,
    ensures
        !g[j].contains(g[i][0]),
{
    assert(naked_ok(g, i, j));
}

/// On a solution every unit holds every digit, each at one place, and two
/// cells that share a unit hold different digits.
pub proof fn law_solution_units(g: Seq<Seq<u8>>)
    requires
        is_solution(g),
    ensures
        forall|u: int, d: u8| 0 <= u < 27 && 1 <= d <= 9 ==> #[trigger] placed_once(g, u, d),
        forall|i: int, j: int|
            valid_index(i) && valid_index(j) && is_peer(i, j) ==> #[trigger] g[i][0]
                != #[trigger] g[j][0],
{
    assert forall|i: int, j: int|
        valid_index(i) && valid_index(j) && is_peer(i, j) implies #[trigger] g[i][0]
        != #[trigger] g[j][0] by {
        assert(naked_ok(g, i, j));
        assert(g[j].len() == 1);
        assert(g[j].contains(g[j][0]));
    }
    assert forall|u: int, d: u8| 0 <= u < 27 && 1 <= d <= 9 implies #[trigger] placed_once(
        g,
        u,
        d,
    ) by {
        reveal(hidden_ok);
        assert(hidden_ok(g, u, d));
        let k = choose|k: int| 0 <= k < 9 && #[trigger] holds(g, u, k, d);
        lemma_unit_cell(u, k);
        let i = unit_cell(u, k);
        assert(g[i].len() == 1);
        let p = choose|p: int| 0 <= p < g[i].len() && g[i][p] == d;
        assert(g[i] =~= seq![d]);
        assert forall|k2: int| 0 <= k2 < 9 && k2 != k implies !#[trigger] holds(g, u, k2, d) by {
            lemma_unit_cell(u, k2);
            let j = unit_cell(u, k2);
            lemma_peer_shares_unit(i, j);
            assert(naked_ok(g, i, j));
        }
        assert(sole_place(g, u, k, d));
    }
}

/// Nine cells with nine different digits hold every digit: on a board with
/// one digit in every cell and no digit twice in a unit, every unit has a
/// place for every digit.
pub proof fn law_unit_holds_every_digit(g: Seq<Seq<u8>>, u: int, d: u8)
    requires
        is_filling(g),
        0 <= u < 27,
        1 <= d <= 9,
    ensures
        exists|k: int| 0 <= k < 9 && #[trigger] g[unit_cell(u, k)] == seq![d],
{
    let held = Seq::new(9, |k: int| g[unit_cell(u, k)][0]);
    let all = all_digits();
    assert forall|k1: int, k2: int| 0 <= k1 < 9 && 0 <= k2 < 9 && k1 != k2 implies held[k1]
        != held[k2] by {
        lemma_unit_cell(u, k1);
        lemma_unit_cell(u, k2);
        lemma_peer_shares_unit(unit_cell(u, k1), unit_cell(u, k2));
    }
    assert(held.no_duplicates());
    assert(all.no_duplicates());
    held.unique_seq_to_set();
    all.unique_seq_to_set();
    seq_to_set_is_finite(held);
    seq_to_set_is_finite(all);
    assert forall|x: u8| held.to_set().contains(x) implies all.to_set().contains(x) by {
        let k = choose|k: int| 0 <= k < 9 && held[k] == x;
        lemma_unit_cell(u, k);
        assert(g[unit_cell(u, k)].len() == 1);
        assert(1 <= g[unit_cell(u, k)][0] <= 9);
        assert(all[x - 1] == x);
    }
    lemma_subset_equality(held.to_set(), all.to_set());
    assert(all[d - 1] == d);
    assert(all.to_set().contains(d));
    assert(held.to_set().contains(d));
    let k = choose|k: int| 0 <= k < 9 && held[k] == d;
    lemma_unit_cell(u, k);
    assert(g[unit_cell(u, k)].len() == 1);
    assert(g[unit_cell(u, k)] =~= seq![d]);
}

/// The solutions are the boards that the puzzle asks for: one digit in
/// every cell, and no digit twice among cells that share a unit.
pub proof fn law_solutions_are_fillings(g: Seq<Seq<u8>>)
    ensures
        is_solution(g) <==> is_filling(g),
{
    if is_solution(g) {
        law_solution_units(g);
    }
    if is_filling(g) {
        assert forall|i: int| 0 <= i < 81 implies (#[trigger] g[i]).len() > 0 by {}
        assert forall|i: int, j: int|
            valid_index(i) && valid_index(j) && is_peer(i, j) implies #[trigger] naked_ok(
            g,
            i,
            j,
        ) by {
            assert(g[j].len() == 1);
            assert(g[i][0] != g[j][0]);
            if g[j].contains(g[i][0]) {
                let p = choose|p: int| 0 <= p < g[j].len() && g[j][p] == g[i][0];
            }
        }
        assert forall|u: int, d: u8| 0 <= u < 27 && 1 <= d <= 9 implies #[trigger] hidden_ok(
            g,
            u,
            d,
        ) by {
            law_unit_holds_every_digit(g, u, d);
            let k = choose|k: int| 0 <= k < 9 && #[trigger] g[unit_cell(u, k)] == seq![d];
            lemma_hidden_from_single(g, u, d, k);
        }
    }
}

/// A solution within a board whose cells are all down to one candidate is
/// that board: a solved puzzle has no other reading.
pub proof fn law_solved_board_is_the_solution(g: Seq<Seq<u8>>, t: Seq<Seq<u8>>)
    requires
        well_formed(g),
        forall|j: int| 0 <= j < 81 ==> (#[trigger] g[j]).len() <= 1,
        is_solution(t),
        refines(t, g),
    ensures
        t == g,
{
    lemma_refines_total(t, g);
    assert forall|j: int| 0 <= j < 81 implies (#[trigger] t[j]).len() == g[j].len() by {
        assert(t[j].len() == 1);
    }
    lemma_total_le(t, g);
    lemma_total_le(g, t);
}

/// Two equal clues in cells that share a unit, such as two cells of one
/// row, contradict each other: no consistent board fits them.
pub proof fn law_equal_clues_clash(clues: Seq<u8>, p: int, q: int)
    requires
        valid_index(p),
        valid_index(q),
        p < clues.len(),
        q < clues.len(),
        is_peer(p, q),
        clues[p] == clues[q],
        clues[p] != 0,
    ensures
        !satisfiable(clues),
{
    assert forall|t: Seq<Seq<u8>>| !fits(t, clues) by {
        if fits(t, clues) {
            assert(t[p] == seq![clues[p]]);
            assert(t[q] == seq![clues[q]]);
            assert(naked_ok(t, p, q));
            assert(seq![clues[p]][0] == clues[p]);
            assert(t[q][0] == clues[q]);
        }
    }
}

/// Clues read as at most one board.
pub proof fn law_reads_as_one_board(clues: Seq<u8>, a: Seq<Seq<u8>>, b: Seq<Seq<u8>>)
    requires
        reads_as(clues, a),
        reads_as(clues, b),
    ensures
        a == b,
{
    law_refines_antisymmetric(a, b);
}

/// The text of a solution reads as that solution: painting a solved grid
/// and parsing the text gives the grid back.
pub proof fn law_paint_then_parse(g: Seq<Seq<u8>>)
    requires
        is_solution(g),
    ensures
        reads_as(char_tokens(painted(g, 81)), g),
        satisfiable(char_tokens(painted(g, 81))),
        !overlong(char_tokens(painted(g, 81))),
        forall|board: Seq<Seq<u8>>| #[trigger]
            reads_as(char_tokens(painted(g, 81)), board) ==> board == g,
{
    let text = painted(g, 81);
    let clues = char_tokens(text);
    lemma_painted_tokens(g, 81);
    is_ascii_chars_encode_utf8(text);
    assert(encode_utf8(text) =~= ascii(text));
    lemma_tokens_by_character(text);
    assert forall|p: int|
        0 <= p < clues.len() && p < 81 && #[trigger] clues[p] != 0 implies g[p] == seq![
        clues[p],
    ] by {
        assert(g[p].len() == 1);
        assert(g[p] =~= seq![g[p][0]]);
    }
    assert(fits(g, clues));
    assert forall|t: Seq<Seq<u8>>| #[trigger] fits(t, clues) implies refines(t, g) by {
        assert forall|p: int| 0 <= p < 81 implies t[p] == g[p] by {
            assert(g[p].len() == 1);
            assert(1 <= g[p][0] <= 9);
            assert(clues[p] == g[p][0]);
            assert(g[p] =~= seq![g[p][0]]);
        }
        assert(t =~= g);
    }
    assert forall|board: Seq<Seq<u8>>| #[trigger] reads_as(clues, board) implies board == g by {
        law_reads_as_one_board(clues, board, g);
    }
}

/// The layout around a cell: it is one of 81 different cells; it belongs to
/// three units of nine cells each; and the twenty cells listed as its
/// neighbours are distinct, do not include it, and are the cells that share
/// a unit with it.
pub proof fn law_layout(i: int)
    requires
        valid_index(i),
    ensures
        cell_seq().len() == 81,
        cell_seq()[i] == cell_at(i),
        valid_cell(cell_at(i)),
        forall|j: int| valid_index(j) && j != i ==> #[trigger] cell_seq()[j] != cell_at(i),
        units_of(i).len() == 3,
        forall|m: int|
            0 <= m < 3 ==> 0 <= #[trigger] units_of(i)[m] < 27 && unit_seq(units_of(i)[m]).len()
                == 9 && unit_seq(units_of(i)[m]).contains(cell_at(i)),
        forall|u: int|
            0 <= u < 27 && #[trigger] unit_seq(u).contains(cell_at(i)) ==> units_of(i).contains(u),
        units_of(i)[0] != units_of(i)[1] && units_of(i)[0] != units_of(i)[2] && units_of(i)[1]
            != units_of(i)[2],
        peer_seq(i).len() == 20,
        peer_seq(i).no_duplicates(),
        !peer_seq(i).contains(cell_at(i)),
        forall|c: Cell|
            #[trigger] peer_seq(i).contains(c) <==> valid_cell(c) && is_peer(i, index_of(c)),
        forall|c: Cell|
            #[trigger] peer_seq(i).contains(c) <==> c != cell_at(i) && exists|m: int|
                0 <= m < 3 && unit_seq(units_of(i)[m]).contains(c),
{
    lemma_cell_index(i);
    lemma_units_of(i);
    assert forall|j: int| valid_index(j) && j != i implies #[trigger] cell_seq()[j] != cell_at(
        i,
    ) by {
        lemma_cell_index(j);
    }
    assert forall|m: int| 0 <= m < 3 implies 0 <= #[trigger] units_of(i)[m] < 27 && unit_seq(
        units_of(i)[m],
    ).len() == 9 && unit_seq(units_of(i)[m]).contains(cell_at(i)) by {
        lemma_unit_contains(units_of(i)[m], cell_at(i));
    }
    assert forall|u: int| 0 <= u < 27 && #[trigger] unit_seq(u).contains(
        cell_at(i),
    ) implies units_of(i).contains(u) by {
        lemma_unit_contains(u, cell_at(i));
        let m = choose|m: int| 0 <= m < 3 && units_of(i)[m] == u;
        assert(units_of(i)[m] == u);
    }
    assert forall|k1: int, k2: int|
        0 <= k1 < 20 && 0 <= k2 < 20 && k1 != k2 implies peer_seq(i)[k1] != peer_seq(i)[k2] by {
        lemma_peer_at(i, k1);
        lemma_peer_at(i, k2);
        lemma_cell_index(peer_at(i, k1));
        lemma_cell_index(peer_at(i, k2));
    }
    assert forall|c: Cell| #[trigger]
        peer_seq(i).contains(c) <==> valid_cell(c) && is_peer(i, index_of(c)) by {
        if peer_seq(i).contains(c) {
            let k = choose|k: int| 0 <= k < 20 && peer_seq(i)[k] == c;
            lemma_peer_at(i, k);
            lemma_cell_index(peer_at(i, k));
        }
        if valid_cell(c) && is_peer(i, index_of(c)) {
            lemma_index_cell(c);
            lemma_peer_rank(i, index_of(c));
            assert(peer_seq(i)[peer_rank(i, index_of(c))] == c);
        }
    }
    assert forall|c: Cell| #[trigger]
        peer_seq(i).contains(c) <==> c != cell_at(i) && exists|m: int|
            0 <= m < 3 && unit_seq(units_of(i)[m]).contains(c) by {
        if peer_seq(i).contains(c) {
            lemma_index_cell(c);
            let j = index_of(c);
            lemma_peer_shares_unit(i, j);
            let u = choose|u: int| 0 <= u < 27 && unit_has(u, i) && unit_has(u, j);
            let m = choose|m: int| 0 <= m < 3 && units_of(i)[m] == u;
            lemma_unit_contains(u, c);
            assert(unit_seq(units_of(i)[m]).contains(c));
        }
        if c != cell_at(i) && exists|m: int| 0 <= m < 3 && unit_seq(units_of(i)[m]).contains(c) {
            let m = choose|m: int| 0 <= m < 3 && unit_seq(units_of(i)[m]).contains(c);
            let u = units_of(i)[m];
            let k = choose|k: int| 0 <= k < 9 && unit_seq(u)[k] == c;
            lemma_unit_cell(u, k);
            lemma_cell_index(unit_cell(u, k));
            let j = index_of(c);
            lemma_peer_shares_unit(i, j);
            assert(unit_has(u, i) && unit_has(u, j));
        }
    }
}

/// No two of the 27 units hold the same cells.
pub proof fn law_units_differ(u1: int, u2: int)
    requires
        0 <= u1 < 27,
        0 <= u2 < 27,
        u1 != u2,
    ensures
        unit_seq(u1) != unit_seq(u2),
        exists|k: int| 0 <= k < 9 && !unit_seq(u2).contains(#[trigger] unit_seq(u1)[k]),
{
    let k = if u1 < 9 {
        if u2 < 9 {
            0int
        } else if u2 < 18 {
            if u2 - 9 == 0 {
                1int
            } else {
                0int
            }
        } else {
            if (u2 - 18) % 3 == 0 {
                8int
            } else {
                0int
            }
        }
    } else if u1 < 18 {
        if u2 < 9 {
            if u2 == 0 {
                1int
            } else {
                0int
            }
        } else if u2 < 18 {
            0int
        } else {
            if (u2 - 18) / 3 == 0 {
                8int
            } else {
                0int
            }
        }
    } else {
        if u2 < 9 {
            if u2 == (u1 - 18) / 3 * 3 {
                8int
            } else {
                0int
            }
        } else if u2 < 18 {
            if u2 - 9 == (u1 - 18) % 3 * 3 {
                8int
            } else {
                0int
            }
        } else {
            0int
        }
    };
    lemma_unit_cell(u1, k);
    let j = unit_cell(u1, k);
    lemma_cell_index(j);
    lemma_unit_contains(u2, cell_at(j));
    assert(!unit_has(u2, j)) by {
        lemma_row_col(j / 9, j % 9);
    }
    assert(unit_seq(u1)[k] == cell_at(j));
}

} // verus!
