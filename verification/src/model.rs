//! The run of propagation and of the search, as functions of the board.
//!
//! On a consistent board what propagation leaves, and what the search
//! finds, can be said without running them (`rules`, `branching`). On any
//! other board, one on which an elimination has failed, there is no such
//! short cut: what is left is what the steps leave, in the order in which
//! they are taken. That order is written down here.
//!
//! Propagation only takes candidates away, so the total of candidates never
//! grows. The definitions compare totals where one step hands a board to
//! the next; on a well-formed board the comparisons always come out the
//! same way, and they are there so that the definitions are well founded.

use crate::branching::{branch_cell, is_open};
use crate::digits::without;
use crate::rules::total;
use crate::topology::{index_of, peer_at, unit_seq, units_of, Cell};
use vstd::prelude::*;

verus! {

/// The cells among `unit` that list `value` on the board `g`, in their
/// order.
pub open spec fn places(g: Seq<Seq<u8>>, unit: Seq<Cell>, value: u8) -> Seq<Cell> {
    unit.filter(|c: Cell| g[index_of(c)].contains(value))
}

/// What eliminating `value` from the cell at `idx` leaves of `g`, and
/// whether it goes through: nothing to do if the cell does not list
/// `value`; failure if the cell is left empty; else the neighbours are
/// followed up on, if the cell is down to one candidate, and then the
/// units.
pub open spec fn run_eliminate(g: Seq<Seq<u8>>, idx: int, value: u8) -> (Seq<Seq<u8>>, bool)
    decreases total(g), 0int, 0int,
{
    if !g[idx].contains(value) {
        (g, true)
    } else {
        let g1 = g.update(idx, without(g[idx], value));
        if g1[idx].len() == 0 || total(g1) >= total(g) {
            (g1, false)
        } else {
            let after = if g1[idx].len() == 1 {
                run_neighbours(g1, idx, g1[idx][0], 0)
            } else {
                (g1, true)
            };
            if !after.1 || total(after.0) > total(g1) {
                (after.0, false)
            } else {
                run_units(after.0, idx, value, 0)
            }
        }
    }
}

/// Eliminating `unique` from the neighbours of the cell at `idx`, from the
/// `k`-th on, until one elimination fails.
pub open spec fn run_neighbours(g: Seq<Seq<u8>>, idx: int, unique: u8, k: int) -> (
    Seq<Seq<u8>>,
    bool,
)
    decreases total(g), 1int, 20 - k,
{
    if k < 0 || k >= 20 {
        (g, true)
    } else {
        let after = run_eliminate(g, peer_at(idx, k), unique);
        if !after.1 || total(after.0) > total(g) {
            (after.0, false)
        } else {
            run_neighbours(after.0, idx, unique, k + 1)
        }
    }
}

/// Looking for the places left for `value` in the units of the cell at
/// `idx`, from the `m`-th unit on: failure if a unit has none; with one
/// place left `value` is assigned there, and that may fail.
pub open spec fn run_units(g: Seq<Seq<u8>>, idx: int, value: u8, m: int) -> (Seq<Seq<u8>>, bool)
    decreases total(g), 3int, 3 - m,
{
    if m < 0 || m >= 3 {
        (g, true)
    } else {
        let found = places(g, unit_seq(units_of(idx)[m]), value);
        if found.len() == 0 {
            (g, false)
        } else if found.len() == 1 {
            let after = run_assign(g, index_of(found[0]), value);
            if !after.1 || total(after.0) > total(g) {
                (after.0, false)
            } else {
                run_units(after.0, idx, value, m + 1)
            }
        } else {
            run_units(g, idx, value, m + 1)
        }
    }
}

/// What assigning `value` to the cell at `idx` leaves of `g`, and whether
/// it goes through: the candidates other than `value` are eliminated in
/// ascending order, until one elimination fails.
pub open spec fn run_assign(g: Seq<Seq<u8>>, idx: int, value: u8) -> (Seq<Seq<u8>>, bool)
    decreases total(g), 2int, 0int,
{
    run_others(g, idx, without(g[idx], value), 0)
}

/// Eliminating `others` from the cell at `idx`, from the `k`-th on, until
/// one elimination fails.
pub open spec fn run_others(g: Seq<Seq<u8>>, idx: int, others: Seq<u8>, k: int) -> (
    Seq<Seq<u8>>,
    bool,
)
    decreases total(g), 1int, others.len() - k,
{
    if k < 0 || k >= others.len() {
        (g, true)
    } else {
        let after = run_eliminate(g, idx, others[k]);
        if !after.1 || total(after.0) > total(g) {
            (after.0, false)
        } else {
            run_others(after.0, idx, others, k + 1)
        }
    }
}

/// What the search finds on `g`: the board itself if no cell is open;
/// otherwise what the candidates of the cell to branch on lead to, tried in
/// ascending order.
pub open spec fn run_search(g: Seq<Seq<u8>>) -> Option<Seq<Seq<u8>>>
    decreases total(g), 1int, 0int,
{
    if !is_open(g) {
        Some(g)
    } else {
        run_branches(g, branch_cell(g), 0)
    }
}

/// What the candidates of the cell at `idx`, from the `k`-th on, lead to:
/// each is assigned on the board `g`, and the search goes on from the board
/// that is left, if the assignment goes through; the first candidate that
/// leads to a board with every cell decided settles the search.
pub open spec fn run_branches(g: Seq<Seq<u8>>, idx: int, k: int) -> Option<Seq<Seq<u8>>>
    decreases total(g), 0int, g[idx].len() - k,
{
    if k < 0 || k >= g[idx].len() {
        None
    } else {
        let after = run_assign(g, idx, g[idx][k]);
        if after.1 && total(after.0) < total(g) {
            match run_search(after.0) {
                Some(s) => Some(s),
                None => run_branches(g, idx, k + 1),
            }
        } else {
            run_branches(g, idx, k + 1)
        }
    }
}

} // verus!
