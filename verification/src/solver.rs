//! The grid of candidate sets and the propagation that keeps it consistent.

use crate::branching::{
    first_solution, is_branch_cell, is_open, lemma_branch_cell, lemma_branch_dead,
    lemma_branch_found, lemma_branch_smaller, lemma_branches_dead, lemma_closed,
};
use crate::digits::{all_digits, without, DigitOptions};
use crate::model::{
    places, run_assign, run_branches, run_eliminate, run_neighbours, run_others, run_search,
    run_units,
};
use crate::propagation::{
    lemma_absent, lemma_followed_up, lemma_more_places, lemma_naked_around, lemma_neighbour_done,
    lemma_no_place, lemma_one_place, lemma_settled, lemma_settling_start, lemma_settling_step,
    lemma_taken_out, neighbours_done, settling, underway, units_done,
};
use crate::rules::{
    assigned, consistent, eliminated, full_board, holds, is_solution, keeps_closure,
    lemma_full_board_consistent, lemma_keeps_trans, lemma_refines_total, lemma_refines_trans,
    naked_around, no_solution_with, refines, sole_place, total, well_formed,
};
use crate::topology::{
    cell_at, cell_index, cell_seq, index_of, lemma_cell_index, lemma_peer_at, lemma_unit_cell,
    lemma_units_of, peer_at, peer_seq, unit_cell, unit_seq, units_of, valid_cell, Cell,
    GridConstants,
};
use vstd::prelude::*;

verus! {

/// What one more cell adds to the places of a digit.
proof fn lemma_places_step(g: Seq<Seq<u8>>, unit: Seq<Cell>, value: u8)
    requires
        unit.len() > 0,
    ensures
        places(g, unit, value) == if g[index_of(unit.last())].contains(value) {
            places(g, unit.drop_last(), value).push(unit.last())
        } else {
            places(g, unit.drop_last(), value)
        },
        places(g, Seq::<Cell>::empty(), value) == Seq::<Cell>::empty(),
{
    reveal(Seq::filter);
}

/// The state of a puzzle: for each cell the digits it may still take.
pub struct Grid<'a> {
    cells_options: Vec<DigitOptions>,
    grid_constants: &'a GridConstants,
}

impl<'a> View for Grid<'a> {
    type V = Seq<Seq<u8>>;

    /// The candidate sets, one per cell in row-major order.
    closed spec fn view(&self) -> Seq<Seq<u8>> {
        Seq::new(self.cells_options@.len(), |i: int| self.cells_options@[i]@)
    }
}

impl<'a> Clone for Grid<'a> {
    /// An independent copy: the same candidates against the same layout.
    fn clone(&self) -> (r: Self)
        ensures
            r@ == self@,
            r.constants() == self.constants(),
    {
        let mut cells_options: Vec<DigitOptions> = Vec::new();
        let mut i: usize = 0;
        while i < self.cells_options.len()
            invariant
                i <= self.cells_options@.len(),
                cells_options@.len() == i,
                forall|q: int|
                    0 <= q < i ==> (#[trigger] cells_options@[q])@ == self.cells_options@[q]@,
            decreases self.cells_options@.len() - i,
        {
            cells_options.push(self.cells_options[i].clone());
            i += 1;
        }
        let r = Grid { cells_options, grid_constants: self.grid_constants };
        proof {
            assert(r@ =~= self@);
        }
        r
    }
}

impl<'a> Grid<'a> {
    /// The layout the grid was built against.
    pub closed spec fn constants(&self) -> GridConstants {
        *self.grid_constants
    }

    /// The grid has its 81 candidate sets and a layout to go with them.
    pub open spec fn wf(&self) -> bool {
        &&& self.constants().wf()
        &&& well_formed(self@)
    }

    /// A grid on which every cell still lists every digit.
    pub fn init(grid_constants: &'a GridConstants) -> (r: Grid<'a>)
        requires
            grid_constants.wf(),
        ensures
            r.wf(),
            r@ == full_board(),
            consistent(r@),
            r.constants() == *grid_constants,
    {
        let mut cells_options: Vec<DigitOptions> = Vec::new();
        let cells = grid_constants.cells();
        let mut i: usize = 0;
        while i < cells.len()
            invariant
                grid_constants.wf(),
                cells@.len() == 81,
                i <= 81,
                cells_options@.len() == i,
                forall|q: int| 0 <= q < i ==> (#[trigger] cells_options@[q])@ == all_digits(),
            decreases 81 - i,
        {
            let digits = grid_constants.cols().clone();
            cells_options.push(DigitOptions::init(digits));
            i += 1;
        }
        let r = Grid { cells_options, grid_constants };
        proof {
            assert(r@ =~= full_board());
            lemma_full_board_consistent();
        }
        r
    }

    /// The cell to branch on: among the cells with more than one candidate,
    /// one with the fewest, and of those the first in row-major order.
    pub fn open_cell(&self) -> (r: Option<Cell>)
        requires
            self.wf(),
        ensures
            r is None <==> !is_open(self@),
            r matches Some(c) ==> valid_cell(c) && is_branch_cell(self@, index_of(c)),
    {
        let cells = self.grid_constants.cells();
        let mut best: Option<Cell> = None;
        let mut best_len: usize = 0;
        let mut i: usize = 0;
        while i < cells.len()
            invariant
                self.wf(),
                cells@ == cell_seq(),
                i <= 81,
                best is None <==> forall|j: int| 0 <= j < i ==> (#[trigger] self@[j]).len() <= 1,
                best matches Some(c) ==> {
                    &&& valid_cell(c)
                    &&& index_of(c) < i
                    &&& best_len == self@[index_of(c)].len()
                    &&& best_len > 1
                    &&& forall|j: int|
                        0 <= j < i && (#[trigger] self@[j]).len() > 1 ==> {
                            ||| best_len < self@[j].len()
                            ||| best_len == self@[j].len() && index_of(c) <= j
                        }
                },
            decreases 81 - i,
        {
            proof {
                lemma_cell_index(i as int);
            }
            let len = self.cells_options[i].values().len();
            if len > 1 && (best.is_none() || len < best_len) {
                best = Some(cells[i]);
                best_len = len;
            }
            proof {
                if let Some(c) = best {
                    assert(self@[index_of(c)].len() > 1);
                }
            }
            i += 1;
        }
        proof {
            if best is None {
                assert forall|j: int| 0 <= j < 81 implies (#[trigger] self@[j]).len() <= 1 by {}
            }
        }
        best
    }

    /// Depth-first search for a solution within the grid: branch on the
    /// cell that `open_cell` gives, try its candidates in ascending order on
    /// a copy, and return the first grid found on which every cell is
    /// decided.
    ///
    /// On a consistent grid that is a solution, `first_solution`, and there
    /// is none to be had if nothing is returned. A grid that is not
    /// consistent, one on which an elimination has failed, is meant to be
    /// thrown away; what the search returns of it is what `run_search`
    /// says, as on every grid, and it need not be a solution.
    pub fn search(self) -> (r: Option<Grid<'a>>)
        requires
            self.wf(),
        ensures
            r matches Some(s) ==> {
                &&& s.wf()
                &&& s.constants() == self.constants()
                &&& refines(s@, self@)
                &&& keeps_closure(self@, s@)
                &&& forall|j: int| 0 <= j < 81 ==> (#[trigger] s@[j]).len() <= 1
            },
            !is_open(self@) ==> (r matches Some(s) && s@ == self@),
            run_search(self@) == match r {
                Some(s) => Some(s@),
                None => None,
            },
            r is None ==> forall|t: Seq<Seq<u8>>| #[trigger] is_solution(t) ==> !refines(t, self@),
            consistent(self@) ==> (r matches Some(s) ==> is_solution(s@) && s@ == first_solution(
                self@,
            )),
        decreases total(self@),
    {
        let ghost g = self@;
        match self.open_cell() {
            None => {
                proof {
                    lemma_closed(g);
                    lemma_refines_trans(g, g, g);
                    lemma_keeps_trans(g, g, g);
                }
                Some(self)
            },
            Some(cell) => {
                let ghost idx = index_of(cell);
                let options = self.cells_options[cell_index(&cell)].values();
                let mut k: usize = 0;
                proof {
                    lemma_branch_cell(g, idx);
                }
                while k < options.len()
                    invariant
                        g == self@,
                        self.wf(),
                        valid_cell(cell),
                        idx == index_of(cell),
                        options@ == g[idx],
                        is_branch_cell(g, idx),
                        run_search(g) == run_branches(g, idx, k as int),
                        k <= options@.len(),
                        forall|q: int|
                            0 <= q < k ==> no_solution_with(g, idx, #[trigger] g[idx][q]),
                    decreases options@.len() - k,
                {
                    let mut cloned_grid = self.clone();
                    if cloned_grid.assign(&cell, options[k]) {
                        let ghost branch = cloned_grid@;
                        proof {
                            lemma_branch_smaller(g, idx, g[idx][k as int], branch);
                        }
                        match cloned_grid.search() {
                            Some(solution) => {
                                proof {
                                    lemma_branch_found(g, idx, k as int, branch, solution@);
                                }
                                return Some(solution);
                            },
                            None => {
                                proof {
                                    lemma_branch_dead(g, idx, g[idx][k as int], branch, true);
                                }
                            },
                        }
                    } else {
                        proof {
                            lemma_branch_dead(g, idx, g[idx][k as int], cloned_grid@, false);
                        }
                    }
                    k += 1;
                }
                proof {
                    lemma_branches_dead(g, idx);
                }
                None
            },
        }
    }

    /// The layout the grid was built against.
    pub fn layout(&self) -> (r: &'a GridConstants)
        ensures
            *r == self.constants(),
    {
        self.grid_constants
    }

    /// The candidates of `cell`, ascending.
    pub fn values(&self, cell: &Cell) -> (r: &Vec<u8>)
        requires
            self.wf(),
            valid_cell(*cell),
        ensures
            r@ == self@[index_of(*cell)],
    {
        self.cells_options[cell_index(cell)].values()
    }

    /// The cells of `unit` that still list `value`, in the unit's order.
    fn places_with(&self, unit: &Vec<Cell>, value: u8, Ghost(u): Ghost<int>) -> (r: Vec<Cell>)
        requires
            self.wf(),
            0 <= u < 27,
            unit@ == unit_seq(u),
        ensures
            r@ == places(self@, unit@, value),
            r@.len() == 0 ==> forall|k: int| 0 <= k < 9 ==> !#[trigger] holds(self@, u, k, value),
            r@.len() == 1 ==> exists|k: int|
                0 <= k < 9 && r@[0] == cell_at(unit_cell(u, k)) && #[trigger] sole_place(
                    self@,
                    u,
                    k,
                    value,
                ),
            r@.len() >= 2 ==> exists|k1: int, k2: int|
                0 <= k1 < k2 < 9 && #[trigger] holds(self@, u, k1, value) && #[trigger] holds(
                    self@,
                    u,
                    k2,
                    value,
                ),
    {
        let mut out: Vec<Cell> = Vec::new();
        let ghost mut first: int = 0;
        let ghost mut second: int = 0;
        let mut k: usize = 0;
        proof {
            lemma_places_step(self@, unit@, value);
            assert(unit@.take(0) == Seq::<Cell>::empty());
        }
        while k < unit.len()
            invariant
                self.wf(),
                0 <= u < 27,
                unit@ == unit_seq(u),
                k <= 9,
                out@ == places(self@, unit@.take(k as int), value),
                out@.len() == 0 ==> forall|q: int|
                    0 <= q < k ==> !#[trigger] holds(self@, u, q, value),
                out@.len() >= 1 ==> 0 <= first < k && holds(self@, u, first, value) && out@[0]
                    == cell_at(unit_cell(u, first)),
                out@.len() == 1 ==> forall|q: int|
                    0 <= q < k && q != first ==> !#[trigger] holds(self@, u, q, value),
                out@.len() >= 2 ==> first < second < k && holds(self@, u, second, value),
            decreases 9 - k,
        {
            let c = unit[k];
            proof {
                lemma_unit_cell(u, k as int);
                lemma_cell_index(unit_cell(u, k as int));
                assert(unit@.take(k + 1).drop_last() == unit@.take(k as int));
                lemma_places_step(self@, unit@.take(k + 1), value);
            }
            if self.cells_options[cell_index(&c)].contains(&value) {
                proof {
                    if out@.len() == 0 {
                        first = k as int;
                    } else if out@.len() == 1 {
                        second = k as int;
                    }
                }
                out.push(c);
            }
            k += 1;
        }
        proof {
            assert(unit@.take(9) == unit@);
            if out@.len() == 1 {
                assert(sole_place(self@, u, first, value));
            }
        }
        out
    }

    /// Takes `value` out of the candidates of `cell` and follows up on what
    /// that forces: a cell left with one candidate cannot share it with a
    /// neighbour, and a digit left with one place in a unit goes there.
    ///
    /// Returns `false` as soon as a cell is left without a candidate or a
    /// unit without a place for a digit; the grid is then of no further use.
    /// On `true` every rule that held before holds again, and no consistent
    /// board within the old one that does without `value` in `cell` is lost.
    /// On every board, consistent or not, what is left is what
    /// `run_eliminate` says.
    pub fn eliminate(&mut self, cell: &Cell, value: u8) -> (ok: bool)
        requires
            old(self).wf(),
            valid_cell(*cell),
        ensures
            final(self).wf(),
            final(self).constants() == old(self).constants(),
            eliminated(old(self)@, index_of(*cell), value, final(self)@, ok),
            run_eliminate(old(self)@, index_of(*cell), value) == (final(self)@, ok),
        decreases total(old(self)@), 0nat,
    {
        let ghost g0 = self@;
        let ghost idx = index_of(*cell);
        let i = cell_index(cell);
        if !self.cells_options[i].contains(&value) {
            proof {
                lemma_absent(g0, idx, value);
            }
            return true;
        }
        self.cells_options[i].remove_option(value);
        let ghost g1 = self@;
        proof {
            assert(g1 =~= g0.update(idx, without(g0[idx], value)));
            lemma_taken_out(g0, idx, value);
        }
        if self.cells_options[i].no_options() {
            return false;
        }
        let constants = self.grid_constants;
        if let Some(unique_value) = self.cells_options[i].one_option() {
            let neighbours = constants.neighbours(cell);
            let mut k: usize = 0;
            while k < neighbours.len()
                invariant
                    g0 == old(self)@,
                    self.constants() == old(self).constants(),
                    self.wf(),
                    valid_cell(*cell),
                    idx == index_of(*cell),
                    neighbours@ == peer_seq(idx),
                    underway(g0, idx, value, self@),
                    self@[idx] == seq![unique_value],
                    k <= 20,
                    neighbours_done(self@, idx, unique_value, k as int),
                    g1 == g0.update(idx, without(g0[idx], value)),
                    g1[idx] == seq![unique_value],
                    total(self@) <= total(g1) < total(g0),
                    run_neighbours(self@, idx, unique_value, k as int) == run_neighbours(
                        g1,
                        idx,
                        unique_value,
                        0,
                    ),
                decreases 20 - k,
            {
                let ghost cur = self@;
                proof {
                    lemma_peer_at(idx, k as int);
                    lemma_cell_index(peer_at(idx, k as int));
                }
                let ok = self.eliminate(&neighbours[k], unique_value);
                proof {
                    lemma_neighbour_done(g0, idx, value, cur, k as int, unique_value, self@, ok);
                    lemma_refines_total(self@, cur);
                }
                if !ok {
                    return false;
                }
                k += 1;
            }
            proof {
                lemma_naked_around(self@, idx, unique_value);
            }
        }
        proof {
            assert(run_eliminate(g0, idx, value) == run_units(self@, idx, value, 0));
        }
        let units = constants.units(cell);
        let mut m: usize = 0;
        while m < units.len()
            invariant
                g0 == old(self)@,
                self.constants() == old(self).constants(),
                self.wf(),
                valid_cell(*cell),
                idx == index_of(*cell),
                units@.len() == 3,
                forall|q: int|
                    0 <= q < 3 ==> (#[trigger] units@[q])@ == unit_seq(units_of(idx)[q]),
                underway(g0, idx, value, self@),
                naked_around(self@, idx),
                m <= 3,
                units_done(self@, idx, value, m as int),
                run_eliminate(g0, idx, value) == run_units(self@, idx, value, m as int),
            decreases 3 - m,
        {
            let ghost u = units_of(idx)[m as int];
            let ghost cur = self@;
            proof {
                lemma_units_of(idx);
                assert(units@[m as int]@ == unit_seq(u));
            }
            let places_with_value = self.places_with(&units[m], value, Ghost(u));
            if places_with_value.len() == 0 {
                proof {
                    lemma_no_place(g0, idx, value, cur, u);
                }
                return false;
            } else if places_with_value.len() == 1 {
                let ghost k = choose|k: int|
                    0 <= k < 9 && places_with_value@[0] == cell_at(unit_cell(u, k))
                        && #[trigger] sole_place(cur, u, k, value);
                proof {
                    lemma_unit_cell(u, k);
                    lemma_cell_index(unit_cell(u, k));
                }
                let ok = self.assign(&places_with_value[0], value);
                proof {
                    lemma_one_place(g0, idx, value, cur, m as int, k, self@, ok);
                    lemma_refines_total(self@, cur);
                }
                if !ok {
                    return false;
                }
            } else {
                proof {
                    lemma_more_places(cur, idx, value, m as int);
                }
            }
            m += 1;
        }
        proof {
            lemma_followed_up(g0, idx, value, self@);
        }
        true
    }

    /// Leaves `value` as the only candidate of `cell`, by eliminating every
    /// other candidate in turn.
    ///
    /// Returns `false` as soon as one elimination fails; the grid is then of
    /// no further use. On `true` every rule that held before holds again,
    /// and no consistent board within the old one that has `value` in
    /// `cell` is lost. On every board, consistent or not, what is left is
    /// what `run_assign` says.
    pub fn assign(&mut self, cell: &Cell, value: u8) -> (ok: bool)
        requires
            old(self).wf(),
            valid_cell(*cell),
        ensures
            final(self).wf(),
            final(self).constants() == old(self).constants(),
            assigned(old(self)@, index_of(*cell), value, final(self)@, ok),
            run_assign(old(self)@, index_of(*cell), value) == (final(self)@, ok),
        decreases total(old(self)@), 1nat,
    {
        let ghost g0 = self@;
        let ghost idx = index_of(*cell);
        let options_to_remove = self.cells_options[cell_index(cell)].other_than(value);
        proof {
            lemma_settling_start(g0, idx, value);
        }
        let mut k: usize = 0;
        while k < options_to_remove.len()
            invariant
                g0 == old(self)@,
                self.constants() == old(self).constants(),
                self.wf(),
                valid_cell(*cell),
                idx == index_of(*cell),
                options_to_remove@ == without(g0[idx], value),
                k <= options_to_remove@.len(),
                settling(g0, idx, value, self@, k as int),
                run_assign(g0, idx, value) == run_others(
                    self@,
                    idx,
                    options_to_remove@,
                    k as int,
                ),
            decreases options_to_remove@.len() - k,
        {
            let ghost cur = self@;
            proof {
                lemma_refines_total(cur, g0);
            }
            let ok = self.eliminate(cell, options_to_remove[k]);
            proof {
                lemma_settling_step(g0, idx, value, cur, k as int, self@, ok);
                lemma_refines_total(self@, cur);
            }
            if !ok {
                return false;
            }
            k += 1;
        }
        proof {
            lemma_settled(g0, idx, value, self@);
        }
        true
    }
}

} // verus!
