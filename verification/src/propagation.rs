//! Propagation, step by step.
//!
//! An elimination takes a digit out of a cell and then follows up: on the
//! neighbours, if the cell is down to one candidate, and on the units of
//! the cell, in which the digit may have lost its last place but one. The
//! lemmas here say what each step keeps, and what the steps add up to.

use crate::digits::{is_digit_set, lemma_without_digit_set, without};
use crate::rules::{
    assigned, consistent, eliminated, excludes, hidden_around, hidden_ok, holds, keeps_closure,
    lemma_hidden_from_single, lemma_hidden_from_two, lemma_keeps_trans, lemma_refines_total,
    lemma_refines_trans, lemma_total_update, lemma_within_single, naked_around, naked_ok,
    peers_lack, refines, settles, sole_place, total, well_formed,
};
use crate::topology::{
    is_peer, lemma_peer_at, lemma_peer_rank, lemma_unit_cell, lemma_units_of, peer_at, unit_cell,
    unit_has, units_of, valid_index,
};
use vstd::prelude::*;

verus! {

/// `keeps_closure`, but for what taking `value` out of the cell at `idx`
/// puts at risk: naked single from that cell, and hidden single for `value`
/// in its units. The cell itself is not empty.
pub open spec fn kept_but(old: Seq<Seq<u8>>, new: Seq<Seq<u8>>, idx: int, value: u8) -> bool {
    &&& forall|i: int|
        0 <= i < 81 && (i == idx || old[i].len() > 0) ==> (#[trigger] new[i]).len() > 0
    &&& forall|i: int, j: int|
        valid_index(i) && valid_index(j) && is_peer(i, j) && i != idx && naked_ok(old, i, j)
            ==> #[trigger] naked_ok(new, i, j)
    &&& forall|u: int, d: u8|
        0 <= u < 27 && 1 <= d <= 9 && hidden_ok(old, u, d) && !(unit_has(u, idx) && d == value)
            ==> #[trigger] hidden_ok(new, u, d)
}

/// Every consistent board within `old` that does without `value` at `idx`
/// lies within `new`.
pub open spec fn loses_none(old: Seq<Seq<u8>>, new: Seq<Seq<u8>>, idx: int, value: u8) -> bool {
    forall|t: Seq<Seq<u8>>| #[trigger] excludes(t, old, idx, value) ==> refines(t, new)
}

/// Where an elimination stands once `value` is out of the cell at `idx` of
/// `old` and the cell is not empty: `cur` lies within `old` and has fewer
/// candidates; whatever held on `old` holds on `cur`, but for the rules
/// around the cell; and no consistent board within `old` that does without
/// `value` in the cell is lost.
pub open spec fn underway(old: Seq<Seq<u8>>, idx: int, value: u8, cur: Seq<Seq<u8>>) -> bool {
    &&& well_formed(old)
    &&& well_formed(cur)
    &&& valid_index(idx)
    &&& 1 <= value <= 9
    &&& old[idx].contains(value)
    &&& !cur[idx].contains(value)
    &&& refines(cur, old)
    &&& total(cur) < total(old)
    &&& kept_but(old, cur, idx, value)
    &&& loses_none(old, cur, idx, value)
}

/// Hidden single holds for `value` in the first `m` units of the cell at
/// `idx`.
pub open spec fn units_done(g: Seq<Seq<u8>>, idx: int, value: u8, m: int) -> bool {
    forall|q: int| 0 <= q < m ==> hidden_ok(g, #[trigger] units_of(idx)[q], value)
}

/// The first `k` neighbours of the cell at `idx` do not list `value`.
pub open spec fn neighbours_done(g: Seq<Seq<u8>>, idx: int, value: u8, k: int) -> bool {
    forall|q: int| 0 <= q < k ==> !(#[trigger] g[peer_at(idx, q)]).contains(value)
}

/// Where an assignment stands once the first `k` candidates other than
/// `value` are out of the cell at `idx` of `old`: `cur` lies within `old`,
/// whatever held on `old` holds on `cur`, and no consistent board within
/// `old` that has `value` alone in the cell is lost.
pub open spec fn settling(
    old: Seq<Seq<u8>>,
    idx: int,
    value: u8,
    cur: Seq<Seq<u8>>,
    k: int,
) -> bool {
    &&& well_formed(old)
    &&& well_formed(cur)
    &&& valid_index(idx)
    &&& refines(cur, old)
    &&& keeps_closure(old, cur)
    &&& k == 0 ==> cur == old
    &&& forall|q: int| 0 <= q < k ==> !cur[idx].contains(#[trigger] without(old[idx], value)[q])
    &&& forall|t: Seq<Seq<u8>>| #[trigger] settles(t, old, idx, value) ==> refines(t, cur)
}

/// Taking `value` out of the cell at `idx`: what follows for the board.
proof fn lemma_remove(g: Seq<Seq<u8>>, idx: int, value: u8)
    requires
        well_formed(g),
        valid_index(idx),
        g[idx].contains(value),
    ensures
        ({
            let g1 = g.update(idx, without(g[idx], value));
            &&& 1 <= value <= 9
            &&& well_formed(g1)
            &&& refines(g1, g)
            &&& total(g1) + 1 == total(g)
            &&& g1[idx].len() + 1 == g[idx].len()
            &&& !g1[idx].contains(value)
            &&& loses_none(g, g1, idx, value)
        }),
{
    let g1 = g.update(idx, without(g[idx], value));
    lemma_without_digit_set(g[idx], value);
    lemma_total_update(g, idx, without(g[idx], value));
    let p = choose|p: int| 0 <= p < g[idx].len() && g[idx][p] == value;
    assert(1 <= g[idx][p] <= 9);
    assert forall|i: int| 0 <= i < 81 implies is_digit_set(#[trigger] g1[i]) by {
        if i != idx {
            assert(g1[i] == g[i]);
        }
    }
    assert forall|t: Seq<Seq<u8>>| #[trigger] excludes(t, g, idx, value) implies refines(
        t,
        g1,
    ) by {
        assert forall|i: int, d: u8|
            0 <= i < t.len() && #[trigger] t[i].contains(d) implies g1[i].contains(d) by {
            assert(g[i].contains(d));
        }
    }
}

/// Taking `value` out of the cell at `idx` leaves naked single in place
/// from every other cell.
proof fn lemma_remove_keeps_naked(g: Seq<Seq<u8>>, idx: int, value: u8, i: int, j: int)
    requires
        well_formed(g),
        valid_index(idx),
        valid_index(i),
        valid_index(j),
        i != idx,
        naked_ok(g, i, j),
    ensures
        naked_ok(g.update(idx, without(g[idx], value)), i, j),
{
    lemma_without_digit_set(g[idx], value);
}

/// Taking `value` out of the cell at `idx` leaves hidden single in place
/// for every other digit and in every unit the cell does not belong to.
proof fn lemma_remove_keeps_hidden(g: Seq<Seq<u8>>, idx: int, value: u8, u: int, d: u8)
    requires
        well_formed(g),
        valid_index(idx),
        g[idx].contains(value),
        0 <= u < 27,
        hidden_ok(g, u, d),
        !(unit_has(u, idx) && d == value),
    ensures
        hidden_ok(g.update(idx, without(g[idx], value)), u, d),
{
    reveal(hidden_ok);
    let g1 = g.update(idx, without(g[idx], value));
    lemma_without_digit_set(g[idx], value);
    assert forall|k: int| 0 <= k < 9 implies (#[trigger] holds(g1, u, k, d) <==> holds(
        g,
        u,
        k,
        d,
    )) by {
        lemma_unit_cell(u, k);
    }
    let k0 = choose|k: int| 0 <= k < 9 && #[trigger] holds(g, u, k, d);
    assert(holds(g1, u, k0, d));
    assert forall|k: int| 0 <= k < 9 && #[trigger] sole_place(g1, u, k, d) implies g1[unit_cell(
        u,
        k,
    )] == seq![d] by {
        assert(holds(g, u, k, d));
        assert forall|k2: int| 0 <= k2 < 9 && k2 != k implies !#[trigger] holds(g, u, k2, d) by {
            assert(!holds(g1, u, k2, d));
        }
        assert(sole_place(g, u, k, d));
        lemma_unit_cell(u, k);
        if unit_cell(u, k) == idx {
            assert(g[idx] == seq![d]);
            let p = choose|p: int| 0 <= p < g[idx].len() && g[idx][p] == value;
            assert(g[idx][p] == value);
        }
    }
}

/// After the removal, `kept_but` holds between the board before and the
/// board after, provided the cell is not empty.
proof fn lemma_remove_kept(g: Seq<Seq<u8>>, idx: int, value: u8)
    requires
        well_formed(g),
        valid_index(idx),
        g[idx].contains(value),
        without(g[idx], value).len() > 0,
    ensures
        kept_but(g, g.update(idx, without(g[idx], value)), idx, value),
{
    let g1 = g.update(idx, without(g[idx], value));
    assert forall|i: int, j: int|
        valid_index(i) && valid_index(j) && is_peer(i, j) && i != idx && naked_ok(
            g,
            i,
            j,
        ) implies #[trigger] naked_ok(g1, i, j) by {
        lemma_remove_keeps_naked(g, idx, value, i, j);
    }
    assert forall|u: int, d: u8|
        0 <= u < 27 && 1 <= d <= 9 && hidden_ok(g, u, d) && !(unit_has(u, idx) && d
            == value) implies #[trigger] hidden_ok(g1, u, d) by {
        lemma_remove_keeps_hidden(g, idx, value, u, d);
    }
}

/// A consistent board within one whose cell at `idx` is down to `unique`
/// does without `unique` in every neighbour of that cell.
proof fn lemma_sound_naked(t: Seq<Seq<u8>>, g: Seq<Seq<u8>>, idx: int, n: int, unique: u8)
    requires
        consistent(t),
        refines(t, g),
        valid_index(idx),
        valid_index(n),
        is_peer(idx, n),
        g[idx] == seq![unique],
    ensures
        excludes(t, g, n, unique),
        t[idx] == seq![unique],
{
    assert(t[idx].len() > 0);
    assert forall|d: u8| g[idx].contains(d) implies d == unique by {
        let p = choose|p: int| 0 <= p < g[idx].len() && g[idx][p] == d;
    }
    lemma_within_single(t, g, idx, unique);
    assert(naked_ok(t, idx, n));
    assert(seq![unique][0] == unique);
}

/// No consistent board lies within one in which a unit has no place left
/// for a digit.
proof fn lemma_sound_no_place(t: Seq<Seq<u8>>, g: Seq<Seq<u8>>, u: int, d: u8)
    requires
        g.len() == 81,
        0 <= u < 27,
        1 <= d <= 9,
        forall|k: int| 0 <= k < 9 ==> !#[trigger] holds(g, u, k, d),
    ensures
        !(consistent(t) && refines(t, g)),
{
    if consistent(t) && refines(t, g) {
        reveal(hidden_ok);
        assert(hidden_ok(t, u, d));
        let k = choose|k: int| 0 <= k < 9 && #[trigger] holds(t, u, k, d);
        lemma_unit_cell(u, k);
        assert(t[unit_cell(u, k)].contains(d));
        assert(holds(g, u, k, d));
    }
}

/// A consistent board within one in which a digit has a single place left
/// in a unit has the digit as the only candidate there.
proof fn lemma_sound_hidden(t: Seq<Seq<u8>>, g: Seq<Seq<u8>>, u: int, k: int, d: u8)
    requires
        consistent(t),
        refines(t, g),
        g.len() == 81,
        0 <= u < 27,
        0 <= k < 9,
        1 <= d <= 9,
        sole_place(g, u, k, d),
    ensures
        settles(t, g, unit_cell(u, k), d),
{
    reveal(hidden_ok);
    assert(hidden_ok(t, u, d));
    let k0 = choose|k0: int| 0 <= k0 < 9 && #[trigger] holds(t, u, k0, d);
    lemma_unit_cell(u, k0);
    assert(t[unit_cell(u, k0)].contains(d));
    assert(holds(g, u, k0, d));
    assert(k0 == k);
    assert forall|k2: int| 0 <= k2 < 9 && k2 != k implies !#[trigger] holds(t, u, k2, d) by {
        lemma_unit_cell(u, k2);
        if holds(t, u, k2, d) {
            assert(t[unit_cell(u, k2)].contains(d));
            assert(holds(g, u, k2, d));
        }
    }
    assert(sole_place(t, u, k, d));
}

/// What `kept_but` secures stays secured over a step that keeps closure.
proof fn lemma_kept_but_step(
    old: Seq<Seq<u8>>,
    mid: Seq<Seq<u8>>,
    new: Seq<Seq<u8>>,
    idx: int,
    value: u8,
)
    requires
        kept_but(old, mid, idx, value),
        keeps_closure(mid, new),
    ensures
        kept_but(old, new, idx, value),
{
    assert forall|i: int| 0 <= i < 81 && (i == idx || old[i].len() > 0) implies (
    #[trigger] new[i]).len() > 0 by {
        assert(mid[i].len() > 0);
    }
    assert forall|i: int, j: int|
        valid_index(i) && valid_index(j) && is_peer(i, j) && i != idx && naked_ok(
            old,
            i,
            j,
        ) implies #[trigger] naked_ok(new, i, j) by {
        assert(naked_ok(mid, i, j));
    }
    assert forall|u: int, d: u8|
        0 <= u < 27 && 1 <= d <= 9 && hidden_ok(old, u, d) && !(unit_has(u, idx) && d
            == value) implies #[trigger] hidden_ok(new, u, d) by {
        assert(hidden_ok(mid, u, d));
    }
}

/// Once the rules hold again around the cell, everything that held before
/// the removal holds.
proof fn lemma_kept_but_done(old: Seq<Seq<u8>>, new: Seq<Seq<u8>>, idx: int, value: u8)
    requires
        valid_index(idx),
        kept_but(old, new, idx, value),
        naked_around(new, idx),
        hidden_around(new, idx, value),
    ensures
        keeps_closure(old, new),
{
    assert forall|i: int, j: int|
        valid_index(i) && valid_index(j) && is_peer(i, j) && naked_ok(
            old,
            i,
            j,
        ) implies #[trigger] naked_ok(new, i, j) by {
        if i == idx {
            assert(naked_ok(new, idx, j));
        }
    }
    assert forall|u: int, d: u8|
        0 <= u < 27 && 1 <= d <= 9 && hidden_ok(old, u, d) implies #[trigger] hidden_ok(
        new,
        u,
        d,
    ) by {
        if unit_has(u, idx) && d == value {
            assert(hidden_ok(new, u, value));
        }
    }
}

/// The neighbours listed for a cell cover every cell that shares a unit
/// with it: once none of the twenty lists the digit that the cell is down
/// to, naked single holds around the cell.
pub proof fn lemma_naked_around(g: Seq<Seq<u8>>, idx: int, unique: u8)
    requires
        valid_index(idx),
        g.len() == 81,
        g[idx].len() == 1 ==> g[idx][0] == unique,
        neighbours_done(g, idx, unique, 20),
    ensures
        naked_around(g, idx),
        g[idx].len() == 1 ==> peers_lack(g, idx, unique),
{
    assert forall|j: int| valid_index(j) && is_peer(idx, j) implies !(#[trigger] g[j]).contains(
        unique,
    ) by {
        lemma_peer_rank(idx, j);
    }
    assert forall|j: int| valid_index(j) && is_peer(idx, j) implies #[trigger] naked_ok(
        g,
        idx,
        j,
    ) by {
        assert(!g[j].contains(unique));
    }
}

/// The three units listed for a cell are all the units it belongs to:
/// once hidden single holds for the digit in each, it holds around the
/// cell.
proof fn lemma_hidden_around(g: Seq<Seq<u8>>, idx: int, value: u8)
    requires
        valid_index(idx),
        units_done(g, idx, value, 3),
    ensures
        hidden_around(g, idx, value),
{
    lemma_units_of(idx);
    assert forall|u: int| 0 <= u < 27 && unit_has(u, idx) implies #[trigger] hidden_ok(
        g,
        u,
        value,
    ) by {
        let m = choose|m: int| 0 <= m < 3 && units_of(idx)[m] == u;
        assert(hidden_ok(g, units_of(idx)[m], value));
    }
}

/// A digit that the cell does not list: nothing to do.
pub proof fn lemma_absent(g: Seq<Seq<u8>>, idx: int, value: u8)
    requires
        !g[idx].contains(value),
    ensures
        eliminated(g, idx, value, g, true),
{
    lemma_refines_trans(g, g, g);
    lemma_keeps_trans(g, g, g);
}

/// The digit is out of the cell: if the cell is empty now, the elimination
/// has failed; if not, it is under way, and with more than one candidate
/// left in the cell there is nothing to follow up on in the neighbours.
pub proof fn lemma_taken_out(g: Seq<Seq<u8>>, idx: int, value: u8)
    requires
        well_formed(g),
        valid_index(idx),
        g[idx].contains(value),
    ensures
        ({
            let g1 = g.update(idx, without(g[idx], value));
            &&& well_formed(g1)
            &&& g1[idx].len() == 0 ==> eliminated(g, idx, value, g1, false)
            &&& g1[idx].len() > 0 ==> underway(g, idx, value, g1)
            &&& g1[idx].len() > 1 ==> naked_around(g1, idx)
        }),
{
    let g1 = g.update(idx, without(g[idx], value));
    lemma_remove(g, idx, value);
    if g1[idx].len() == 0 {
        assert forall|t: Seq<Seq<u8>>| !#[trigger] excludes(t, g, idx, value) by {
            if excludes(t, g, idx, value) {
                assert(refines(t, g1));
                assert(t[idx].len() > 0);
                assert(t[idx].contains(t[idx][0]));
                assert(g1[idx].contains(t[idx][0]));
            }
        }
    } else {
        lemma_remove_kept(g, idx, value);
    }
}

/// One neighbour followed up on: the cell at `idx` is down to `unique`, and
/// `unique` was to be taken out of its `k`-th neighbour.
pub proof fn lemma_neighbour_done(
    old: Seq<Seq<u8>>,
    idx: int,
    value: u8,
    cur: Seq<Seq<u8>>,
    k: int,
    unique: u8,
    new: Seq<Seq<u8>>,
    ok: bool,
)
    requires
        underway(old, idx, value, cur),
        cur[idx] == seq![unique],
        0 <= k < 20,
        neighbours_done(cur, idx, unique, k),
        well_formed(new),
        eliminated(cur, peer_at(idx, k), unique, new, ok),
    ensures
        !ok ==> eliminated(old, idx, value, new, false),
        ok ==> underway(old, idx, value, new),
        ok ==> new[idx] == seq![unique],
        ok ==> neighbours_done(new, idx, unique, k + 1),
{
    let n = peer_at(idx, k);
    lemma_peer_at(idx, k);
    assert forall|t: Seq<Seq<u8>>| #[trigger] excludes(t, old, idx, value) implies ok && refines(
        t,
        new,
    ) by {
        assert(refines(t, cur));
        lemma_sound_naked(t, cur, idx, n, unique);
        assert(excludes(t, cur, n, unique));
    }
    lemma_refines_trans(new, cur, old);
    if ok {
        lemma_refines_total(new, cur);
        lemma_kept_but_step(old, cur, new, idx, value);
        assert(new[idx].len() > 0);
        assert forall|d: u8| cur[idx].contains(d) implies d == unique by {
            let p = choose|p: int| 0 <= p < cur[idx].len() && cur[idx][p] == d;
        }
        lemma_within_single(new, cur, idx, unique);
        assert forall|q: int| 0 <= q < k + 1 implies !(#[trigger] new[peer_at(idx, q)]).contains(
            unique,
        ) by {
            lemma_peer_at(idx, q);
            if q < k {
                assert(!cur[peer_at(idx, q)].contains(unique));
            }
        }
    }
}

/// The digit has no place left in a unit of the cell: the elimination has
/// failed.
pub proof fn lemma_no_place(old: Seq<Seq<u8>>, idx: int, value: u8, cur: Seq<Seq<u8>>, u: int)
    requires
        underway(old, idx, value, cur),
        0 <= u < 27,
        forall|k: int| 0 <= k < 9 ==> !#[trigger] holds(cur, u, k, value),
    ensures
        eliminated(old, idx, value, cur, false),
{
    assert forall|t: Seq<Seq<u8>>| !#[trigger] excludes(t, old, idx, value) by {
        if excludes(t, old, idx, value) {
            assert(refines(t, cur));
            lemma_sound_no_place(t, cur, u, value);
        }
    }
}

/// The digit had one place left in the `m`-th unit of the cell, and was to
/// be assigned there.
pub proof fn lemma_one_place(
    old: Seq<Seq<u8>>,
    idx: int,
    value: u8,
    cur: Seq<Seq<u8>>,
    m: int,
    k: int,
    new: Seq<Seq<u8>>,
    ok: bool,
)
    requires
        underway(old, idx, value, cur),
        naked_around(cur, idx),
        0 <= m < 3,
        units_done(cur, idx, value, m),
        0 <= k < 9,
        sole_place(cur, units_of(idx)[m], k, value),
        well_formed(new),
        assigned(cur, unit_cell(units_of(idx)[m], k), value, new, ok),
    ensures
        !ok ==> eliminated(old, idx, value, new, false),
        ok ==> underway(old, idx, value, new),
        ok ==> naked_around(new, idx),
        ok ==> units_done(new, idx, value, m + 1),
{
    let u = units_of(idx)[m];
    let place = unit_cell(u, k);
    lemma_units_of(idx);
    lemma_unit_cell(u, k);
    assert forall|t: Seq<Seq<u8>>| #[trigger] excludes(t, old, idx, value) implies ok && refines(
        t,
        new,
    ) by {
        assert(refines(t, cur));
        lemma_sound_hidden(t, cur, u, k, value);
        assert(settles(t, cur, place, value));
    }
    lemma_refines_trans(new, cur, old);
    if ok {
        lemma_refines_total(new, cur);
        assert(holds(cur, u, k, value));
        assert(cur[place].len() > 0);
        assert(new[place] == seq![value]);
        lemma_hidden_from_single(new, u, value, k);
        lemma_kept_but_step(old, cur, new, idx, value);
        assert forall|j: int| valid_index(j) && is_peer(idx, j) implies #[trigger] naked_ok(
            new,
            idx,
            j,
        ) by {
            assert(naked_ok(cur, idx, j));
        }
        assert forall|q: int| 0 <= q < m + 1 implies hidden_ok(
            new,
            #[trigger] units_of(idx)[q],
            value,
        ) by {
            if q < m {
                assert(hidden_ok(cur, units_of(idx)[q], value));
            }
        }
    }
}

/// The digit has more than one place left in the `m`-th unit of the cell:
/// nothing to follow up on there.
pub proof fn lemma_more_places(g: Seq<Seq<u8>>, idx: int, value: u8, m: int)
    requires
        units_done(g, idx, value, m),
        exists|k1: int, k2: int|
            0 <= k1 < k2 < 9 && #[trigger] holds(g, units_of(idx)[m], k1, value)
                && #[trigger] holds(g, units_of(idx)[m], k2, value),
    ensures
        units_done(g, idx, value, m + 1),
{
    let u = units_of(idx)[m];
    let (k1, k2) = choose|k1: int, k2: int|
        0 <= k1 < k2 < 9 && #[trigger] holds(g, u, k1, value) && #[trigger] holds(g, u, k2, value);
    lemma_hidden_from_two(g, u, value, k1, k2);
}

/// Every neighbour and every unit of the cell followed up on: the
/// elimination has gone through.
pub proof fn lemma_followed_up(old: Seq<Seq<u8>>, idx: int, value: u8, cur: Seq<Seq<u8>>)
    requires
        underway(old, idx, value, cur),
        naked_around(cur, idx),
        units_done(cur, idx, value, 3),
    ensures
        eliminated(old, idx, value, cur, true),
{
    lemma_hidden_around(cur, idx, value);
    lemma_kept_but_done(old, cur, idx, value);
}

/// Before the first elimination of an assignment.
pub proof fn lemma_settling_start(g: Seq<Seq<u8>>, idx: int, value: u8)
    requires
        well_formed(g),
        valid_index(idx),
    ensures
        settling(g, idx, value, g, 0),
{
    lemma_refines_trans(g, g, g);
    lemma_keeps_trans(g, g, g);
}

/// One more candidate other than `value` was to be taken out of the cell.
pub proof fn lemma_settling_step(
    old: Seq<Seq<u8>>,
    idx: int,
    value: u8,
    cur: Seq<Seq<u8>>,
    k: int,
    new: Seq<Seq<u8>>,
    ok: bool,
)
    requires
        settling(old, idx, value, cur, k),
        0 <= k < without(old[idx], value).len(),
        well_formed(new),
        eliminated(cur, idx, without(old[idx], value)[k], new, ok),
    ensures
        !ok ==> assigned(old, idx, value, new, false),
        ok ==> settling(old, idx, value, new, k + 1),
{
    let others = without(old[idx], value);
    let other = others[k];
    lemma_without_digit_set(old[idx], value);
    assert(others.contains(other));
    assert forall|t: Seq<Seq<u8>>| #[trigger] settles(t, old, idx, value) implies ok && refines(
        t,
        new,
    ) by {
        assert(refines(t, cur));
        if t[idx].contains(other) {
            let p = choose|p: int| 0 <= p < t[idx].len() && t[idx][p] == other;
        }
        assert(excludes(t, cur, idx, other));
    }
    lemma_refines_trans(new, cur, old);
    if ok {
        lemma_keeps_trans(old, cur, new);
        assert forall|q: int| 0 <= q < k + 1 implies !new[idx].contains(#[trigger] others[q]) by {
            if q < k {
                assert(!cur[idx].contains(others[q]));
            }
        }
    }
}

/// Every candidate other than `value` is out of the cell: the assignment
/// has gone through.
pub proof fn lemma_settled(old: Seq<Seq<u8>>, idx: int, value: u8, cur: Seq<Seq<u8>>)
    requires
        settling(old, idx, value, cur, without(old[idx], value).len() as int),
    ensures
        assigned(old, idx, value, cur, true),
{
    let others = without(old[idx], value);
    lemma_without_digit_set(old[idx], value);
    assert forall|d: u8| cur[idx].contains(d) implies d == value by {
        assert(old[idx].contains(d));
        if d != value {
            assert(others.contains(d));
            let q = choose|q: int| 0 <= q < others.len() && others[q] == d;
            assert(!cur[idx].contains(others[q]));
        }
    }
    if old[idx].len() > 0 {
        lemma_within_single(cur, cur, idx, value);
        if naked_around(old, idx) {
            assert(seq![value][0] == value);
            assert forall|j: int| valid_index(j) && is_peer(idx, j) implies !(
            #[trigger] cur[j]).contains(value) by {
                assert(naked_ok(old, idx, j));
                assert(naked_ok(cur, idx, j));
            }
        }
    }
}

} // verus!
