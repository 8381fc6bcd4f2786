//! The fixed layout of the board: its 81 cells, its 27 units (rows, columns
//! and blocks), the units each cell belongs to and the cells it shares a
//! unit with.

use crate::digits::all_digits;
use vstd::arithmetic::div_mod::lemma_fundamental_div_mod_converse;
use vstd::prelude::*;

verus! {

/// A cell of the board: its row, `'A'` to `'I'`, and its column, 1 to 9.
pub type Cell = (char, u8);

/// `c` names a cell of the board.
pub open spec fn valid_cell(c: Cell) -> bool {
    'A' <= c.0 <= 'I' && 1 <= c.1 <= 9
}

/// `i` is the position of a cell in row-major order.
pub open spec fn valid_index(i: int) -> bool {
    0 <= i < 81
}

/// The position of `c` in row-major order.
pub open spec fn index_of(c: Cell) -> int {
    (c.0 as int - 'A' as int) * 9 + (c.1 as int - 1)
}

/// The cell at position `i` in row-major order.
pub open spec fn cell_at(i: int) -> Cell {
    ((i / 9 + 'A' as int) as char, (i % 9 + 1) as u8)
}

/// Positions and cells correspond one to one.
pub proof fn lemma_cell_index(i: int)
    requires
        valid_index(i),
    ensures
        valid_cell(cell_at(i)),
        index_of(cell_at(i)) == i,
{
}

/// Cells and positions correspond one to one.
pub proof fn lemma_index_cell(c: Cell)
    requires
        valid_cell(c),
    ensures
        valid_index(index_of(c)),
        cell_at(index_of(c)) == c,
{
}

/// The row, 0 to 8, of the cell at position `i`.
pub open spec fn row_of(i: int) -> int {
    i / 9
}

/// The column, 0 to 8, of the cell at position `i`.
pub open spec fn col_of(i: int) -> int {
    i % 9
}

/// The block, 0 to 8, of the cell at position `i`; blocks are numbered row
/// by row.
pub open spec fn block_of(i: int) -> int {
    (row_of(i) / 3) * 3 + col_of(i) / 3
}

/// The position of the `k`-th cell of unit `u`. Units 0 to 8 are the rows,
/// 9 to 17 the columns and 18 to 26 the blocks, each in board order; a block
/// lists its cells row by row.
pub open spec fn unit_cell(u: int, k: int) -> int {
    if u < 9 {
        u * 9 + k
    } else if u < 18 {
        k * 9 + (u - 9)
    } else {
        (((u - 18) / 3) * 3 + k / 3) * 9 + (((u - 18) % 3) * 3 + k % 3)
    }
}

/// The cell at position `i` belongs to unit `u`.
pub open spec fn unit_has(u: int, i: int) -> bool {
    if u < 9 {
        row_of(i) == u
    } else if u < 18 {
        col_of(i) == u - 9
    } else {
        block_of(i) == u - 18
    }
}

/// Where the cell at position `i` stands in unit `u`, if it belongs to it.
pub open spec fn unit_rank(u: int, i: int) -> int {
    if u < 9 {
        col_of(i)
    } else if u < 18 {
        row_of(i)
    } else {
        (row_of(i) % 3) * 3 + col_of(i) % 3
    }
}

/// The three units of the cell at position `i`: its row, its column and its
/// block.
pub open spec fn units_of(i: int) -> Seq<int> {
    seq![row_of(i), 9 + col_of(i), 18 + block_of(i)]
}

/// The cells at positions `i` and `j` are distinct and share a unit.
pub open spec fn is_peer(i: int, j: int) -> bool {
    i != j && (row_of(i) == row_of(j) || col_of(i) == col_of(j) || block_of(i) == block_of(j))
}

/// The `x`-th of the numbers from 0 that are not `skipped`.
pub open spec fn skip(x: int, skipped: int) -> int {
    if x < skipped {
        x
    } else {
        x + 1
    }
}

/// How many of the numbers from 0 below `k` are not `skipped`.
pub open spec fn before(k: int, skipped: int) -> int {
    if k <= skipped {
        k
    } else {
        k - 1
    }
}

/// The position of the `k`-th neighbour of the cell at position `i`: first
/// the 8 other cells of its row, then the 8 other cells of its column, then
/// the 4 cells of its block that lie in neither.
pub open spec fn peer_at(i: int, k: int) -> int {
    if k < 8 {
        row_of(i) * 9 + skip(k, col_of(i))
    } else if k < 16 {
        skip(k - 8, row_of(i)) * 9 + col_of(i)
    } else {
        ((row_of(i) / 3) * 3 + skip((k - 16) / 2, row_of(i) % 3)) * 9 + ((col_of(i) / 3) * 3
            + skip((k - 16) % 2, col_of(i) % 3))
    }
}

/// Where the cell at position `j` stands among the neighbours of the cell at
/// position `i`, if it is one of them.
pub open spec fn peer_rank(i: int, j: int) -> int {
    if row_of(i) == row_of(j) {
        before(col_of(j), col_of(i))
    } else if col_of(i) == col_of(j) {
        8 + before(row_of(j), row_of(i))
    } else {
        16 + before(row_of(j) % 3, row_of(i) % 3) * 2 + before(col_of(j) % 3, col_of(i) % 3)
    }
}

/// The cells of unit `u`, in order.
pub open spec fn unit_seq(u: int) -> Seq<Cell> {
    Seq::new(9, |k: int| cell_at(unit_cell(u, k)))
}

/// The neighbours of the cell at position `i`, in order.
pub open spec fn peer_seq(i: int) -> Seq<Cell> {
    Seq::new(20, |k: int| cell_at(peer_at(i, k)))
}

/// All cells, in row-major order.
pub open spec fn cell_seq() -> Seq<Cell> {
    Seq::new(81, |i: int| cell_at(i))
}

/// Row and column of the cell in row `r`, column `c`.
pub proof fn lemma_row_col(r: int, c: int)
    requires
        0 <= c < 9,
    ensures
        row_of(r * 9 + c) == r,
        col_of(r * 9 + c) == c,
{
}

/// Quotient and remainder by 3 of `a * 3 + b`.
proof fn lemma_thirds(a: int, b: int)
    requires
        0 <= b < 3,
    ensures
        (a * 3 + b) / 3 == a,
        (a * 3 + b) % 3 == b,
{
}

/// The `k`-th cell of a unit is a cell of the board, belongs to the unit and
/// stands at place `k` in it.
pub proof fn lemma_unit_cell(u: int, k: int)
    requires
        0 <= u < 27,
        0 <= k < 9,
    ensures
        valid_index(unit_cell(u, k)),
        unit_has(u, unit_cell(u, k)),
        unit_rank(u, unit_cell(u, k)) == k,
{
    if u < 9 {
        lemma_row_col(u, k);
    } else if u < 18 {
        lemma_row_col(k, u - 9);
    } else {
        let br = (u - 18) / 3;
        let bc = (u - 18) % 3;
        let r = br * 3 + k / 3;
        let c = bc * 3 + k % 3;
        lemma_row_col(r, c);
        lemma_thirds(br, k / 3);
        lemma_thirds(bc, k % 3);
    }
}

/// A cell that belongs to a unit is the cell at its place in the unit.
pub proof fn lemma_unit_rank(u: int, i: int)
    requires
        0 <= u < 27,
        valid_index(i),
        unit_has(u, i),
    ensures
        0 <= unit_rank(u, i) < 9,
        unit_cell(u, unit_rank(u, i)) == i,
{
    let r = row_of(i);
    let c = col_of(i);
    assert(i == r * 9 + c);
    if u >= 18 {
        let k = unit_rank(u, i);
        lemma_thirds(r / 3, c / 3);
        lemma_thirds(r % 3, c % 3);
        assert((u - 18) / 3 == r / 3 && (u - 18) % 3 == c / 3);
        assert(k / 3 == r % 3 && k % 3 == c % 3);
        assert(r == (r / 3) * 3 + r % 3 && c == (c / 3) * 3 + c % 3);
    }
}

/// The three units of a cell are the units it belongs to.
pub proof fn lemma_units_of(i: int)
    requires
        valid_index(i),
    ensures
        forall|m: int|
            0 <= m < 3 ==> 0 <= #[trigger] units_of(i)[m] < 27 && unit_has(units_of(i)[m], i),
        forall|u: int|
            0 <= u < 27 && #[trigger] unit_has(u, i) ==> exists|m: int|
                0 <= m < 3 && units_of(i)[m] == u,
{
    assert forall|u: int| 0 <= u < 27 && #[trigger] unit_has(u, i) implies exists|m: int|
        0 <= m < 3 && units_of(i)[m] == u by {
        let m: int = if u < 9 {
            0
        } else if u < 18 {
            1
        } else {
            2
        };
        assert(units_of(i)[m] == u);
    }
}

/// Two cells are neighbours exactly when they are distinct and some unit
/// holds both.
pub proof fn lemma_peer_shares_unit(i: int, j: int)
    requires
        valid_index(i),
        valid_index(j),
    ensures
        is_peer(i, j) <==> (i != j && exists|u: int|
            0 <= u < 27 && unit_has(u, i) && unit_has(u, j)),
{
    if is_peer(i, j) {
        let u = if row_of(i) == row_of(j) {
            row_of(i)
        } else if col_of(i) == col_of(j) {
            9 + col_of(i)
        } else {
            18 + block_of(i)
        };
        assert(0 <= u < 27 && unit_has(u, i) && unit_has(u, j));
    }
}

/// The `k`-th neighbour of a cell is a cell of the board, shares a unit with
/// it and stands at place `k` among its neighbours.
pub proof fn lemma_peer_at(i: int, k: int)
    requires
        valid_index(i),
        0 <= k < 20,
    ensures
        valid_index(peer_at(i, k)),
        is_peer(i, peer_at(i, k)),
        peer_rank(i, peer_at(i, k)) == k,
{
    let r = row_of(i);
    let c = col_of(i);
    if k < 8 {
        lemma_row_col(r, skip(k, c));
    } else if k < 16 {
        lemma_row_col(skip(k - 8, r), c);
    } else {
        let a = skip((k - 16) / 2, r % 3);
        let b = skip((k - 16) % 2, c % 3);
        lemma_row_col((r / 3) * 3 + a, (c / 3) * 3 + b);
        lemma_thirds(r / 3, a);
        lemma_thirds(c / 3, b);
    }
}

/// A cell that shares a unit with another is the cell at its place among
/// the other's neighbours.
pub proof fn lemma_peer_rank(i: int, j: int)
    requires
        valid_index(i),
        valid_index(j),
        is_peer(i, j),
    ensures
        0 <= peer_rank(i, j) < 20,
        peer_at(i, peer_rank(i, j)) == j,
{
    let r = row_of(i);
    let c = col_of(i);
    let r2 = row_of(j);
    let c2 = col_of(j);
    assert(i == r * 9 + c && j == r2 * 9 + c2);
    if r == r2 {
    } else if c == c2 {
    } else {
        let a = before(r2 % 3, r % 3);
        let b = before(c2 % 3, c % 3);
        assert(r / 3 == r2 / 3 && c / 3 == c2 / 3);
        assert(0 <= a < 2 && 0 <= b < 2);
        assert((a * 2 + b) / 2 == a && (a * 2 + b) % 2 == b);
    }
}

/// The position of a cell in row-major order.
pub fn cell_index(cell: &Cell) -> (i: usize)
    requires
        valid_cell(*cell),
    ensures
        i == index_of(*cell),
        i < 81,
{
    ((cell.0 as u32 - 'A' as u32) * 9 + (cell.1 as u32 - 1)) as usize
}

/// Whether `cell` occurs in `list`.
pub fn list_contains(list: &Vec<Cell>, cell: &Cell) -> (r: bool)
    ensures
        r == list@.contains(*cell),
{
    let mut k: usize = 0;
    while k < list.len()
        invariant
            k <= list@.len(),
            forall|j: int| 0 <= j < k ==> list@[j] != *cell,
        decreases list@.len() - k,
    {
        if list[k].0 == cell.0 && list[k].1 == cell.1 {
            return true;
        }
        k += 1;
    }
    false
}

/// Every pairing of a row with a column, row by row.
pub open spec fn cross_seq(rows: Seq<char>, cols: Seq<u8>) -> Seq<Cell> {
    Seq::new(
        rows.len() * cols.len(),
        |p: int| (rows[p / cols.len() as int], cols[p % cols.len() as int]),
    )
}

/// The names of the nine rows.
pub open spec fn row_names() -> Seq<char> {
    seq!['A', 'B', 'C', 'D', 'E', 'F', 'G', 'H', 'I']
}

/// A cell occurs in the list of a unit exactly when it belongs to the unit.
pub proof fn lemma_unit_contains(u: int, c: Cell)
    requires
        0 <= u < 27,
        valid_cell(c),
    ensures
        unit_seq(u).contains(c) <==> unit_has(u, index_of(c)),
{
    let i = index_of(c);
    lemma_index_cell(c);
    if unit_has(u, i) {
        lemma_unit_rank(u, i);
        assert(unit_seq(u)[unit_rank(u, i)] == c);
    }
    if unit_seq(u).contains(c) {
        let k = choose|k: int| 0 <= k < 9 && unit_seq(u)[k] == c;
        lemma_unit_cell(u, k);
        lemma_cell_index(unit_cell(u, k));
    }
}

/// How many neighbours of the cell at position `i` are found in its first
/// `m` units and the first `k` cells of the next.
pub open spec fn listed(i: int, m: int, k: int) -> int {
    if m == 0 {
        before(k, col_of(i))
    } else if m == 1 {
        8 + before(k, row_of(i))
    } else if m == 2 {
        16 + 2 * before(k / 3, row_of(i) % 3) + if k / 3 != row_of(i) % 3 {
            before(k % 3, col_of(i) % 3)
        } else {
            0
        }
    } else {
        20
    }
}

/// What `lemma_listing_step` says of the `k`-th cell of the `m`-th unit of
/// the cell at position `i`.
pub open spec fn listing_step(i: int, m: int, k: int) -> bool {
    let j = unit_cell(units_of(i)[m], k);
    let n = listed(i, m, k);
    &&& valid_index(j)
    &&& 0 <= n <= 20
    &&& j == i ==> listed(i, m, k + 1) == n
    &&& j != i ==> is_peer(i, j) && (listed(i, m, k + 1) == n + 1 && peer_rank(i, j) == n
        || listed(i, m, k + 1) == n && peer_rank(i, j) < n)
}

/// The step through the row of a cell.
proof fn lemma_listing_row(i: int, k: int)
    requires
        valid_index(i),
        0 <= k < 9,
    ensures
        listing_step(i, 0, k),
{
    lemma_row_col(row_of(i), k);
}

/// The step through the column of a cell.
proof fn lemma_listing_column(i: int, k: int)
    requires
        valid_index(i),
        0 <= k < 9,
    ensures
        listing_step(i, 1, k),
{
    lemma_row_col(k, col_of(i));
}

/// The step through the block of a cell.
proof fn lemma_listing_block(i: int, k: int)
    requires
        valid_index(i),
        0 <= k < 9,
    ensures
        listing_step(i, 2, k),
{
    let r = row_of(i);
    let c = col_of(i);
    let a = k / 3;
    let b = k % 3;
    let u = units_of(i)[2];
    let j = unit_cell(u, k);
    lemma_thirds(r / 3, c / 3);
    assert((u - 18) / 3 == r / 3 && (u - 18) % 3 == c / 3);
    assert(j == ((r / 3) * 3 + a) * 9 + ((c / 3) * 3 + b));
    lemma_row_col((r / 3) * 3 + a, (c / 3) * 3 + b);
    lemma_thirds(r / 3, a);
    lemma_thirds(c / 3, b);
    assert(row_of(j) == (r / 3) * 3 + a && col_of(j) == (c / 3) * 3 + b);
    assert(row_of(j) % 3 == a && row_of(j) / 3 == r / 3);
    assert(col_of(j) % 3 == b && col_of(j) / 3 == c / 3);
    assert(block_of(j) == block_of(i));
    assert(i == r * 9 + c);
    assert(r == (r / 3) * 3 + r % 3 && c == (c / 3) * 3 + c % 3);
    assert(j == i <==> a == r % 3 && b == c % 3);
    if b == 2 {
        assert((k + 1) / 3 == a + 1 && (k + 1) % 3 == 0);
    } else {
        assert((k + 1) / 3 == a && (k + 1) % 3 == b + 1);
    }
}

/// Going through the units of a cell in order, each cell met is the cell
/// itself, a neighbour listed before, or the next neighbour to list.
pub proof fn lemma_listing_step(i: int, m: int, k: int)
    requires
        valid_index(i),
        0 <= m < 3,
        0 <= k < 9,
    ensures
        listing_step(i, m, k),
        listed(i, 0, 0) == 0,
        listed(i, m, 9) == listed(i, m + 1, 0),
{
    if m == 0 {
        lemma_listing_row(i, k);
    } else if m == 1 {
        lemma_listing_column(i, k);
    } else {
        lemma_listing_block(i, k);
    }
}

/// The rows are named from `'A'` on, and the columns numbered from 1.
pub proof fn lemma_names(a: int)
    requires
        0 <= a < 9,
    ensures
        row_names()[a] == (a + 'A' as int) as char,
        all_digits()[a] == a + 1,
        row_names().len() == 9,
        all_digits().len() == 9,
{
}

/// 1 if `x` is below `u`, else 0.
spec fn below(x: int, u: int) -> int {
    if x < u {
        1
    } else {
        0
    }
}

/// A fresh vector with the same cells.
fn copy_cells(list: &Vec<Cell>) -> (r: Vec<Cell>)
    ensures
        r@ == list@,
{
    let mut out: Vec<Cell> = Vec::new();
    let mut k: usize = 0;
    while k < list.len()
        invariant
            k <= list@.len(),
            out@ == list@.take(k as int),
        decreases list@.len() - k,
    {
        out.push(list[k]);
        assert(list@.take(k + 1) == list@.take(k as int).push(list@[k as int]));
        k += 1;
    }
    assert(list@.take(list@.len() as int) == list@);
    out
}

/// A fresh vector with the same lists of cells.
fn copy_lists(lists: &Vec<Vec<Cell>>) -> (r: Vec<Vec<Cell>>)
    ensures
        r@.len() == lists@.len(),
        forall|i: int| 0 <= i < r@.len() ==> (#[trigger] r@[i])@ == lists@[i]@,
{
    let mut out: Vec<Vec<Cell>> = Vec::new();
    let mut k: usize = 0;
    while k < lists.len()
        invariant
            k <= lists@.len(),
            out@.len() == k,
            forall|i: int| 0 <= i < k ==> (#[trigger] out@[i])@ == lists@[i]@,
        decreases lists@.len() - k,
    {
        out.push(copy_cells(&lists[k]));
        k += 1;
    }
    out
}

/// The 27 units: each row, then each column, then each block.
fn board_units(rows: &Vec<char>, cols: &Vec<u8>) -> (unitlist: Vec<Vec<Cell>>)
    requires
        rows@ == row_names(),
        cols@ == all_digits(),
    ensures
        unitlist@.len() == 27,
        forall|u: int| 0 <= u < 27 ==> (#[trigger] unitlist@[u])@ == unit_seq(u),
{
    let mut unitlist: Vec<Vec<Cell>> = Vec::new();
    let mut a: usize = 0;
    while a < 9
        invariant
            rows@ == row_names(),
            cols@ == all_digits(),
            a <= 9,
            unitlist@.len() == a,
            forall|u: int| 0 <= u < a ==> (#[trigger] unitlist@[u])@ == unit_seq(u),
        decreases 9 - a,
    {
        let row = vec![rows[a]];
        let unit = GridConstants::cross(row.as_slice(), cols.as_slice());
        proof {
            lemma_names(a as int);
            assert(row@.len() * cols@.len() == 9) by (nonlinear_arith)
                requires
                    row@.len() == 1,
                    cols@.len() == 9,
            ;
            assert forall|p: int| 0 <= p < 9 implies unit@[p] == unit_seq(a as int)[p] by {
                lemma_row_col(a as int, p);
                lemma_names(p);
            }
            assert(unit@ =~= unit_seq(a as int));
        }
        unitlist.push(unit);
        a += 1;
    }
    let mut b: usize = 0;
    while b < 9
        invariant
            rows@ == row_names(),
            cols@ == all_digits(),
            b <= 9,
            unitlist@.len() == 9 + b,
            forall|u: int| 0 <= u < 9 + b ==> (#[trigger] unitlist@[u])@ == unit_seq(u),
        decreases 9 - b,
    {
        let col = vec![cols[b]];
        let unit = GridConstants::cross(rows.as_slice(), col.as_slice());
        proof {
            lemma_names(b as int);
            assert(rows@.len() * col@.len() == 9) by (nonlinear_arith)
                requires
                    rows@.len() == 9,
                    col@.len() == 1,
            ;
            assert forall|p: int| 0 <= p < 9 implies unit@[p] == unit_seq(9 + b)[p] by {
                lemma_row_col(p, b as int);
                lemma_names(p);
            }
            assert(unit@ =~= unit_seq(9 + b));
        }
        unitlist.push(unit);
        b += 1;
    }
    let mut br: usize = 0;
    while br < 3
        invariant
            rows@ == row_names(),
            cols@ == all_digits(),
            br <= 3,
            unitlist@.len() == 18 + br * 3,
            forall|u: int| 0 <= u < 18 + br * 3 ==> (#[trigger] unitlist@[u])@ == unit_seq(u),
        decreases 3 - br,
    {
        let block_chars = vec![rows[br * 3], rows[br * 3 + 1], rows[br * 3 + 2]];
        let mut bc: usize = 0;
        while bc < 3
            invariant
                rows@ == row_names(),
                cols@ == all_digits(),
                br < 3,
                bc <= 3,
                block_chars@ == seq![
                    rows@[br * 3],
                    rows@[br * 3 + 1],
                    rows@[br * 3 + 2],
                ],
                unitlist@.len() == 18 + br * 3 + bc,
                forall|u: int|
                    0 <= u < 18 + br * 3 + bc ==> (#[trigger] unitlist@[u])@ == unit_seq(u),
            decreases 3 - bc,
        {
            let block_digits = vec![cols[bc * 3], cols[bc * 3 + 1], cols[bc * 3 + 2]];
            let unit = GridConstants::cross(block_chars.as_slice(), block_digits.as_slice());
            proof {
                let u = 18 + br * 3 + bc;
                lemma_thirds(br as int, bc as int);
                lemma_names(0);
                assert(block_chars@.len() * block_digits@.len() == 9) by (nonlinear_arith)
                    requires
                        block_chars@.len() == 3,
                        block_digits@.len() == 3,
                ;
                assert forall|p: int| 0 <= p < 9 implies unit@[p] == unit_seq(u)[p] by {
                    lemma_row_col(br * 3 + p / 3, bc * 3 + p % 3);
                    lemma_names(br * 3 + p / 3);
                    lemma_names(bc * 3 + p % 3);
                }
                assert(unit@ =~= unit_seq(u));
            }
            unitlist.push(unit);
            bc += 1;
        }
        br += 1;
    }
    unitlist
}

/// The units among `unitlist` that `cell` belongs to, in their order.
fn units_containing(unitlist: &Vec<Vec<Cell>>, cell: &Cell) -> (found: Vec<Vec<Cell>>)
    requires
        valid_cell(*cell),
        unitlist@.len() == 27,
        forall|u: int| 0 <= u < 27 ==> (#[trigger] unitlist@[u])@ == unit_seq(u),
    ensures
        found@.len() == 3,
        forall|m: int|
            0 <= m < 3 ==> (#[trigger] found@[m])@ == unit_seq(units_of(index_of(*cell))[m]),
{
    let ghost i = index_of(*cell);
    let ghost u0 = units_of(i)[0];
    let ghost u1 = units_of(i)[1];
    let ghost u2 = units_of(i)[2];
    proof {
        lemma_index_cell(*cell);
        lemma_units_of(i);
    }
    let mut found: Vec<Vec<Cell>> = Vec::new();
    let mut u: usize = 0;
    while u < 27
        invariant
            valid_cell(*cell),
            i == index_of(*cell),
            valid_index(i),
            u0 == units_of(i)[0],
            u1 == units_of(i)[1],
            u2 == units_of(i)[2],
            0 <= u0 < 9 <= u1 < 18 <= u2 < 27,
            unitlist@.len() == 27,
            forall|q: int| 0 <= q < 27 ==> (#[trigger] unitlist@[q])@ == unit_seq(q),
            u <= 27,
            found@.len() == below(u0, u as int) + below(u1, u as int) + below(u2, u as int),
            u0 < u ==> found@[0]@ == unit_seq(u0),
            u1 < u ==> found@[1]@ == unit_seq(u1),
            u2 < u ==> found@[2]@ == unit_seq(u2),
        decreases 27 - u,
    {
        proof {
            lemma_unit_contains(u as int, *cell);
            assert(unitlist@[u as int]@ == unit_seq(u as int));
        }
        if list_contains(&unitlist[u], cell) {
            let unit = copy_cells(&unitlist[u]);
            found.push(unit);
        }
        u += 1;
    }
    proof {
        assert forall|m: int| 0 <= m < 3 implies (#[trigger] found@[m])@ == unit_seq(
            units_of(i)[m],
        ) by {}
    }
    found
}

/// The cells of `units` other than `cell`, each listed once, in the order
/// in which they are met.
fn neighbours_of(units: &Vec<Vec<Cell>>, cell: &Cell) -> (found: Vec<Cell>)
    requires
        valid_cell(*cell),
        units@.len() == 3,
        forall|m: int|
            0 <= m < 3 ==> (#[trigger] units@[m])@ == unit_seq(units_of(index_of(*cell))[m]),
    ensures
        found@ == peer_seq(index_of(*cell)),
{
    let ghost i = index_of(*cell);
    proof {
        lemma_index_cell(*cell);
        lemma_listing_step(i, 0, 0);
    }
    let mut found: Vec<Cell> = Vec::new();
    let mut m: usize = 0;
    while m < 3
        invariant
            valid_cell(*cell),
            i == index_of(*cell),
            valid_index(i),
            units@.len() == 3,
            forall|q: int| 0 <= q < 3 ==> (#[trigger] units@[q])@ == unit_seq(units_of(i)[q]),
            m <= 3,
            0 <= listed(i, m as int, 0) <= 20,
            found@ == peer_seq(i).take(listed(i, m as int, 0)),
        decreases 3 - m,
    {
        let unit = &units[m];
        let mut k: usize = 0;
        while k < 9
            invariant
                valid_cell(*cell),
                i == index_of(*cell),
                valid_index(i),
                m < 3,
                unit@ == unit_seq(units_of(i)[m as int]),
                k <= 9,
                0 <= listed(i, m as int, k as int) <= 20,
                k == 9 ==> listed(i, m as int, 9) == listed(i, m + 1, 0),
                found@ == peer_seq(i).take(listed(i, m as int, k as int)),
            decreases 9 - k,
        {
            let c = unit[k];
            let ghost j = unit_cell(units_of(i)[m as int], k as int);
            let ghost n = listed(i, m as int, k as int);
            proof {
                lemma_listing_step(i, m as int, k as int);
                lemma_cell_index(j);
                if j != i {
                    lemma_peer_rank(i, j);
                    let q = peer_rank(i, j);
                    if q < n {
                        assert(found@[q] == c);
                    } else {
                        assert forall|p: int| 0 <= p < n implies found@[p] != c by {
                            lemma_peer_at(i, p);
                            lemma_cell_index(peer_at(i, p));
                        }
                        assert(peer_seq(i).take(n + 1) == peer_seq(i).take(n).push(c));
                    }
                }
            }
            if !(c.0 == cell.0 && c.1 == cell.1) && !list_contains(&found, &c) {
                found.push(c);
            }
            k += 1;
            proof {
                if k == 9 {
                    lemma_listing_step(i, m as int, 8);
                } else {
                    lemma_listing_step(i, m as int, k as int);
                }
            }
        }
        m += 1;
    }
    proof {
        assert(peer_seq(i).take(20) == peer_seq(i));
    }
    found
}

/// The board's layout, computed once and shared by every grid.
pub struct GridConstants {
    cols: Vec<u8>,
    cells: Vec<Cell>,
    /// All rows, then all columns, then all blocks.
    unitlist: Vec<Vec<Cell>>,
    /// For each cell, by position, the units it belongs to.
    units: Vec<Vec<Vec<Cell>>>,
    /// For each cell, by position, the cells that share a unit with it.
    neighbours: Vec<Vec<Cell>>,
}

impl Clone for GridConstants {
    /// A copy of the tables.
    fn clone(&self) -> (r: Self)
        ensures
            self.wf() ==> r.wf(),
    {
        let mut units: Vec<Vec<Vec<Cell>>> = Vec::new();
        let mut i: usize = 0;
        while i < self.units.len()
            invariant
                i <= self.units@.len(),
                units@.len() == i,
                forall|q: int|
                    0 <= q < i ==> (#[trigger] units@[q])@.len() == self.units@[q]@.len(),
                forall|q: int, m: int|
                    0 <= q < i && 0 <= m < units@[q]@.len() ==> (#[trigger] units@[q]@[m])@
                        == self.units@[q]@[m]@,
            decreases self.units@.len() - i,
        {
            units.push(copy_lists(&self.units[i]));
            i += 1;
        }
        GridConstants {
            cols: self.cols.clone(),
            cells: copy_cells(&self.cells),
            unitlist: copy_lists(&self.unitlist),
            units,
            neighbours: copy_lists(&self.neighbours),
        }
    }
}

impl GridConstants {
    /// The tables hold the layout of the 9x9 board, each entry in its place.
    pub closed spec fn wf(&self) -> bool {
        &&& self.cols@ == all_digits()
        &&& self.cells@ == cell_seq()
        &&& self.unitlist@.len() == 27
        &&& forall|u: int| 0 <= u < 27 ==> (#[trigger] self.unitlist@[u])@ == unit_seq(u)
        &&& self.units@.len() == 81
        &&& forall|i: int| 0 <= i < 81 ==> (#[trigger] self.units@[i])@.len() == 3
        &&& forall|i: int, m: int|
            0 <= i < 81 && 0 <= m < 3 ==> (#[trigger] self.units@[i]@[m])@ == unit_seq(
                units_of(i)[m],
            )
        &&& self.neighbours@.len() == 81
        &&& forall|i: int| 0 <= i < 81 ==> (#[trigger] self.neighbours@[i])@ == peer_seq(i)
    }

    /// The layout of the 9x9 board.
    pub fn init() -> (r: GridConstants)
        ensures
            r.wf(),
    {
        let rows = vec!['A', 'B', 'C', 'D', 'E', 'F', 'G', 'H', 'I'];
        let cols = vec![1u8, 2u8, 3u8, 4u8, 5u8, 6u8, 7u8, 8u8, 9u8];
        let cells = Self::cross(rows.as_slice(), cols.as_slice());
        proof {
            lemma_names(0);
            assert(rows@.len() * cols@.len() == 81) by (nonlinear_arith)
                requires
                    rows@.len() == 9,
                    cols@.len() == 9,
            ;
            assert forall|p: int| 0 <= p < 81 implies cells@[p] == cell_at(p) by {
                lemma_names(p / 9);
                lemma_names(p % 9);
            }
            assert(cells@ =~= cell_seq());
        }
        let unitlist = board_units(&rows, &cols);
        let mut units: Vec<Vec<Vec<Cell>>> = Vec::new();
        let mut i: usize = 0;
        while i < cells.len()
            invariant
                cells@ == cell_seq(),
                unitlist@.len() == 27,
                forall|u: int| 0 <= u < 27 ==> (#[trigger] unitlist@[u])@ == unit_seq(u),
                i <= 81,
                units@.len() == i,
                forall|q: int| 0 <= q < i ==> (#[trigger] units@[q])@.len() == 3,
                forall|q: int, m: int|
                    0 <= q < i && 0 <= m < 3 ==> (#[trigger] units@[q]@[m])@ == unit_seq(
                        units_of(q)[m],
                    ),
            decreases 81 - i,
        {
            proof {
                lemma_cell_index(i as int);
            }
            let units_present = units_containing(&unitlist, &cells[i]);
            units.push(units_present);
            i += 1;
        }
        let mut neighbours: Vec<Vec<Cell>> = Vec::new();
        let mut i: usize = 0;
        while i < cells.len()
            invariant
                cells@ == cell_seq(),
                units@.len() == 81,
                forall|q: int| 0 <= q < 81 ==> (#[trigger] units@[q])@.len() == 3,
                forall|q: int, m: int|
                    0 <= q < 81 && 0 <= m < 3 ==> (#[trigger] units@[q]@[m])@ == unit_seq(
                        units_of(q)[m],
                    ),
                i <= 81,
                neighbours@.len() == i,
                forall|q: int| 0 <= q < i ==> (#[trigger] neighbours@[q])@ == peer_seq(q),
            decreases 81 - i,
        {
            proof {
                lemma_cell_index(i as int);
                assert(units@[i as int]@.len() == 3);
                assert forall|m: int| 0 <= m < 3 implies (#[trigger] units@[i as int]@[m])@
                    == unit_seq(units_of(i as int)[m]) by {}
            }
            let cell_neighbours = neighbours_of(&units[i], &cells[i]);
            neighbours.push(cell_neighbours);
            i += 1;
        }
        GridConstants { cols, cells, unitlist, units, neighbours }
    }

    /// Every pairing of a row of `row_slice` with a column of `col_slice`,
    /// row by row.
    pub fn cross(row_slice: &[char], col_slice: &[u8]) -> (cells: Vec<Cell>)
        ensures
            cells@ == cross_seq(row_slice@, col_slice@),
    {
        let mut cells: Vec<Cell> = Vec::new();
        let ghost n = col_slice@.len() as int;
        let mut a: usize = 0;
        while a < row_slice.len()
            invariant
                n == col_slice@.len(),
                a <= row_slice@.len(),
                cells@.len() == a * n,
                forall|p: int|
                    0 <= p < cells@.len() ==> #[trigger] cells@[p] == (
                        row_slice@[p / n],
                        col_slice@[p % n],
                    ),
            decreases row_slice@.len() - a,
        {
            let mut b: usize = 0;
            while b < col_slice.len()
                invariant
                    n == col_slice@.len(),
                    a < row_slice@.len(),
                    b <= n,
                    cells@.len() == a * n + b,
                    forall|p: int|
                        0 <= p < cells@.len() ==> #[trigger] cells@[p] == (
                            row_slice@[p / n],
                            col_slice@[p % n],
                        ),
                decreases n - b,
            {
                proof {
                    lemma_fundamental_div_mod_converse(a * n + b, n, a as int, b as int);
                }
                cells.push((row_slice[a], col_slice[b]));
                b += 1;
            }
            proof {
                assert((a + 1) * n == a * n + n) by (nonlinear_arith);
            }
            a += 1;
        }
        proof {
            assert(cells@ =~= cross_seq(row_slice@, col_slice@));
        }
        cells
    }

    /// The digits 1 to 9, ascending.
    pub fn cols(&self) -> (r: &Vec<u8>)
        requires
            self.wf(),
        ensures
            r@ == all_digits(),
    {
        &self.cols
    }

    /// The 81 cells in row-major order.
    pub fn cells(&self) -> (r: &Vec<Cell>)
        requires
            self.wf(),
        ensures
            r@ == cell_seq(),
    {
        &self.cells
    }

    /// The 27 units: the rows, then the columns, then the blocks.
    pub fn unitlist(&self) -> (r: &Vec<Vec<Cell>>)
        requires
            self.wf(),
        ensures
            r@.len() == 27,
            forall|u: int| 0 <= u < 27 ==> (#[trigger] r@[u])@ == unit_seq(u),
    {
        &self.unitlist
    }

    /// The three units of `cell`: its row, its column, its block.
    pub fn units(&self, cell: &Cell) -> (r: &Vec<Vec<Cell>>)
        requires
            self.wf(),
            valid_cell(*cell),
        ensures
            r@.len() == 3,
            forall|m: int|
                0 <= m < 3 ==> (#[trigger] r@[m])@ == unit_seq(units_of(index_of(*cell))[m]),
    {
        &self.units[cell_index(cell)]
    }

    /// The twenty cells that share a unit with `cell`.
    pub fn neighbours(&self, cell: &Cell) -> (r: &Vec<Cell>)
        requires
            self.wf(),
            valid_cell(*cell),
        ensures
            r@ == peer_seq(index_of(*cell)),
    {
        &self.neighbours[cell_index(cell)]
    }
}

} // verus!
