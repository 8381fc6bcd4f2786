//! Reading a puzzle from text.
//!
//! The digits `1` to `9` are clues, `0` and `.` stand for an empty cell, and
//! every other character is ignored. The clues and blanks fill the board in
//! row-major order. The text is read byte by byte, which comes to the same
//! as reading it character by character.
//!
//! Reading comes in two stages. First the text is taken apart into its
//! clues and blanks, and refused if it does not hold the 81 cells of a
//! board. Only then are the clues assigned, one after the other.

use crate::digits::all_digits;
use crate::rules::{
    assigned, consistent, full_board, lemma_full_board_consistent, lemma_keeps_consistent,
    lemma_within_single, refines, settles, well_formed,
};
use crate::solver::Grid;
use crate::text::{decimal, decimal_text};
use crate::topology::{cell_seq, lemma_cell_index, GridConstants};
use vstd::prelude::*;
use vstd::string::*;
use vstd::utf8::{encode_scalar, encode_utf8, has_width_1_encoding};

verus! {
/// What a character of the text stands for: a clue, a blank (0), or
/// nothing.
pub open spec fn char_token(c: char) -> Option<u8> {
    if c == '.' || c == '0' {
        Some(0u8)
    } else if '0' < c <= '9' {
        Some((c as u8 - '0' as u8) as u8)
    } else {
        None
    }
}

/// The clues and blanks that a text holds, character by character.
pub open spec fn char_tokens(text: Seq<char>) -> Seq<u8>
    decreases text.len(),
{
    if text.len() == 0 {
        Seq::empty()
    } else {
        match char_token(text[0]) {
            Some(v) => seq![v] + char_tokens(text.drop_first()),
            None => char_tokens(text.drop_first()),
        }
    }
}

/// `t` is a consistent board that has each clue among the first 81 of
/// `clues` as the only candidate of its cell.
pub open spec fn fits(t: Seq<Seq<u8>>, clues: Seq<u8>) -> bool {
    &&& consistent(t)
    &&& forall|p: int|
        0 <= p < clues.len() && p < 81 && #[trigger] clues[p] != 0 ==> t[p] == seq![clues[p]]
}

/// Some consistent board fits the clues.
pub open spec fn satisfiable(clues: Seq<u8>) -> bool {
    exists|t: Seq<Seq<u8>>| fits(t, clues)
}

/// There is a clue beyond the 81st place.
pub open spec fn overlong(clues: Seq<u8>) -> bool {
    exists|p: int| 81 <= p < clues.len() && #[trigger] clues[p] != 0
}

/// `board` is what the clues and blanks stand for: there are 81 of them,
/// and `board` is the largest consistent board that fits the clues.
pub open spec fn reads_as(clues: Seq<u8>, board: Seq<Seq<u8>>) -> bool {
    &&& clues.len() == 81
    &&& fits(board, clues)
    &&& forall|t: Seq<Seq<u8>>| #[trigger] fits(t, clues) ==> refines(t, board)
}

/// The message for clues that contradict each other.
pub open spec fn unsolvable_text() -> Seq<char> {
    "Unsolvable sudoku"@
}

/// The message for a clue beyond the 81st place.
pub open spec fn too_many_text() -> Seq<char> {
    "Number of cells larger than 81"@
}

/// The message for a text that does not hold 81 cells.
pub open spec fn wrong_count_text(n: nat) -> Seq<char> {
    "Invalid number of cells: "@ + decimal(n)
}

/// The byte of the digit `0`.
pub const ZERO: u8 = 0x30;

/// The byte of the digit `9`.
pub const NINE: u8 = 0x39;

/// The byte of the dot.
pub const DOT: u8 = 0x2e;

/// What a byte of the text stands for: a clue, a blank (0), or nothing.
pub open spec fn token(b: u8) -> Option<u8> {
    if b == DOT || b == ZERO {
        Some(0u8)
    } else if ZERO < b <= NINE {
        Some((b - ZERO) as u8)
    } else {
        None
    }
}

/// The clues and blanks that a text holds, byte by byte.
pub open spec fn tokens(text: Seq<u8>) -> Seq<u8>
    decreases text.len(),
{
    if text.len() == 0 {
        Seq::empty()
    } else {
        match token(text.last()) {
            Some(v) => tokens(text.drop_last()).push(v),
            None => tokens(text.drop_last()),
        }
    }
}

/// What one more byte adds to the tokens of a text.
pub proof fn lemma_tokens_push(text: Seq<u8>, b: u8)
    ensures
        tokens(text.push(b)) == match token(b) {
            Some(v) => tokens(text).push(v),
            None => tokens(text),
        },
{
    assert(text.push(b).drop_last() == text);
}

/// The tokens of two texts, one after the other.
pub proof fn lemma_tokens_concat(a: Seq<u8>, b: Seq<u8>)
    ensures
        tokens(a + b) == tokens(a) + tokens(b),
    decreases b.len(),
{
    if b.len() == 0 {
        assert(a + b == a);
        assert(tokens(a) + tokens(b) == tokens(a));
    } else {
        assert((a + b).drop_last() == a + b.drop_last());
        lemma_tokens_concat(a, b.drop_last());
        assert((a + b).last() == b.last());
        match token(b.last()) {
            Some(v) => {
                assert((tokens(a) + tokens(b.drop_last())).push(v) == tokens(a) + tokens(
                    b.drop_last(),
                ).push(v));
            },
            None => {},
        }
    }
}

/// Bytes that stand for nothing hold no tokens.
pub proof fn lemma_tokens_none(text: Seq<u8>)
    requires
        forall|i: int| 0 <= i < text.len() ==> token(#[trigger] text[i]) is None,
    ensures
        tokens(text) == Seq::<u8>::empty(),
    decreases text.len(),
{
    if text.len() > 0 {
        lemma_tokens_none(text.drop_last());
    }
}

/// The bytes of one character hold the token that the character stands for,
/// and no other: a character beyond ASCII has no byte that is a digit or a
/// dot.
pub proof fn lemma_scalar_tokens(c: char)
    ensures
        tokens(encode_scalar(c as u32)) == match char_token(c) {
            Some(v) => seq![v],
            None => Seq::<u8>::empty(),
        },
{
    let scalar = c as u32;
    let bytes = encode_scalar(scalar);
    let none = Seq::<u8>::empty();
    if has_width_1_encoding(scalar) {
        assert((scalar & 0x7F) as u8 == scalar as u8) by (bit_vector)
            requires
                scalar <= 0x7F,
        ;
        assert(bytes =~= none.push(scalar as u8));
        lemma_tokens_push(none, scalar as u8);
    } else {
        assert(forall|x: u8| #![auto] (0xC0u8 | x) >= 0x80) by (bit_vector);
        assert(forall|x: u8| #![auto] (0xE0u8 | x) >= 0x80) by (bit_vector);
        assert(forall|x: u8| #![auto] (0xF0u8 | x) >= 0x80) by (bit_vector);
        assert(forall|x: u8| #![auto] (0x80u8 | x) >= 0x80) by (bit_vector);
        assert forall|i: int| 0 <= i < bytes.len() implies token(#[trigger] bytes[i]) is None by {
            assert(bytes[i] >= 0x80);
        }
        lemma_tokens_none(bytes);
    }
}

/// Reading a text byte by byte is reading it character by character.
pub proof fn lemma_tokens_by_character(text: Seq<char>)
    ensures
        tokens(encode_utf8(text)) == char_tokens(text),
    decreases text.len(),
{
    if text.len() > 0 {
        let head = encode_scalar(text[0] as u32);
        let tail = encode_utf8(text.drop_first());
        lemma_scalar_tokens(text[0]);
        lemma_tokens_by_character(text.drop_first());
        lemma_tokens_concat(head, tail);
        match char_token(text[0]) {
            Some(v) => {},
            None => {
                assert(Seq::<u8>::empty() + char_tokens(text.drop_first()) =~= char_tokens(
                    text.drop_first(),
                ));
            },
        }
    }
}

/// `a` is the start of `b`.
pub open spec fn starts(a: Seq<u8>, b: Seq<u8>) -> bool {
    &&& a.len() <= b.len()
    &&& forall|p: int| 0 <= p < a.len() ==> b[p] == #[trigger] a[p]
}

/// Where the reading stands after the clues and blanks in `clues`: none of
/// the clues lies beyond the 81st place, and `board` is the largest
/// consistent board that fits them.
pub open spec fn reads_so_far(clues: Seq<u8>, board: Seq<Seq<u8>>) -> bool {
    &&& !overlong(clues)
    &&& fits(board, clues)
    &&& forall|t: Seq<Seq<u8>>| #[trigger] fits(t, clues) ==> refines(t, board)
}

/// Before anything is read, the board is the one on which nothing is
/// decided.
pub proof fn lemma_read_nothing()
    ensures
        reads_so_far(Seq::<u8>::empty(), full_board()),
{
    lemma_full_board_consistent();
    assert forall|t: Seq<Seq<u8>>| #[trigger]
        fits(t, Seq::<u8>::empty()) implies refines(t, full_board()) by {
        assert forall|i: int, d: u8|
            0 <= i < t.len() && #[trigger] t[i].contains(d) implies full_board()[i].contains(
            d,
        ) by {
            let p = choose|p: int| 0 <= p < t[i].len() && t[i][p] == d;
            assert(1 <= t[i][p] <= 9);
            assert(all_digits()[d - 1] == d);
        }
    }
}

/// A blank changes nothing on the board.
pub proof fn lemma_read_blank(clues: Seq<u8>, board: Seq<Seq<u8>>)
    requires
        reads_so_far(clues, board),
    ensures
        reads_so_far(clues.push(0), board),
{
    let more = clues.push(0);
    assert forall|t: Seq<Seq<u8>>| #[trigger] fits(t, more) implies refines(t, board) by {
        assert forall|p: int|
            0 <= p < clues.len() && p < 81 && #[trigger] clues[p] != 0 implies t[p] == seq![
            clues[p],
        ] by {
            assert(more[p] == clues[p]);
        }
        assert(fits(t, clues));
    }
    assert forall|p: int| 0 <= p < more.len() && p < 81 && #[trigger] more[p] != 0 implies board[p]
        == seq![more[p]] by {
        assert(more[p] == clues[p]);
    }
    assert forall|p: int| 81 <= p < more.len() implies #[trigger] more[p] == 0 by {
        if p < clues.len() {
            assert(more[p] == clues[p]);
            if clues[p] != 0 {
                assert(overlong(clues));
            }
        }
    }
}

/// A clue on the board: the digit was to be assigned to the next cell.
pub proof fn lemma_read_clue(
    clues: Seq<u8>,
    board: Seq<Seq<u8>>,
    value: u8,
    new: Seq<Seq<u8>>,
    ok: bool,
)
    requires
        reads_so_far(clues, board),
        clues.len() < 81,
        value != 0,
        well_formed(new),
        assigned(board, clues.len() as int, value, new, ok),
    ensures
        ok ==> reads_so_far(clues.push(value), new),
        !ok ==> !satisfiable(clues.push(value)),
{
    let more = clues.push(value);
    let place = clues.len() as int;
    assert forall|t: Seq<Seq<u8>>| #[trigger] fits(t, more) implies ok && refines(t, new) by {
        assert forall|p: int|
            0 <= p < clues.len() && p < 81 && #[trigger] clues[p] != 0 implies t[p] == seq![
            clues[p],
        ] by {
            assert(more[p] == clues[p]);
        }
        assert(fits(t, clues));
        assert(more[place] == value);
        assert(settles(t, board, place, value));
    }
    if ok {
        lemma_keeps_consistent(board, new);
        assert forall|p: int|
            0 <= p < more.len() && p < 81 && #[trigger] more[p] != 0 implies new[p] == seq![
            more[p],
        ] by {
            if p < place {
                assert(more[p] == clues[p]);
                assert(board[p] == seq![clues[p]]);
                assert forall|d: u8| board[p].contains(d) implies d == clues[p] by {
                    let q = choose|q: int| 0 <= q < board[p].len() && board[p][q] == d;
                }
                lemma_within_single(new, board, p, clues[p]);
            }
        }
        assert(!overlong(more));
    }
}

/// Clues that contradict each other still do when more follow.
pub proof fn lemma_starts_unsatisfiable(clues: Seq<u8>, all: Seq<u8>)
    requires
        starts(clues, all),
        !satisfiable(clues),
    ensures
        !satisfiable(all),
{
    assert forall|t: Seq<Seq<u8>>| !fits(t, all) by {
        if fits(t, all) {
            assert forall|p: int|
                0 <= p < clues.len() && p < 81 && #[trigger] clues[p] != 0 implies t[p] == seq![
                clues[p],
            ] by {
                assert(all[p] == clues[p]);
            }
            assert(fits(t, clues));
        }
    }
}

/// The clues and blanks of a text, in order: the digit for a clue, 0 for a
/// blank.
pub fn read_tokens(grid_str: &str) -> (found: Vec<u8>)
    ensures
        found@ == char_tokens(grid_str@),
{
    let bytes = grid_str.as_bytes();
    let mut found: Vec<u8> = Vec::new();
    let mut i: usize = 0;
    proof {
        lemma_tokens_by_character(grid_str@);
        assert(bytes@.take(0) == Seq::<u8>::empty());
    }
    while i < bytes.len()
        invariant
            i <= bytes@.len(),
            found@ == tokens(bytes@.take(i as int)),
        decreases bytes@.len() - i,
    {
        let c = bytes[i];
        proof {
            assert(bytes@.take(i + 1) == bytes@.take(i as int).push(c));
            lemma_tokens_push(bytes@.take(i as int), c);
        }
        if (ZERO <= c && c <= NINE) || c == DOT {
            if c != ZERO && c != DOT {
                found.push(c - ZERO);
            } else {
                found.push(0);
            }
        }
        i += 1;
    }
    proof {
        assert(bytes@.take(bytes@.len() as int) == bytes@);
    }
    found
}

/// Whether there is a clue beyond the 81st place.
pub fn clue_beyond(found: &Vec<u8>) -> (r: bool)
    ensures
        r == overlong(found@),
{
    let mut p: usize = 81;
    while p < found.len()
        invariant
            81 <= p,
            forall|q: int| 81 <= q < p && q < found@.len() ==> #[trigger] found@[q] == 0,
        decreases found@.len() - p,
    {
        if found[p] != 0 {
            return true;
        }
        p += 1;
    }
    false
}

/// Reads a puzzle and propagates its clues, one after the other, on a fresh
/// grid.
///
/// The text is settled first: a clue beyond the 81st place, or a text that
/// does not hold 81 cells, is refused before any clue is assigned. The
/// clues are assigned after that, and are refused if they contradict each
/// other. What is left is the largest consistent board that fits them.
pub fn parse_grid<'a>(grid_str: &str, grid_constants: &'a GridConstants) -> (r: Result<
    Grid<'a>,
    String,
>)
    requires
        grid_constants.wf(),
    ensures
        match r {
            Ok(grid) => {
                &&& grid.wf()
                &&& grid.constants() == *grid_constants
                &&& reads_as(char_tokens(grid_str@), grid@)
            },
            Err(message) => {
                let clues = char_tokens(grid_str@);
                if overlong(clues) {
                    message@ == too_many_text()
                } else if clues.len() != 81 {
                    message@ == wrong_count_text(clues.len())
                } else {
                    !satisfiable(clues) && message@ == unsolvable_text()
                }
            },
        },
{
    let found = read_tokens(grid_str);
    if clue_beyond(&found) {
        return Err(String::from_str("Number of cells larger than 81"));
    }
    if found.len() != 81 {
        let mut message = String::from_str("Invalid number of cells: ");
        message.append(decimal_text(found.len()).as_str());
        return Err(message);
    }
    let cells = grid_constants.cells();
    let mut grid = Grid::init(grid_constants);
    let mut count_cells: usize = 0;
    proof {
        assert(found@.take(0) == Seq::<u8>::empty());
        lemma_read_nothing();
    }
    while count_cells < 81
        invariant
            grid_constants.wf(),
            cells@ == cell_seq(),
            found@ == char_tokens(grid_str@),
            found@.len() == 81,
            count_cells <= 81,
            grid.wf(),
            grid.constants() == *grid_constants,
            reads_so_far(found@.take(count_cells as int), grid@),
        decreases 81 - count_cells,
    {
        let value = found[count_cells];
        let ghost clues = found@.take(count_cells as int);
        let ghost board = grid@;
        proof {
            assert(found@.take(count_cells + 1) == clues.push(value));
        }
        if value != 0 {
            proof {
                lemma_cell_index(count_cells as int);
            }
            let ok = grid.assign(&cells[count_cells], value);
            proof {
                lemma_read_clue(clues, board, value, grid@, ok);
            }
            if !ok {
                proof {
                    lemma_starts_unsatisfiable(clues.push(value), found@);
                }
                return Err(String::from_str("Unsolvable sudoku"));
            }
        } else {
            proof {
                lemma_read_blank(clues, board);
            }
        }
        count_cells += 1;
    }
    proof {
        assert(found@.take(81) == found@);
    }
    Ok(grid)
}

} // verus!
