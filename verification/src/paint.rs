//! The grid as text: nine lines of candidate lists, with a bar between
//! blocks and a ruled line after the third and the sixth row.

use crate::digits::{all_digits, lemma_subset_len};
use crate::parser::{lemma_tokens_concat, lemma_tokens_push, token, tokens};
use crate::rules::{solved, well_formed};
use crate::solver::Grid;
use crate::text::{decimal, decimal_text, digit_char};
use crate::topology::{cell_seq, lemma_cell_index};
use vstd::prelude::*;
use vstd::string::*;
use vstd::utf8::is_ascii_chars;

verus! {

/// The numbers of `s`, in decimal, with a comma and a space between them.
pub open spec fn items(s: Seq<u8>) -> Seq<char>
    decreases s.len(),
{
    if s.len() == 0 {
        Seq::empty()
    } else if s.len() == 1 {
        decimal(s[0] as nat)
    } else {
        items(s.drop_last()) + ", "@ + decimal(s.last() as nat)
    }
}

/// The numbers of `s` as a list in square brackets.
pub open spec fn listing(s: Seq<u8>) -> Seq<char> {
    "["@ + items(s) + "]"@
}

/// The largest number of candidates among the first `n` cells.
pub open spec fn widest(g: Seq<Seq<u8>>, n: int) -> nat
    decreases n,
{
    if n <= 0 {
        0
    } else if g[n - 1].len() > widest(g, n - 1) {
        g[n - 1].len()
    } else {
        widest(g, n - 1)
    }
}

/// `n` dashes.
pub open spec fn dashes(n: nat) -> Seq<char> {
    Seq::new(n, |i: int| '-')
}

/// The ruled line between two bands of blocks.
pub open spec fn rule(g: Seq<Seq<u8>>) -> Seq<char> {
    let run = dashes((widest(g, 81) + 2) * 3);
    run + "+"@ + run + "+"@ + run
}

/// What follows the candidates of the cell at position `i`: a bar after the
/// third and the sixth column, the end of the line after the ninth, and the
/// ruled line after the third and the sixth row.
pub open spec fn after_cell(g: Seq<Seq<u8>>, i: int) -> Seq<char> {
    if i % 9 == 2 || i % 9 == 5 {
        "|"@
    } else if i % 9 == 8 {
        if i / 9 == 2 || i / 9 == 5 {
            "\n"@ + rule(g) + "\n"@
        } else {
            "\n"@
        }
    } else {
        Seq::empty()
    }
}

/// The text for the first `n` cells.
pub open spec fn painted(g: Seq<Seq<u8>>, n: int) -> Seq<char>
    decreases n,
{
    if n <= 0 {
        Seq::empty()
    } else {
        painted(g, n - 1) + listing(g[n - 1]) + after_cell(g, n - 1)
    }
}

/// The numbers of `values` as a list in square brackets.
pub fn listing_text(values: &Vec<u8>) -> (text: String)
    ensures
        text@ == listing(values@),
{
    let mut text = String::from_str("[");
    let mut k: usize = 0;
    proof {
        assert(values@.take(0).len() == 0);
        assert(text@ =~= "["@ + items(values@.take(0)));
    }
    while k < values.len()
        invariant
            k <= values@.len(),
            text@ == "["@ + items(values@.take(k as int)),
        decreases values@.len() - k,
    {
        let ghost front = values@.take(k as int);
        let ghost next = values@.take(k + 1);
        proof {
            assert(next.drop_last() == front);
            assert(next.last() == values@[k as int]);
        }
        if k > 0 {
            text.append(", ");
        }
        let number = decimal_text(values[k] as usize);
        text.append(number.as_str());
        proof {
            if k == 0 {
                assert(front.len() == 0);
                assert(text@ =~= "["@ + items(next));
            } else {
                assert(text@ =~= "["@ + items(next));
            }
        }
        k += 1;
    }
    proof {
        assert(values@.take(values@.len() as int) == values@);
    }
    text.append("]");
    text
}

/// A run of `n` dashes.
pub fn dashes_text(n: usize) -> (text: String)
    ensures
        text@ == dashes(n as nat),
{
    let mut text = String::new();
    let mut k: usize = 0;
    proof {
        reveal_strlit("-");
        assert(text@ =~= dashes(0));
    }
    while k < n
        invariant
            k <= n,
            text@ == dashes(k as nat),
            "-"@ == seq!['-'],
        decreases n - k,
    {
        text.append("-");
        proof {
            assert(text@ =~= dashes((k + 1) as nat));
        }
        k += 1;
    }
    text
}

impl<'a> Grid<'a> {
    /// The grid as text: for each cell its candidates as a list in square
    /// brackets, nine cells to a line.
    pub fn render(&self) -> (text: String)
        requires
            self.wf(),
        ensures
            text@ == painted(self@, 81),
    {
        let cells = self.layout().cells();
        let mut max_width: usize = 0;
        let mut i: usize = 0;
        while i < cells.len()
            invariant
                self.wf(),
                cells@ == cell_seq(),
                i <= 81,
                max_width == widest(self@, i as int),
                max_width <= 9,
            decreases 81 - i,
        {
            proof {
                lemma_cell_index(i as int);
                lemma_subset_len(self@[i as int], all_digits());
            }
            let width = self.values(&cells[i]).len();
            if width > max_width {
                max_width = width;
            }
            i += 1;
        }
        max_width += 1;
        let run = dashes_text((max_width + 1) * 3);
        let mut line = String::new();
        line.append(run.as_str());
        line.append("+");
        line.append(run.as_str());
        line.append("+");
        line.append(run.as_str());
        proof {
            assert(line@ =~= rule(self@));
        }
        let mut text = String::new();
        let mut i: usize = 0;
        proof {
            assert(text@ =~= painted(self@, 0));
        }
        while i < cells.len()
            invariant
                self.wf(),
                cells@ == cell_seq(),
                i <= 81,
                line@ == rule(self@),
                text@ == painted(self@, i as int),
            decreases 81 - i,
        {
            let c = cells[i];
            let ghost start = text@;
            proof {
                lemma_cell_index(i as int);
            }
            let list = listing_text(self.values(&c));
            text.append(list.as_str());
            if c.1 == 3 || c.1 == 6 {
                text.append("|");
            }
            if c.1 == 9 {
                text.append("\n");
                if c.0 == 'C' || c.0 == 'F' {
                    text.append(line.as_str());
                    text.append("\n");
                }
            }
            proof {
                assert(text@ =~= start + listing(self@[i as int]) + after_cell(self@, i as int));
            }
            i += 1;
        }
        text
    }
}

/// A text of ASCII characters, byte by byte.
pub open spec fn ascii(text: Seq<char>) -> Seq<u8> {
    Seq::new(text.len(), |i: int| text[i] as u8)
}

/// A text of ASCII characters that holds neither a clue nor a blank.
pub open spec fn silent(text: Seq<char>) -> bool {
    forall|i: int|
        0 <= i < text.len() ==> '\0' <= #[trigger] text[i] <= '\u{7f}' && token(text[i] as u8)
            is None
}

/// A silent text has no tokens.
pub proof fn lemma_silent(text: Seq<char>)
    requires
        silent(text),
    ensures
        tokens(ascii(text)) == Seq::<u8>::empty(),
        is_ascii_chars(text),
    decreases text.len(),
{
    if text.len() > 0 {
        assert(ascii(text).drop_last() == ascii(text.drop_last()));
        lemma_silent(text.drop_last());
        assert(ascii(text).last() == text[text.len() - 1] as u8);
    }
}

/// Two ASCII texts, one after the other, byte by byte.
pub proof fn lemma_ascii_concat(a: Seq<char>, b: Seq<char>)
    ensures
        ascii(a + b) == ascii(a) + ascii(b),
        is_ascii_chars(a) && is_ascii_chars(b) ==> is_ascii_chars(a + b),
{
    assert(ascii(a + b) =~= ascii(a) + ascii(b));
}

/// What stands between the candidate lists is silent.
pub proof fn lemma_after_cell_silent(g: Seq<Seq<u8>>, i: int)
    ensures
        silent(after_cell(g, i)),
{
    reveal_strlit("|");
    reveal_strlit("\n");
    reveal_strlit("+");
}

/// The list of a single digit reads as that digit.
pub proof fn lemma_listing_single(s: Seq<u8>)
    requires
        s.len() == 1,
        1 <= s[0] <= 9,
    ensures
        tokens(ascii(listing(s))) == seq![s[0]],
        is_ascii_chars(listing(s)),
{
    reveal_strlit("[");
    reveal_strlit("]");
    let d = s[0];
    let text = listing(s);
    assert(decimal(d as nat) == seq![digit_char(d as nat)]);
    assert(text =~= seq!['[', digit_char(d as nat), ']']);
    let bytes = ascii(text);
    assert(bytes =~= seq![0x5bu8, (0x30 + d) as u8, 0x5du8]);
    let none = Seq::<u8>::empty();
    let one = seq![0x5bu8];
    let two = seq![0x5bu8, (0x30 + d) as u8];
    assert(one =~= none.push(0x5bu8));
    assert(two =~= one.push((0x30 + d) as u8));
    assert(bytes =~= two.push(0x5du8));
    lemma_tokens_push(none, 0x5bu8);
    lemma_tokens_push(one, (0x30 + d) as u8);
    lemma_tokens_push(two, 0x5du8);
    assert(tokens(two) =~= seq![d]);
    assert(tokens(bytes) == seq![d]);
}

/// The text of a board with one digit to a cell reads as those digits, cell
/// by cell.
pub proof fn lemma_painted_tokens(g: Seq<Seq<u8>>, n: int)
    requires
        well_formed(g),
        solved(g),
        0 <= n <= 81,
    ensures
        tokens(ascii(painted(g, n))) == Seq::new(n as nat, |i: int| g[i][0]),
        is_ascii_chars(painted(g, n)),
    decreases n,
{
    if n == 0 {
        assert(ascii(painted(g, 0)) == Seq::<u8>::empty());
        assert(tokens(ascii(painted(g, 0))) =~= Seq::new(0, |i: int| g[i][0]));
    } else {
        let head = painted(g, n - 1);
        let list = listing(g[n - 1]);
        let tail = after_cell(g, n - 1);
        lemma_painted_tokens(g, n - 1);
        assert(g[n - 1].len() == 1);
        assert(1 <= g[n - 1][0] <= 9);
        lemma_listing_single(g[n - 1]);
        lemma_after_cell_silent(g, n - 1);
        lemma_silent(tail);
        lemma_ascii_concat(head, list);
        lemma_ascii_concat(head + list, tail);
        lemma_tokens_concat(ascii(head), ascii(list));
        lemma_tokens_concat(ascii(head + list), ascii(tail));
        assert(tokens(ascii(painted(g, n))) =~= Seq::new(n as nat, |i: int| g[i][0]));
    }
}

} // verus!
