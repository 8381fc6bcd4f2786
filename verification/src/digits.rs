//! Candidate sets: the digits a single cell may still take.

use vstd::prelude::*;

verus! {

/// `s` with every occurrence of `value` taken out, the order of the rest kept.
pub open spec fn without(s: Seq<u8>, value: u8) -> Seq<u8> {
    s.filter(|d: u8| d != value)
}

/// A set of digits written as a sequence: digits between 1 and 9, in
/// strictly ascending order (so none occurs twice).
pub open spec fn is_digit_set(s: Seq<u8>) -> bool {
    &&& forall|i: int| 0 <= i < s.len() ==> 1 <= #[trigger] s[i] <= 9
    &&& forall|i: int, j: int| 0 <= i < j < s.len() ==> s[i] < s[j]
}

/// The full candidate set, 1 to 9.
pub open spec fn all_digits() -> Seq<u8> {
    seq![1u8, 2u8, 3u8, 4u8, 5u8, 6u8, 7u8, 8u8, 9u8]
}

/// Every member of `a` is a member of `b`.
pub open spec fn subset_of(a: Seq<u8>, b: Seq<u8>) -> bool {
    forall|d: u8| a.contains(d) ==> b.contains(d)
}

/// One step of `without`: what the last element of a non-empty sequence
/// contributes.
pub proof fn lemma_without_step(s: Seq<u8>, value: u8)
    requires
        s.len() > 0,
    ensures
        without(s, value) == if s.last() != value {
            without(s.drop_last(), value).push(s.last())
        } else {
            without(s.drop_last(), value)
        },
        without(Seq::<u8>::empty(), value) == Seq::<u8>::empty(),
{
    reveal(Seq::filter);
}

/// Membership in `without(s, value)`: the members of `s` other than `value`.
pub proof fn lemma_without_members(s: Seq<u8>, value: u8)
    ensures
        forall|d: u8| without(s, value).contains(d) <==> (s.contains(d) && d != value),
        without(s, value).len() <= s.len(),
    decreases s.len(),
{
    let r = without(s, value);
    if s.len() == 0 {
        reveal(Seq::filter);
    } else {
        let front = s.drop_last();
        let rf = without(front, value);
        lemma_without_step(s, value);
        lemma_without_members(front, value);
        assert forall|d: u8| r.contains(d) <==> (s.contains(d) && d != value) by {
            if r.contains(d) {
                let i = choose|i: int| 0 <= i < r.len() && r[i] == d;
                if i < rf.len() {
                    assert(rf[i] == d);
                    assert(rf.contains(d));
                    assert(front.contains(d));
                    let j = choose|j: int| 0 <= j < front.len() && front[j] == d;
                    assert(s[j] == d);
                } else {
                    assert(s[s.len() - 1] == d);
                }
            }
            if s.contains(d) && d != value {
                let j = choose|j: int| 0 <= j < s.len() && s[j] == d;
                if j < front.len() {
                    assert(front[j] == d);
                    assert(front.contains(d));
                    let i = choose|i: int| 0 <= i < rf.len() && rf[i] == d;
                    assert(r[i] == d);
                } else {
                    assert(r[r.len() - 1] == d);
                }
            }
        }
    }
}

/// Taking a digit out of a digit set: the result is a digit set again, it is
/// unchanged when the digit was absent and one shorter when it was present.
pub proof fn lemma_without_digit_set(s: Seq<u8>, value: u8)
    requires
        is_digit_set(s),
    ensures
        is_digit_set(without(s, value)),
        !s.contains(value) ==> without(s, value) == s,
        s.contains(value) ==> without(s, value).len() == s.len() - 1,
        forall|d: u8| without(s, value).contains(d) <==> (s.contains(d) && d != value),
    decreases s.len(),
{
    let r = without(s, value);
    lemma_without_members(s, value);
    if s.len() == 0 {
        reveal(Seq::filter);
    } else {
        let front = s.drop_last();
        let rf = without(front, value);
        lemma_without_step(s, value);
        lemma_without_digit_set(front, value);
        lemma_without_members(front, value);
        assert forall|i: int| 0 <= i < rf.len() implies #[trigger] rf[i] < s.last() by {
            assert(rf.contains(rf[i]));
            assert(front.contains(rf[i]));
            let j = choose|j: int| 0 <= j < front.len() && front[j] == rf[i];
            assert(s[j] < s[s.len() - 1]);
        }
        if s.last() != value {
            assert(is_digit_set(r));
            if !s.contains(value) {
                assert(!front.contains(value)) by {
                    if front.contains(value) {
                        let j = choose|j: int| 0 <= j < front.len() && front[j] == value;
                        assert(s[j] == value);
                    }
                }
                assert(r =~= s);
            } else {
                let j = choose|j: int| 0 <= j < s.len() && s[j] == value;
                assert(front[j] == value);
            }
        } else {
            assert(!front.contains(value)) by {
                if front.contains(value) {
                    let j = choose|j: int| 0 <= j < front.len() && front[j] == value;
                    assert(s[j] < s[s.len() - 1]);
                }
            }
            assert(s[s.len() - 1] == value);
        }
    }
}

/// A digit set within another is no longer than it.
pub proof fn lemma_subset_len(a: Seq<u8>, b: Seq<u8>)
    requires
        is_digit_set(a),
        is_digit_set(b),
        subset_of(a, b),
    ensures
        a.len() <= b.len(),
        a.len() == b.len() ==> a == b,
    decreases a.len(),
{
    if a.len() > 0 {
        let x = a.last();
        assert(a.contains(a[a.len() - 1]));
        let p = choose|p: int| 0 <= p < b.len() && b[p] == x;
        let af = a.drop_last();
        let bf = b.take(p);
        assert forall|d: u8| af.contains(d) implies bf.contains(d) by {
            let i = choose|i: int| 0 <= i < af.len() && af[i] == d;
            assert(a[i] == d);
            assert(a.contains(d));
            assert(a[i] < a[a.len() - 1]);
            let q = choose|q: int| 0 <= q < b.len() && b[q] == d;
            if q >= p {
                if q > p {
                    assert(b[p] < b[q]);
                }
            }
            assert(bf[q] == d);
        }
        lemma_subset_len(af, bf);
        if a.len() == b.len() {
            assert(af == bf);
            assert(a =~= b) by {
                assert forall|i: int| 0 <= i < a.len() implies a[i] == b[i] by {
                    if i < af.len() {
                        assert(af[i] == bf[i]);
                    }
                }
            }
        }
    } else {
        if b.len() == 0 {
            assert(a =~= b);
        }
    }
}

/// A non-empty digit set whose only possible member is `value` is `[value]`.
pub proof fn lemma_only_member(s: Seq<u8>, value: u8)
    requires
        is_digit_set(s),
        s.len() > 0,
        forall|d: u8| s.contains(d) ==> d == value,
    ensures
        s == seq![value],
{
    assert(s.contains(s[0]));
    if s.len() > 1 {
        assert(s.contains(s[1]));
        assert(s[0] < s[1]);
    }
    assert(s =~= seq![value]);
}

/// The candidates of one cell, in the order they were given.
#[derive(Debug)]
pub struct DigitOptions {
    values: Vec<u8>,
}

impl View for DigitOptions {
    type V = Seq<u8>;

    closed spec fn view(&self) -> Seq<u8> {
        self.values@
    }
}

impl Clone for DigitOptions {
    fn clone(&self) -> (r: Self)
        ensures
            r@ == self@,
    {
        DigitOptions { values: copy_digits(&self.values) }
    }
}

/// A fresh vector with the same digits.
fn copy_digits(digits: &Vec<u8>) -> (r: Vec<u8>)
    ensures
        r@ == digits@,
{
    let mut out: Vec<u8> = Vec::new();
    let mut i: usize = 0;
    while i < digits.len()
        invariant
            i <= digits@.len(),
            out@ == digits@.take(i as int),
        decreases digits@.len() - i,
    {
        out.push(digits[i]);
        assert(digits@.take(i + 1) == digits@.take(i as int).push(digits@[i as int]));
        i += 1;
    }
    assert(digits@.take(digits@.len() as int) == digits@);
    out
}

/// The digits of `digits` other than `value`, in their order.
fn digits_without(digits: &Vec<u8>, value: u8) -> (r: Vec<u8>)
    ensures
        r@ == without(digits@, value),
{
    let mut out: Vec<u8> = Vec::new();
    let mut i: usize = 0;
    proof {
        lemma_without_step(seq![value], value);
        assert(digits@.take(0) == Seq::<u8>::empty());
    }
    while i < digits.len()
        invariant
            i <= digits@.len(),
            out@ == without(digits@.take(i as int), value),
        decreases digits@.len() - i,
    {
        proof {
            let next = digits@.take(i + 1);
            assert(next.drop_last() == digits@.take(i as int));
            lemma_without_step(next, value);
        }
        if digits[i] != value {
            out.push(digits[i]);
        }
        i += 1;
    }
    assert(digits@.take(digits@.len() as int) == digits@);
    out
}

impl DigitOptions {
    /// A candidate set holding exactly `digits`.
    pub fn init(digits: Vec<u8>) -> (r: DigitOptions)
        ensures
            r@ == digits@,
    {
        DigitOptions { values: digits }
    }

    /// Takes `val` out of the candidates; nothing changes if it is absent.
    pub fn remove_option(&mut self, val: u8)
        ensures
            final(self)@ == without(old(self)@, val),
    {
        self.values = digits_without(&self.values, val);
    }

    /// Whether `value` is still a candidate.
    pub fn contains(&self, value: &u8) -> (r: bool)
        ensures
            r == self@.contains(*value),
    {
        let mut i: usize = 0;
        while i < self.values.len()
            invariant
                i <= self.values@.len(),
                forall|j: int| 0 <= j < i ==> self.values@[j] != *value,
            decreases self.values@.len() - i,
        {
            if self.values[i] == *value {
                return true;
            }
            i += 1;
        }
        false
    }

    /// The candidates other than `value`, in their order.
    pub fn other_than(&self, value: u8) -> (r: Vec<u8>)
        ensures
            r@ == without(self@, value),
    {
        digits_without(&self.values, value)
    }

    /// The sole remaining candidate, if exactly one remains.
    pub fn one_option(&self) -> (r: Option<u8>)
        ensures
            r == (if self@.len() == 1 {
                Some(self@[0])
            } else {
                None
            }),
    {
        if self.values.len() == 1 {
            Some(self.values[0])
        } else {
            None
        }
    }

    /// Whether no candidate remains.
    pub fn no_options(&self) -> (r: bool)
        ensures
            r == (self@.len() == 0),
    {
        self.values.len() == 0
    }

    /// The candidates as they stand.
    pub fn values(&self) -> (r: &Vec<u8>)
        ensures
            r@ == self@,
    {
        &self.values
    }
}

} // verus!
