//! Why a backtracking run ends: its state, read as a number, only grows.
//!
//! A state of the search is a cursor into the list of editable cells, the
//! choices committed at the cells before the cursor, and the next choice to
//! try at the cursor. Written as one digit per cell, most significant first,
//! each step of the search yields a larger number, and the number is bounded.

use vstd::prelude::*;

verus! {

/// The base of the number; every digit of a trail is below it.
pub open spec fn base() -> int {
    20
}

/// The digits of a state: twice the rank of the committed choice at each
/// cell before the cursor, one more than twice the next index at the cursor,
/// zero behind it.
pub open spec fn trail(picked: Seq<int>, next: int, cells: nat) -> Seq<int> {
    Seq::new(
        cells,
        |k: int|
            if k < picked.len() {
                2 * (picked[k] + 1)
            } else if k == picked.len() {
                2 * next + 1
            } else {
                0
            },
    )
}

/// Whether every digit lies below the base.
pub open spec fn is_digits(t: Seq<int>) -> bool {
    forall|k: int| 0 <= k < t.len() ==> 0 <= #[trigger] t[k] < base()
}

/// The number that the digits spell.
pub open spec fn weight(t: Seq<int>) -> int
    decreases t.len(),
{
    if t.len() == 0 {
        0
    } else {
        weight(t.drop_last()) * base() + t.last()
    }
}

/// The base to the power `n`: more than any number of `n` digits.
pub open spec fn limit(n: nat) -> int
    decreases n,
{
    if n == 0 {
        1
    } else {
        limit((n - 1) as nat) * base()
    }
}

/// A number of `n` digits is below the base to the power `n`.
pub proof fn lemma_weight_bound(t: Seq<int>)
    requires
        is_digits(t),
    ensures
        0 <= weight(t) < limit(t.len()),
    decreases t.len(),
{
    if t.len() > 0 {
        assert(is_digits(t.drop_last()));
        lemma_weight_bound(t.drop_last());
    }
}

/// Of two numbers with the same digits before place `p`, the one with the
/// larger digit at `p` is the larger.
pub proof fn lemma_weight_lex(s: Seq<int>, t: Seq<int>, p: int)
    requires
        s.len() == t.len(),
        is_digits(s),
        is_digits(t),
        0 <= p < s.len(),
        forall|k: int| 0 <= k < p ==> s[k] == t[k],
        s[p] < t[p],
    ensures
        weight(s) < weight(t),
    decreases s.len(),
{
    let s0 = s.drop_last();
    let t0 = t.drop_last();
    if p == s.len() - 1 {
        assert(s0 =~= t0);
    } else {
        assert(is_digits(s0));
        assert(is_digits(t0));
        lemma_weight_lex(s0, t0, p);
    }
}

/// The digits of a state are digits, given the bounds a search keeps.
pub proof fn lemma_trail_digits(picked: Seq<int>, next: int, cells: nat)
    requires
        picked.len() < cells,
        forall|k: int| 0 <= k < picked.len() ==> 0 <= #[trigger] picked[k] < 9,
        0 <= next <= 9,
    ensures
        is_digits(trail(picked, next, cells)),
        trail(picked, next, cells).len() == cells,
{
}

} // verus!
