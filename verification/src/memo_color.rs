//! The colours a memo card can take, and the order in which they cycle.
use vstd::prelude::*;

verus! {

/// The colour of a sticky-note memo.
#[derive(Clone, Copy, Debug, PartialEq, Eq, Structural)]
pub enum MemoColor {
    Yellow,
    Pink,
    Blue,
    Green,
    Lavender,
}

/// Position of a colour in the cycle Yellow, Pink, Blue, Green, Lavender.
pub open spec fn color_index(c: MemoColor) -> nat {
    match c {
        MemoColor::Yellow => 0,
        MemoColor::Pink => 1,
        MemoColor::Blue => 2,
        MemoColor::Green => 3,
        MemoColor::Lavender => 4,
    }
}

/// The colour at a position of the cycle (positions taken modulo the colour count).
pub open spec fn color_at(i: nat) -> MemoColor {
    let k = i % 5;
    if k == 0 {
        MemoColor::Yellow
    } else if k == 1 {
        MemoColor::Pink
    } else if k == 2 {
        MemoColor::Blue
    } else if k == 3 {
        MemoColor::Green
    } else {
        MemoColor::Lavender
    }
}

/// The colour that follows `c` in the cycle.
pub open spec fn next_color(c: MemoColor) -> MemoColor {
    color_at(color_index(c) + 1)
}

/// `n` applications of `next_color` to `c`.
pub open spec fn next_color_n(c: MemoColor, n: nat) -> MemoColor
    decreases n,
{
    if n == 0 {
        c
    } else {
        next_color(next_color_n(c, (n - 1) as nat))
    }
}

impl MemoColor {
    /// The next colour in the fixed order Yellow → Pink → Blue → Green → Lavender → Yellow.
    pub fn cycle(self) -> (next: MemoColor)
        ensures
            next == next_color(self),
            color_index(next) == (color_index(self) + 1) % 5,
    {
        match self {
            MemoColor::Yellow => MemoColor::Pink,
            MemoColor::Pink => MemoColor::Blue,
            MemoColor::Blue => MemoColor::Green,
            MemoColor::Green => MemoColor::Lavender,
            MemoColor::Lavender => MemoColor::Yellow,
        }
    }
}

/// Positions and colours correspond one to one.
pub proof fn lemma_color_index_roundtrip(c: MemoColor)
    ensures
        color_index(c) < 5,
        color_at(color_index(c)) == c,
{
}

/// The cycle visits the colours in the order Yellow, Pink, Blue, Green,
/// Lavender, and comes back to Yellow.
pub proof fn lemma_cycle_order(c: MemoColor)
    ensures
        c == MemoColor::Yellow ==> next_color(c) == MemoColor::Pink,
        c == MemoColor::Pink ==> next_color(c) == MemoColor::Blue,
        c == MemoColor::Blue ==> next_color(c) == MemoColor::Green,
        c == MemoColor::Green ==> next_color(c) == MemoColor::Lavender,
        c == MemoColor::Lavender ==> next_color(c) == MemoColor::Yellow,
{
}

/// Cycling never leaves a colour in place.
pub proof fn lemma_cycle_moves(c: MemoColor)
    ensures
        next_color(c) != c,
{
}

/// Two colours that cycle to the same colour are the same colour: cycling is a permutation.
pub proof fn lemma_cycle_injective(a: MemoColor, b: MemoColor)
    requires
        next_color(a) == next_color(b),
    ensures
        a == b,
{
}

/// Every colour is reached by cycling from some colour.
pub proof fn lemma_cycle_surjective(c: MemoColor)
    ensures
        next_color(color_at(color_index(c) + 4)) == c,
{
}

/// Cycling `n` times moves `n` positions along the cycle.
pub proof fn lemma_cycle_n_index(c: MemoColor, n: nat)
    ensures
        color_index(next_color_n(c, n)) == (color_index(c) + n) % 5,
    decreases n,
{
    if n > 0 {
        lemma_cycle_n_index(c, (n - 1) as nat);
    }
}

/// Cycling five times returns to the starting colour, and no fewer cycles do.
pub proof fn lemma_cycle_period(c: MemoColor, n: nat)
    requires
        0 < n,
    ensures
        next_color_n(c, n) == c <==> n % 5 == 0,
{
    lemma_cycle_n_index(c, n);
    lemma_color_index_roundtrip(c);
    lemma_color_index_roundtrip(next_color_n(c, n));
}

} // verus!
