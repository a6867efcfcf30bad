//! The constraint model: for each position, the letters still allowed there.

use vstd::prelude::*;
use crate::word::Word;

verus! {

/// One set of letters per position.
pub type Feasible = Seq<Set<u8>>;

/// Per-position letter feasibility, held as a grid of flags:
/// `grid[letter][position]` is set while `letter` may stand at `position`.
#[derive(Clone, Copy, Debug)]
pub struct Constraints {
    pub grid: [[bool; 5]; 26],
}

impl View for Constraints {
    type V = Feasible;

    /// The five sets of letters that the grid stands for.
    open spec fn view(&self) -> Feasible {
        Seq::new(5, |pos: int| Set::new(|letter: u8| self.allows(pos, letter)))
    }
}

/// The model in which every letter is allowed at every position.
pub open spec fn full_feasibility() -> Feasible {
    Seq::new(5, |pos: int| Set::new(|letter: u8| letter < 26))
}

/// Every letter of `w` is allowed at its position.
pub open spec fn consistent(w: Word, c: Feasible) -> bool {
    forall|i: int| 0 <= i < 5 ==> c[i].contains(#[trigger] w[i])
}

/// Every position's set of `a` lies within that of `b`.
pub open spec fn within(a: Feasible, b: Feasible) -> bool {
    forall|i: int| 0 <= i < 5 ==> (#[trigger] a[i]).subset_of(b[i])
}

impl Constraints {
    /// `letter` may stand at `pos`.
    pub open spec fn allows(&self, pos: int, letter: u8) -> bool {
        letter < 26 && self.grid[letter as int][pos]
    }

    /// The state before any guess: everything is allowed.
    pub fn full() -> (c: Constraints)
        ensures
            c@ == full_feasibility(),
    {
        let c = Constraints { grid: [[true; 5]; 26] };
        assert(c@ =~~= full_feasibility());
        c
    }

    /// Tells whether `letter` may stand at `pos`.
    pub fn permits(&self, pos: usize, letter: u8) -> (yes: bool)
        requires
            pos < 5,
        ensures
            yes == self@[pos as int].contains(letter),
    {
        letter < 26 && self.grid[letter as usize][pos]
    }

    /// Tells whether every letter of `w` is allowed at its position.
    pub fn admits(&self, w: &Word) -> (yes: bool)
        ensures
            yes == consistent(*w, self@),
    {
        let mut i: usize = 0;
        while i < 5
            invariant
                i <= 5,
                forall|k: int| 0 <= k < i ==> self@[k].contains(#[trigger] w[k]),
            decreases 5 - i,
        {
            if !self.permits(i, w[i]) {
                return false;
            }
            i += 1;
        }
        true
    }
}

} // verus!
