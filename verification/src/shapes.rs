//! The shapes that a world can be filled with.

use vstd::prelude::*;

verus! {

/// The six regular convex polytopes of four dimensions.
#[derive(Clone, Copy, PartialEq, Eq, Structural, Debug)]
pub enum RegularSolid {
    FiveCell,
    EightCell,
    SixteenCell,
    TwentyFourCell,
    OneTwentyCell,
    SixHundredCell,
}

impl RegularSolid {
    /// The Schläfli symbol of the solid: the number of edges around a
    /// face, of faces around an edge in a cell, and of cells around an edge.
    pub open spec fn spec_schlafli_symbol(self) -> Seq<usize> {
        match self {
            RegularSolid::FiveCell => seq![3, 3, 3],
            RegularSolid::EightCell => seq![4, 3, 3],
            RegularSolid::SixteenCell => seq![3, 3, 4],
            RegularSolid::TwentyFourCell => seq![3, 4, 3],
            RegularSolid::OneTwentyCell => seq![5, 3, 3],
            RegularSolid::SixHundredCell => seq![3, 3, 5],
        }
    }

    /// The Schläfli symbol of the solid.
    pub fn schlafli_symbol(&self) -> (symbol: [usize; 3])
        ensures
            symbol@ == self.spec_schlafli_symbol(),
    {
        let symbol: [usize; 3] = match self {
            RegularSolid::FiveCell => [3, 3, 3],
            RegularSolid::EightCell => [4, 3, 3],
            RegularSolid::SixteenCell => [3, 3, 4],
            RegularSolid::TwentyFourCell => [3, 4, 3],
            RegularSolid::OneTwentyCell => [5, 3, 3],
            RegularSolid::SixHundredCell => [3, 3, 5],
        };
        assert(symbol@ =~= self.spec_schlafli_symbol());
        symbol
    }
}

} // verus!
