//! Operand generation: the size vocabulary offered to the caller and
//! the filling of a square matrix with small pseudo-random values.

use vstd::prelude::*;

verus! {

use crate::calculation::rectangular;

/// The matrix sizes a caller can pick by label.
#[derive(Clone, Copy, Debug, PartialEq, Eq, Structural)]
pub enum MatrixSize {
    Small,
    Middle,
    Big,
}

impl MatrixSize {
    /// The dimension each size label stands for.
    pub open spec fn dimension_spec(self) -> usize {
        match self {
            MatrixSize::Small => 1000,
            MatrixSize::Middle => 5000,
            MatrixSize::Big => 10000,
        }
    }

    /// Maps the size label to the dimension of the square matrix to
    /// generate.
    pub fn dimension(self) -> (n: usize)
        ensures
            n == self.dimension_spec(),
    {
        match self {
            MatrixSize::Small => 1000,
            MatrixSize::Middle => 5000,
            MatrixSize::Big => 10000,
        }
    }
}

/// Every cell of `m` is a generated value: non-negative and below 100.
pub open spec fn cells_in_range(m: Seq<Seq<i32>>) -> bool {
    forall|i: int, j: int|
        0 <= i < m.len() && 0 <= j < m[i].len() ==> 0 <= #[trigger] m[i][j] < 100
}

/// Relies on rand::random_range over `0..100`: the sampled value lies
/// in the requested range.
#[verifier::external_body]
fn random_cell() -> (v: i32)
    ensures
        0 <= v < 100,
{
    rand::random_range(0..100)
}

/// Builds a square `size x size` matrix of pseudo-random cells in
/// `[0, 100)`: the operand shape the generator hands out.
pub fn generate_matrix(size: usize) -> (m: Vec<Vec<i32>>)
    ensures
        m.deep_view().len() == size,
        rectangular(m.deep_view(), size as nat),
        cells_in_range(m.deep_view()),
{
    let mut m: Vec<Vec<i32>> = Vec::new();
    let mut i: usize = 0;
    while i < size
        invariant
            i <= size,
            m@.len() == i,
            forall|r: int| 0 <= r < i ==> (#[trigger] m@[r])@.len() == size,
            forall|r: int, c: int| 0 <= r < i && 0 <= c < size ==> 0 <= #[trigger] m@[r]@[c] < 100,
        decreases size - i,
    {
        let mut row: Vec<i32> = Vec::new();
        let mut j: usize = 0;
        while j < size
            invariant
                j <= size,
                row@.len() == j,
                forall|c: int| 0 <= c < j ==> 0 <= #[trigger] row@[c] < 100,
            decreases size - j,
        {
            row.push(random_cell());
            j = j + 1;
        }
        m.push(row);
        i = i + 1;
    }
    proof {
        assert forall|r: int| 0 <= r < size implies (#[trigger] m.deep_view()[r]).len()
            == size as nat by {
            assert(m.deep_view()[r] =~= m@[r]@);
        }
        assert forall|r: int, c: int|
            0 <= r < m.deep_view().len() && 0 <= c < m.deep_view()[r].len() implies 0
            <= #[trigger] m.deep_view()[r][c] < 100 by {
            assert(m.deep_view()[r][c] == m@[r]@[c]);
        }
    }
    m
}

} // verus!
