//! The multiplication engine: operand validation, row partitioning,
//! per-chunk computation, and order-independent assembly of the final
//! product matrix.

use vstd::prelude::*;

verus! {

use vstd::arithmetic::div_mod::{
    lemma_fundamental_div_mod,
    lemma_fundamental_div_mod_converse,
    lemma_mod_bound,
    lemma_div_is_ordered,
    lemma_div_is_ordered_by_denominator,
    lemma_div_by_self,
    lemma_div_pos_is_pos,
    lemma_multiply_divide_lt,
};
use vstd::arithmetic::mul::{
    lemma_mul_inequality,
    lemma_mul_is_distributive_add_other_way,
    lemma_mul_basics,
};

/// Why a multiplication request was rejected.
#[derive(Clone, Copy, Debug, PartialEq, Eq, Structural)]
pub enum MatrixError {
    /// The worker count was zero.
    InvalidWorkerCount,
    /// One of the operands has no rows.
    EmptyMatrix,
    /// The left operand's column count differs from the right
    /// operand's row count.
    DimensionMismatch,
}

impl MatrixError {
    /// What `message` returns for each rejection.
    pub open spec fn message_spec(&self) -> Seq<char> {
        match self {
            MatrixError::InvalidWorkerCount => "Number of workers must be greater than zero"@,
            MatrixError::EmptyMatrix => "Matrix is empty"@,
            MatrixError::DimensionMismatch => "Matrix multiplication is not possible due to dimension mismatch"@,
        }
    }

    /// The description the engine reports for this rejection.
    pub fn message(&self) -> (s: &'static str)
        ensures
            s@ == self.message_spec(),
    {
        match self {
            MatrixError::InvalidWorkerCount => "Number of workers must be greater than zero",
            MatrixError::EmptyMatrix => "Matrix is empty",
            MatrixError::DimensionMismatch => "Matrix multiplication is not possible due to dimension mismatch",
        }
    }
}

/// Every row of `m` has exactly `cols` entries.
pub open spec fn rectangular(m: Seq<Seq<i32>>, cols: nat) -> bool {
    forall|i: int| 0 <= i < m.len() ==> (#[trigger] m[i]).len() == cols
}

/// The `k`-th term of the dot product behind entry `(i, j)` of the
/// product of `a` and `b`.
pub open spec fn product_term(a: Seq<Seq<i32>>, b: Seq<Seq<i32>>, i: int, j: int, k: int) -> int {
    a[i][k] * b[k][j]
}

/// The sum of the first `k` terms of the dot product behind entry
/// `(i, j)` of the product of `a` and `b`.
pub open spec fn entry_prefix(a: Seq<Seq<i32>>, b: Seq<Seq<i32>>, i: int, j: int, k: int) -> int
    decreases k,
{
    if k <= 0 {
        0
    } else {
        entry_prefix(a, b, i, j, k - 1) + product_term(a, b, i, j, k - 1)
    }
}

/// Entry `(i, j)` of the product of `a` and `b`: the full dot product
/// of row `i` of `a` with column `j` of `b`.
pub open spec fn product_entry(a: Seq<Seq<i32>>, b: Seq<Seq<i32>>, i: int, j: int) -> int {
    entry_prefix(a, b, i, j, b.len() as int)
}

/// The product matrix of `a` and `b`: `a.len()` rows of `b[0].len()`
/// entries each.
pub open spec fn product_seq(a: Seq<Seq<i32>>, b: Seq<Seq<i32>>) -> Seq<Seq<i32>> {
    Seq::new(a.len(), |i: int| Seq::new(b[0].len(), |j: int| product_entry(a, b, i, j) as i32))
}

/// The operands pass validation: a positive worker count, no empty
/// operand, and the left operand's column count equal to the right
/// operand's row count.
pub open spec fn compatible(a: Seq<Seq<i32>>, b: Seq<Seq<i32>>, num_workers: int) -> bool {
    &&& num_workers >= 1
    &&& a.len() > 0
    &&& b.len() > 0
    &&& a[0].len() == b.len()
}

/// Every term and every partial sum of every dot product stays inside
/// the `i32` range, so the accumulation cannot overflow.
pub open spec fn entries_fit(a: Seq<Seq<i32>>, b: Seq<Seq<i32>>) -> bool {
    forall|i: int, j: int, k: int|
        0 <= i < a.len() && 0 <= j < b[0].len() && 0 <= k < b.len() ==> {
            &&& i32::MIN <= #[trigger] product_term(a, b, i, j, k) <= i32::MAX
            &&& i32::MIN <= entry_prefix(a, b, i, j, k + 1) <= i32::MAX
        }
}

/// Builds the `rowsA x colsB` matrix of zeroes that the partial
/// results are merged into.
pub fn initialize_result_matrix(matrix_a: &Vec<Vec<i32>>, matrix_b: &Vec<Vec<i32>>) -> (result: Vec<
    Vec<i32>,
>)
    requires
        matrix_b@.len() > 0,
    ensures
        result.deep_view().len() == matrix_a.deep_view().len(),
        forall|i: int|
            0 <= i < result.deep_view().len() ==> (#[trigger] result.deep_view()[i]).len()
                == matrix_b.deep_view()[0].len(),
        forall|i: int, j: int|
            0 <= i < result.deep_view().len() && 0 <= j < matrix_b.deep_view()[0].len()
                ==> #[trigger] result.deep_view()[i][j] == 0i32,
{
    let rows = matrix_a.len();
    let cols = matrix_b[0].len();
    let mut result: Vec<Vec<i32>> = Vec::new();
    let mut i: usize = 0;
    while i < rows
        invariant
            i <= rows,
            rows == matrix_a@.len(),
            cols == matrix_b.deep_view()[0].len(),
            result@.len() == i,
            forall|r: int| 0 <= r < i ==> (#[trigger] result@[r])@.len() == cols,
            forall|r: int, j: int| 0 <= r < i && 0 <= j < cols ==> result@[r]@[j] == 0i32,
        decreases rows - i,
    {
        let mut row: Vec<i32> = Vec::new();
        let mut j: usize = 0;
        while j < cols
            invariant
                j <= cols,
                row@.len() == j,
                forall|c: int| 0 <= c < j ==> row@[c] == 0i32,
            decreases cols - j,
        {
            row.push(0);
            j = j + 1;
        }
        result.push(row);
        i = i + 1;
    }
    result
}

/// Computes rows `[start_row, end_row)` of the product of the two
/// operands: one worker's share of the whole job.
#[verifier::loop_isolation(false)]
pub fn compute_partial(
    matrix_a: &Vec<Vec<i32>>,
    matrix_b: &Vec<Vec<i32>>,
    start_row: usize,
    end_row: usize,
) -> (partial: Vec<Vec<i32>>)
    requires
        start_row <= end_row <= matrix_a@.len(),
        matrix_b@.len() > 0,
        rectangular(matrix_a.deep_view(), matrix_b@.len() as nat),
        rectangular(matrix_b.deep_view(), matrix_b.deep_view()[0].len() as nat),
        entries_fit(matrix_a.deep_view(), matrix_b.deep_view()),
    ensures
        partial.deep_view() == product_seq(matrix_a.deep_view(), matrix_b.deep_view()).subrange(
            start_row as int,
            end_row as int,
        ),
{
    let ghost av = matrix_a.deep_view();
    let ghost bv = matrix_b.deep_view();
    let cols = matrix_b[0].len();
    let inner = matrix_b.len();
    let mut partial: Vec<Vec<i32>> = Vec::new();
    let mut row = start_row;
    while row < end_row
        invariant
            start_row <= row <= end_row,
            partial@.len() == row - start_row,
            forall|i: int| 0 <= i < partial@.len() ==> (#[trigger] partial@[i])@.len() == cols,
            forall|i: int, j: int|
                0 <= i < partial@.len() && 0 <= j < cols ==> partial@[i]@[j] == product_entry(
                    av,
                    bv,
                    start_row + i,
                    j,
                ) as i32,
        decreases end_row - row,
    {
        let mut out_row: Vec<i32> = Vec::new();
        let mut col: usize = 0;
        while col < cols
            invariant
                col <= cols,
                out_row@.len() == col,
                forall|j: int|
                    0 <= j < col ==> #[trigger] out_row@[j] == product_entry(
                        av,
                        bv,
                        row as int,
                        j,
                    ) as i32,
            decreases cols - col,
        {
            let mut sum: i32 = 0;
            let mut k: usize = 0;
            while k < inner
                invariant
                    k <= inner,
                    sum as int == entry_prefix(av, bv, row as int, col as int, k as int),
                decreases inner - k,
            {
                proof {
                    assert(av[row as int][k as int] == matrix_a@[row as int]@[k as int]);
                    assert(bv[k as int][col as int] == matrix_b@[k as int]@[col as int]);
                    assert(i32::MIN <= product_term(av, bv, row as int, col as int, k as int)
                        <= i32::MAX);
                }
                let term = matrix_a[row][k] * matrix_b[k][col];
                sum = sum + term;
                k = k + 1;
            }
            proof {
                assert(i32::MIN <= product_term(av, bv, row as int, col as int, inner - 1)
                    <= i32::MAX);
                assert(sum as int == product_entry(av, bv, row as int, col as int));
            }
            out_row.push(sum);
            col = col + 1;
        }
        partial.push(out_row);
        row = row + 1;
    }
    proof {
        assert(cols == bv[0].len());
        assert forall|i: int| 0 <= i < partial@.len() implies #[trigger] partial.deep_view()[i]
            == product_seq(av, bv)[start_row + i] by {
            assert(partial.deep_view()[i] =~= product_seq(av, bv)[start_row + i]);
        }
        assert(partial.deep_view() =~= product_seq(av, bv).subrange(
            start_row as int,
            end_row as int,
        ));
    }
    partial
}

/// Copies one worker's partial result into the final matrix at its
/// absolute row offset. Row index is the sole correlation key: the
/// outcome is the same whichever order the partial results arrive in,
/// and every row outside the partial's range is left untouched.
pub fn merge_partial(result: &mut Vec<Vec<i32>>, start_row: usize, partial: Vec<Vec<i32>>)
    requires
        start_row + partial@.len() <= old(result)@.len(),
    ensures
        final(result)@.len() == old(result)@.len(),
        forall|i: int| 0 <= i < partial@.len() ==> final(result)@[start_row + i] == partial@[i],
        forall|r: int|
            0 <= r < old(result)@.len() && !(start_row <= r < start_row + partial@.len())
                ==> final(result)@[r] == old(result)@[r],
{
    let ghost partial0 = partial@;
    let total = result.len();
    let mut partial = partial;
    while partial.len() > 0
        invariant
            partial@.len() <= partial0.len(),
            partial@ =~= partial0.subrange(0, partial@.len() as int),
            start_row + partial0.len() <= total,
            total == old(result)@.len(),
            result@.len() == old(result)@.len(),
            forall|i: int|
                partial@.len() <= i < partial0.len() ==> result@[start_row + i] == partial0[i],
            forall|r: int|
                0 <= r < old(result)@.len() && !(start_row <= r < start_row + partial0.len())
                    ==> result@[r] == old(result)@[r],
        decreases partial@.len(),
    {
        let i = partial.len() - 1;
        let row_vec = partial.pop().unwrap();
        proof {
            assert(row_vec == partial0[i as int]);
        }
        result[start_row + i] = row_vec;
    }
}

/// How many rows each worker is assigned: the row count divided by the
/// worker count, rounded up.
pub open spec fn chunk_size_spec(rows: int, workers: int) -> int {
    (rows + workers - 1) / workers
}

/// The first row of worker `i`'s partition (clamped to the row count:
/// late workers may own an empty range).
pub open spec fn worker_start(rows: int, workers: int, i: int) -> int {
    let s = i * chunk_size_spec(rows, workers);
    if s <= rows {
        s
    } else {
        rows
    }
}

/// One past the last row of worker `i`'s partition.
pub open spec fn worker_end(rows: int, workers: int, i: int) -> int {
    let e = (i + 1) * chunk_size_spec(rows, workers);
    if e <= rows {
        e
    } else {
        rows
    }
}

/// A chunk holds at least one row whenever there is a row to hold.
proof fn lemma_chunk_size_at_least_one(rows: int, workers: int)
    requires
        workers >= 1,
        rows >= 1,
    ensures
        chunk_size_spec(rows, workers) >= 1,
{
    lemma_div_is_ordered(workers, rows + workers - 1, workers);
    lemma_div_by_self(workers);
}

/// `workers` chunks of `chunk_size_spec` rows reach past the last row,
/// so no row is left behind the final partition.
proof fn lemma_chunks_cover(rows: int, workers: int)
    requires
        workers >= 1,
        rows >= 1,
    ensures
        workers * chunk_size_spec(rows, workers) >= rows,
{
    let x = rows + workers - 1;
    lemma_fundamental_div_mod(x, workers);
    lemma_mod_bound(x, workers);
}

/// The ceiling division behind `chunk_size_spec`, written the way the
/// engine computes it: quotient plus one when the division is inexact.
proof fn lemma_ceil_div_form(rows: int, workers: int)
    requires
        workers >= 1,
        rows >= 0,
    ensures
        chunk_size_spec(rows, workers) == rows / workers + if rows % workers == 0 {
            0int
        } else {
            1int
        },
{
    let q = rows / workers;
    let r = rows % workers;
    lemma_fundamental_div_mod(rows, workers);
    lemma_mod_bound(rows, workers);
    assert(q * workers == workers * q) by (nonlinear_arith);
    lemma_mul_is_distributive_add_other_way(workers, q, 1);
    lemma_mul_basics(workers);
    if r == 0 {
        lemma_fundamental_div_mod_converse(rows + workers - 1, workers, q, workers - 1);
    } else {
        lemma_fundamental_div_mod_converse(rows + workers - 1, workers, q + 1, r - 1);
    }
}

/// The partitions tile the rows: every row index below `rows` falls in
/// exactly one worker's range, with no gap and no overlap. Returns the
/// owning worker.
pub proof fn lemma_partition_exactly_once(rows: int, workers: int, r: int) -> (i: int)
    requires
        workers >= 1,
        1 <= rows,
        0 <= r < rows,
    ensures
        0 <= i < workers,
        worker_start(rows, workers, i) <= r < worker_end(rows, workers, i),
        forall|other: int|
            0 <= other < workers && other != i ==> !(#[trigger] worker_start(rows, workers, other)
                <= r < worker_end(rows, workers, other)),
{
    let c = chunk_size_spec(rows, workers);
    lemma_chunk_size_at_least_one(rows, workers);
    lemma_chunks_cover(rows, workers);
    let i = r / c;
    lemma_div_pos_is_pos(r, c);
    lemma_multiply_divide_lt(r, c, workers);
    lemma_fundamental_div_mod(r, c);
    lemma_mod_bound(r, c);
    assert(c * i <= r < c * i + c);
    lemma_mul_is_distributive_add_other_way(c, i, 1);
    lemma_mul_basics(c);
    assert(i * c == c * i) by (nonlinear_arith);
    assert(worker_start(rows, workers, i) <= r < worker_end(rows, workers, i));
    assert forall|other: int|
        0 <= other < workers && other != i implies !(#[trigger] worker_start(rows, workers, other)
        <= r < worker_end(rows, workers, other)) by {
        if other < i {
            lemma_mul_inequality(other + 1, i, c);
            assert(worker_end(rows, workers, other) <= i * c);
        } else {
            lemma_mul_inequality(i + 1, other, c);
            assert(worker_start(rows, workers, other) > r);
        }
    }
    i
}

/// The bounds of worker `i`'s partition of `rows` rows among
/// `num_workers` workers: a contiguous range of `chunk_size_spec` rows
/// starting at `i * chunk_size_spec`, clamped to the row count, so
/// workers past the last row own an empty range.
pub fn worker_bounds(rows: usize, num_workers: usize, i: usize) -> (bounds: (usize, usize))
    requires
        1 <= num_workers,
        i < num_workers,
    ensures
        bounds.0 as int == worker_start(rows as int, num_workers as int, i as int),
        bounds.1 as int == worker_end(rows as int, num_workers as int, i as int),
        bounds.0 <= bounds.1 <= rows,
{
    let ghost chunk_ghost = chunk_size_spec(rows as int, num_workers as int);
    if rows == 0 {
        proof {
            lemma_fundamental_div_mod_converse(
                num_workers as int - 1,
                num_workers as int,
                0,
                num_workers as int - 1,
            );
            assert(chunk_ghost == 0);
        }
        return (0, 0);
    }
    let quotient = rows / num_workers;
    let chunk_size = if rows % num_workers == 0 {
        quotient
    } else {
        proof {
            if num_workers == 1 {
                lemma_mod_bound(rows as int, 1);
            }
            lemma_div_is_ordered_by_denominator(rows as int, 2, num_workers as int);
            lemma_div_is_ordered(rows as int, usize::MAX as int, 2);
        }
        quotient + 1
    };
    proof {
        lemma_ceil_div_form(rows as int, num_workers as int);
        lemma_chunk_size_at_least_one(rows as int, num_workers as int);
        lemma_fundamental_div_mod(rows as int, chunk_size as int);
        lemma_mod_bound(rows as int, chunk_size as int);
        lemma_mul_is_distributive_add_other_way(chunk_size as int, rows as int / chunk_size as int, 1);
        assert(chunk_size as int * (rows as int / chunk_size as int) == (rows as int / chunk_size as int)
            * chunk_size as int) by (nonlinear_arith);
    }
    let start = if i > rows / chunk_size {
        proof {
            lemma_mul_inequality(rows as int / chunk_size as int + 1, i as int, chunk_size as int);
            assert(i as int * chunk_size_spec(rows as int, num_workers as int) > rows);
        }
        rows
    } else {
        proof {
            lemma_mul_inequality(i as int, rows as int / chunk_size as int, chunk_size as int);
        }
        let s = i * chunk_size;
        if s > rows {
            rows
        } else {
            s
        }
    };
    proof {
        assert(start as int == worker_start(rows as int, num_workers as int, i as int));
    }
    let end = if rows - start < chunk_size {
        proof {
            lemma_mul_is_distributive_add_other_way(chunk_size as int, i as int, 1);
            lemma_mul_basics(chunk_size as int);
            lemma_mul_inequality(i as int, i as int + 1, chunk_size as int);
        }
        rows
    } else {
        proof {
            lemma_mul_is_distributive_add_other_way(chunk_size as int, i as int, 1);
            lemma_mul_basics(chunk_size as int);
        }
        start + chunk_size
    };
    (start, end)
}

/// Checks the operands and the worker count before any work is
/// scheduled, reporting the first violation in validation order.
pub fn pre_check(matrix_a: &Vec<Vec<i32>>, matrix_b: &Vec<Vec<i32>>, num_workers: usize) -> (r:
    Option<MatrixError>)
    ensures
        num_workers == 0 ==> r == Some(MatrixError::InvalidWorkerCount),
        num_workers >= 1 && (matrix_a@.len() == 0 || matrix_b@.len() == 0) ==> r == Some(
            MatrixError::EmptyMatrix,
        ),
        num_workers >= 1 && matrix_a@.len() > 0 && matrix_b@.len() > 0 && matrix_a@[0]@.len()
            != matrix_b@.len() ==> r == Some(MatrixError::DimensionMismatch),
        r is None <==> compatible(matrix_a.deep_view(), matrix_b.deep_view(), num_workers as int),
{
    if num_workers == 0 {
        return Some(MatrixError::InvalidWorkerCount);
    }
    if matrix_a.len() == 0 || matrix_b.len() == 0 {
        return Some(MatrixError::EmptyMatrix);
    }
    if matrix_a[0].len() != matrix_b.len() {
        return Some(MatrixError::DimensionMismatch);
    }
    None
}

/// Runs the whole multiplication: partitions the rows of the left
/// operand into `num_workers` contiguous chunks, computes each chunk's
/// slice of the product, and merges every slice into the final matrix
/// at its absolute row offset. Workers past the last row own an empty
/// range and contribute nothing.
#[verifier::loop_isolation(false)]
pub fn perform_parallel_multiplication(
    matrix_a: &Vec<Vec<i32>>,
    matrix_b: &Vec<Vec<i32>>,
    num_workers: usize,
) -> (result: Vec<Vec<i32>>)
    requires
        compatible(matrix_a.deep_view(), matrix_b.deep_view(), num_workers as int),
        rectangular(matrix_a.deep_view(), matrix_b@.len() as nat),
        rectangular(matrix_b.deep_view(), matrix_b.deep_view()[0].len() as nat),
        entries_fit(matrix_a.deep_view(), matrix_b.deep_view()),
    ensures
        result.deep_view() == product_seq(matrix_a.deep_view(), matrix_b.deep_view()),
{
    let ghost av = matrix_a.deep_view();
    let ghost bv = matrix_b.deep_view();
    let rows = matrix_a.len();
    let mut result = initialize_result_matrix(matrix_a, matrix_b);
    proof {
        assert forall|r: int| 0 <= r < rows implies (#[trigger] result@[r])@.len() == bv[0].len() by {
            assert(result.deep_view()[r].len() == bv[0].len());
        }
    }
    let mut i: usize = 0;
    while i < num_workers
        invariant
            i <= num_workers,
            result@.len() == rows,
            forall|r: int|
                0 <= r < rows ==> (#[trigger] result@[r])@.len() == bv[0].len(),
            forall|r: int|
                0 <= r < worker_start(rows as int, num_workers as int, i as int)
                    ==> #[trigger] result@[r]@ == product_seq(av, bv)[r],
        decreases num_workers - i,
    {
        let (start, end) = worker_bounds(rows, num_workers, i);
        let partial = compute_partial(matrix_a, matrix_b, start, end);
        let ghost pv = partial@;
        let ghost pdv = partial.deep_view();
        proof {
            assert(pdv.len() == end - start);
            assert(pv.len() == end - start);
        }
        merge_partial(&mut result, start, partial);
        proof {
            assert forall|r: int| 0 <= r < end implies #[trigger] result@[r]@ == product_seq(
                av,
                bv,
            )[r] by {
                if start <= r < end {
                    assert(result@[r] == pv[r - start]);
                    assert(pdv[r - start] == product_seq(av, bv).subrange(
                        start as int,
                        end as int,
                    )[r - start]);
                    assert(pv[r - start]@ =~= pdv[r - start]);
                }
            }
            assert forall|r: int| 0 <= r < rows implies (#[trigger] result@[r])@.len() == bv[0].len()
                by {
                if start <= r < end {
                    assert(result@[r]@ == product_seq(av, bv)[r]);
                }
            }
            assert(worker_end(rows as int, num_workers as int, i as int) == worker_start(
                rows as int,
                num_workers as int,
                i as int + 1,
            ));
        }
        i = i + 1;
    }
    proof {
        lemma_chunks_cover(rows as int, num_workers as int);
        assert(worker_start(rows as int, num_workers as int, num_workers as int) == rows);
        assert forall|r: int| 0 <= r < rows implies #[trigger] result.deep_view()[r]
            == product_seq(av, bv)[r] by {
            assert(result.deep_view()[r] =~= result@[r]@);
        }
        assert(result.deep_view() =~= product_seq(av, bv));
    }
    result
}

/// Multiplies the two operand matrices with `num_workers` workers.
///
/// Validation runs before any work is scheduled: a zero worker count,
/// an empty operand, and a column/row mismatch are each rejected with
/// the matching error, in that order. On compatible operands the call
/// returns the full `rowsA x colsB` product, every entry the dot
/// product of its row of `matrix_a` with its column of `matrix_b`; the
/// worker count never changes the value of the result, only how the
/// work is split.
///
/// Both operands must be rectangular and the dot products must stay
/// inside the `i32` range; that is the caller's contract, not checked
/// per cell.
pub fn calculate_matrix(matrix_a: &Vec<Vec<i32>>, matrix_b: &Vec<Vec<i32>>, num_workers: usize) -> (r:
    Result<Vec<Vec<i32>>, MatrixError>)
    requires
        compatible(matrix_a.deep_view(), matrix_b.deep_view(), num_workers as int) ==> {
            &&& rectangular(matrix_a.deep_view(), matrix_b@.len() as nat)
            &&& rectangular(matrix_b.deep_view(), matrix_b.deep_view()[0].len() as nat)
            &&& entries_fit(matrix_a.deep_view(), matrix_b.deep_view())
        },
    ensures
        compatible(matrix_a.deep_view(), matrix_b.deep_view(), num_workers as int) ==> (r matches
        Ok(product) && product.deep_view() == product_seq(
            matrix_a.deep_view(),
            matrix_b.deep_view(),
        )),
        num_workers == 0 ==> r == Err::<Vec<Vec<i32>>, MatrixError>(
            MatrixError::InvalidWorkerCount,
        ),
        num_workers >= 1 && (matrix_a@.len() == 0 || matrix_b@.len() == 0) ==> r == Err::<
            Vec<Vec<i32>>,
            MatrixError,
        >(MatrixError::EmptyMatrix),
        num_workers >= 1 && matrix_a@.len() > 0 && matrix_b@.len() > 0 && matrix_a@[0]@.len()
            != matrix_b@.len() ==> r == Err::<Vec<Vec<i32>>, MatrixError>(
            MatrixError::DimensionMismatch,
        ),
{
    if let Some(err) = pre_check(matrix_a, matrix_b, num_workers) {
        return Err(err);
    }
    let result = perform_parallel_multiplication(matrix_a, matrix_b, num_workers);
    Ok(result)
}

/// The product is a function of the operands alone: two successful
/// multiplications of the same operands return the same matrix, even
/// when they split the rows across different worker counts.
pub proof fn lemma_result_independent_of_workers(
    a: Seq<Seq<i32>>,
    b: Seq<Seq<i32>>,
    workers_x: int,
    workers_y: int,
    result_x: Seq<Seq<i32>>,
    result_y: Seq<Seq<i32>>,
)
    requires
        compatible(a, b, workers_x),
        compatible(a, b, workers_y),
        result_x == product_seq(a, b),
        result_y == product_seq(a, b),
    ensures
        result_x == result_y,
{
}

/// The `n x n` identity matrix: ones on the diagonal, zeroes
/// everywhere else.
pub open spec fn identity_seq(n: nat) -> Seq<Seq<i32>> {
    Seq::new(
        n,
        |i: int|
            Seq::new(
                n,
                |j: int|
                    if i == j {
                        1i32
                    } else {
                        0i32
                    },
            ),
    )
}

/// A dot product against an identity column collapses to a single
/// entry of the operand: the first `k` terms sum to `a[i][j]` once the
/// diagonal term has been passed, and to zero before it.
proof fn lemma_identity_prefix(a: Seq<Seq<i32>>, n: nat, i: int, j: int, k: int)
    requires
        0 <= i < a.len(),
        a[i].len() == n,
        0 <= j < n,
        0 <= k <= n,
    ensures
        entry_prefix(a, identity_seq(n), i, j, k) == if k > j {
            a[i][j] as int
        } else {
            0
        },
    decreases k,
{
    if k > 0 {
        lemma_identity_prefix(a, n, i, j, k - 1);
        let idv = identity_seq(n);
        if k - 1 == j {
            assert(idv[k - 1][j] == 1i32);
        } else {
            assert(idv[k - 1][j] == 0i32);
        }
    }
}

/// Multiplying any square matrix by the identity matrix of the same
/// size returns the matrix unchanged.
pub proof fn lemma_multiply_identity(a: Seq<Seq<i32>>, n: nat)
    requires
        a.len() == n,
        n >= 1,
        rectangular(a, n),
    ensures
        product_seq(a, identity_seq(n)) == a,
{
    let idv = identity_seq(n);
    assert forall|i: int| 0 <= i < n implies #[trigger] product_seq(a, idv)[i] == a[i] by {
        assert forall|j: int| 0 <= j < n implies product_seq(a, idv)[i][j] == a[i][j] by {
            lemma_identity_prefix(a, n, i, j, n as int);
        }
        assert(product_seq(a, idv)[i] =~= a[i]);
    }
    assert(product_seq(a, idv) =~= a);
}

/// Dot products against the identity matrix never overflow: each term
/// is either zero or a single entry of the operand, and so is each
/// partial sum.
pub proof fn lemma_identity_entries_fit(a: Seq<Seq<i32>>, n: nat)
    requires
        a.len() == n,
        n >= 1,
        rectangular(a, n),
    ensures
        entries_fit(a, identity_seq(n)),
{
    let idv = identity_seq(n);
    assert forall|i: int, j: int, k: int|
        0 <= i < a.len() && 0 <= j < idv[0].len() && 0 <= k < idv.len() implies {
        &&& i32::MIN <= #[trigger] product_term(a, idv, i, j, k) <= i32::MAX
        &&& i32::MIN <= entry_prefix(a, idv, i, j, k + 1) <= i32::MAX
    } by {
        if k == j {
            assert(idv[k][j] == 1i32);
        } else {
            assert(idv[k][j] == 0i32);
        }
        lemma_identity_prefix(a, n, i, j, k + 1);
    }
}

/// Builds the `n x n` identity matrix.
pub fn identity_matrix(n: usize) -> (m: Vec<Vec<i32>>)
    ensures
        m.deep_view() == identity_seq(n as nat),
{
    let mut m: Vec<Vec<i32>> = Vec::new();
    let mut i: usize = 0;
    while i < n
        invariant
            i <= n,
            m@.len() == i,
            forall|r: int| 0 <= r < i ==> (#[trigger] m@[r])@ == identity_seq(n as nat)[r],
        decreases n - i,
    {
        let mut row: Vec<i32> = Vec::new();
        let mut j: usize = 0;
        while j < n
            invariant
                i < n,
                j <= n,
                row@.len() == j,
                forall|c: int|
                    0 <= c < j ==> row@[c] == (if c == i as int {
                        1i32
                    } else {
                        0i32
                    }),
            decreases n - j,
        {
            row.push(if j == i {
                1
            } else {
                0
            });
            j = j + 1;
        }
        m.push(row);
        proof {
            assert(m@[i as int]@ =~= identity_seq(n as nat)[i as int]);
        }
        i = i + 1;
    }
    proof {
        assert(m.deep_view() =~~= identity_seq(n as nat));
    }
    m
}

} // verus!
