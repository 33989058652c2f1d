//! The matrix layout of the Kalman filters: their matrices are kept as rows of
//! entries and handed to the linear algebra in column-major order.

use vstd::prelude::*;
use vstd::arithmetic::div_mod::*;
use vstd::arithmetic::mul::*;

verus! {

/// Entry `(i, j)` of the `rows` of a matrix, or `fill` where the rows have no such entry.
pub open spec fn entry_or<T>(vecs: Seq<Vec<T>>, i: int, j: int, fill: T) -> T {
    if i < vecs.len() && j < vecs[i]@.len() {
        vecs[i]@[j]
    } else {
        fill
    }
}

/// An entry that row `i` has is read from that row, whatever the lengths of the
/// other rows; an entry past the end of its row, or of a missing row, is `fill`.
pub proof fn lemma_entry_or_reads_own_row<T>(vecs: Seq<Vec<T>>, i: int, j: int, fill: T)
    requires
        0 <= i,
        0 <= j,
    ensures
        i < vecs.len() && j < vecs[i]@.len() ==> entry_or(vecs, i, j, fill) == vecs[i]@[j],
        !(i < vecs.len() && j < vecs[i]@.len()) ==> entry_or(vecs, i, j, fill) == fill,
{
}

/// Lays out the first `rows` rows and `cols` columns of a row-major matrix in
/// column-major order: entry `(i, j)` goes to position `j * rows + i`. Entries that
/// the rows do not have (short or missing rows) are `fill`.
///
/// `rows * cols` must fit in a `usize`.
pub fn vecs_to_column_major<T: Copy>(vecs: &[Vec<T>], rows: usize, cols: usize, fill: T) -> (data: Vec<T>)
    requires
        rows * cols <= usize::MAX,
    ensures
        data@.len() == rows * cols,
        forall|i: int, j: int|
            0 <= i < rows && 0 <= j < cols ==> #[trigger] data@[j * rows + i] == entry_or(vecs@, i, j, fill),
        forall|i: int, j: int|
            0 <= i < rows && 0 <= j < cols ==> #[trigger] data@[j * rows + i] == if i < vecs@.len() && j
                < vecs@[i]@.len() {
                vecs@[i]@[j]
            } else {
                fill
            },
        forall|p: int|
            0 <= p < rows * cols ==> #[trigger] data@[p] == if p % (rows as int) < vecs@.len() && p / (rows as int)
                < vecs@[p % (rows as int)]@.len() {
                vecs@[p % (rows as int)]@[p / (rows as int)]
            } else {
                fill
            },
{
    let size = rows * cols;
    let mut data: Vec<T> = Vec::with_capacity(size);
    let mut p: usize = 0;
    while p < size
        invariant
            size == rows * cols,
            p <= size,
            data@.len() == p,
            forall|q: int| 0 <= q < p ==> #[trigger] data@[q] == fill,
        decreases size - p,
    {
        data.push(fill);
        p = p + 1;
    }
    let row_count = if vecs.len() < rows { vecs.len() } else { rows };
    let mut i: usize = 0;
    while i < row_count
        invariant
            size == rows * cols,
            row_count <= rows,
            row_count <= vecs@.len(),
            i <= row_count,
            data@.len() == size,
            forall|q: int|
                0 <= q < size ==> #[trigger] data@[q] == if q % (rows as int) < i {
                    entry_or(vecs@, q % (rows as int), q / (rows as int), fill)
                } else {
                    fill
                },
        decreases row_count - i,
    {
        let row = &vecs[i];
        let col_count = if row.len() < cols { row.len() } else { cols };
        let mut j: usize = 0;
        while j < col_count
            invariant
                size == rows * cols,
                i < row_count,
                row_count <= rows,
                row_count <= vecs@.len(),
                row@ == vecs@[i as int]@,
                col_count <= cols,
                col_count <= row@.len(),
                j <= col_count,
                data@.len() == size,
                forall|q: int|
                    0 <= q < size ==> #[trigger] data@[q] == if q % (rows as int) < i || (q % (rows as int) == i
                        && q / (rows as int) < j) {
                        entry_or(vecs@, q % (rows as int), q / (rows as int), fill)
                    } else {
                        fill
                    },
            decreases col_count - j,
        {
            proof {
                assert(j * rows + i < rows * cols) by (nonlinear_arith)
                    requires
                        j < cols,
                        i < rows,
                ;
                assert(j * rows + i <= usize::MAX);
            }
            let pos = j * rows + i;
            let ghost before = data@;
            data.set(pos, row[j]);
            proof {
                lemma_fundamental_div_mod_converse(pos as int, rows as int, j as int, i as int);
                assert forall|q: int| 0 <= q < size implies #[trigger] data@[q] == if q % (rows as int) < i || (q
                    % (rows as int) == i && q / (rows as int) < j + 1) {
                    entry_or(vecs@, q % (rows as int), q / (rows as int), fill)
                } else {
                    fill
                } by {
                    if q != pos {
                        lemma_fundamental_div_mod(q, rows as int);
                        assert(before[q] == data@[q]);
                        if q % (rows as int) == i && q / (rows as int) == j {
                            lemma_mul_is_commutative(rows as int, j as int);
                            assert(q == j * rows + i);
                        }
                    }
                }
            }
            j = j + 1;
        }
        proof {
            assert forall|q: int| 0 <= q < size implies #[trigger] data@[q] == if q % (rows as int) < i + 1 {
                entry_or(vecs@, q % (rows as int), q / (rows as int), fill)
            } else {
                fill
            } by {
                if q % (rows as int) == i {
                    lemma_multiply_divide_lt(q, rows as int, cols as int);
                }
            }
        }
        i = i + 1;
    }
    proof {
        assert forall|i2: int, j2: int| 0 <= i2 < rows && 0 <= j2 < cols implies #[trigger] data@[j2 * rows + i2]
            == entry_or(vecs@, i2, j2, fill) by {
            assert(j2 * rows + i2 < rows * cols) by (nonlinear_arith)
                requires
                    j2 < cols,
                    i2 < rows,
            ;
            lemma_fundamental_div_mod_converse(j2 * rows + i2, rows as int, j2, i2);
            lemma_entry_or_reads_own_row(vecs@, i2, j2, fill);
        }
        assert forall|p: int| 0 <= p < rows * cols implies #[trigger] data@[p] == if p % (rows as int)
            < vecs@.len() && p / (rows as int) < vecs@[p % (rows as int)]@.len() {
            vecs@[p % (rows as int)]@[p / (rows as int)]
        } else {
            fill
        } by {
            lemma_fundamental_div_mod(p, rows as int);
            lemma_multiply_divide_lt(p, rows as int, cols as int);
            lemma_mul_is_commutative(rows as int, p / (rows as int));
            lemma_entry_or_reads_own_row(vecs@, p % (rows as int), p / (rows as int), fill);
        }
    }
    data
}

} // verus!
