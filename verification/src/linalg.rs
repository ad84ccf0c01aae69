//! Matrix helpers that only move entries around.

use vstd::prelude::*;

verus! {

/// The transpose of the leading `n` by `n` block of a matrix.
pub open spec fn transposed<T>(m: Seq<Seq<T>>, n: int) -> Seq<Seq<T>> {
    Seq::new(n as nat, |i: int| Seq::new(n as nat, |j: int| m[j][i]))
}

/// The rows of a matrix, as sequences.
pub open spec fn matrix_rows<T>(a: Seq<Vec<T>>) -> Seq<Seq<T>> {
    a.map_values(|row: Vec<T>| row@)
}

/// Transposes a square matrix: entry `(i, j)` of the result is entry `(j, i)` of `a`.
pub fn transpose<T: Copy>(a: &[Vec<T>]) -> (t: Vec<Vec<T>>)
    requires
        forall|i: int| 0 <= i < a@.len() ==> #[trigger] a@[i]@.len() >= a@.len(),
    ensures
        matrix_rows(t@) == transposed(matrix_rows(a@), a@.len() as int),
{
    let n = a.len();
    let mut t: Vec<Vec<T>> = Vec::new();
    for i in 0..n
        invariant
            n == a@.len(),
            forall|r: int| 0 <= r < n ==> #[trigger] a@[r]@.len() >= n,
            t@.len() == i,
            forall|r: int| 0 <= r < i ==> #[trigger] t@[r]@ == Seq::new(n as nat, |j: int| a@[j]@[r]),
    {
        let mut row: Vec<T> = Vec::new();
        for j in 0..n
            invariant
                n == a@.len(),
                i < n,
                forall|r: int| 0 <= r < n ==> #[trigger] a@[r]@.len() >= n,
                row@ == Seq::new(j as nat, |k: int| a@[k]@[i as int]),
        {
            row.push(a[j][i]);
            proof {
                assert(row@ =~= Seq::new((j + 1) as nat, |k: int| a@[k]@[i as int]));
            }
        }
        t.push(row);
    }
    proof {
        let m = matrix_rows(a@);
        assert forall|r: int| 0 <= r < n implies #[trigger] matrix_rows(t@)[r] == transposed(m, n as int)[r] by {
            assert(matrix_rows(t@)[r] == t@[r]@);
            assert forall|j: int| 0 <= j < n implies #[trigger] t@[r]@[j] == m[j][r] by {
                assert(m[j] == a@[j]@);
            }
            assert(t@[r]@ =~= transposed(m, n as int)[r]);
        }
        assert(matrix_rows(t@) =~= transposed(m, n as int));
    }
    t
}

/// Transposing a square matrix twice gives the matrix back.
pub proof fn lemma_transpose_involution<T>(m: Seq<Seq<T>>)
    requires
        forall|i: int| 0 <= i < m.len() ==> #[trigger] m[i].len() == m.len(),
    ensures
        transposed(transposed(m, m.len() as int), m.len() as int) == m,
{
    let n = m.len() as int;
    let tt = transposed(transposed(m, n), n);
    assert forall|i: int| 0 <= i < n implies #[trigger] tt[i] == m[i] by {
        assert(tt[i] =~= m[i]);
    }
    assert(tt =~= m);
}

} // verus!
