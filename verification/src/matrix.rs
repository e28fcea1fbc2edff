//! Inversion of square matrices over GF(2^8) by Gauss-Jordan elimination.

use crate::error::IdaError;
use crate::gf::{
    gf_add, gf_inv, gf_mul, lemma_add_zero, lemma_mul_inverse, lemma_mul_one, lemma_mul_zero,
};
use crate::linalg::{
    add_scaled_column, add_scaled_row, annihilates, column, identity, is_inverse, is_matrix,
    is_square, is_zero_vec, leading, lemma_add_column_product, lemma_add_row_product,
    lemma_dot_take, lemma_dot_unit, lemma_right_inverse_regular,
    lemma_scale_column_product, lemma_scale_row_product, mat_mul, row_times, scale_column,
    scale_row, singular, strongly_nonsingular, unit_vec, vec_add, vec_scale,
};
use vstd::prelude::*;

verus! {

/// The matrix that a vector of rows stands for.
pub open spec fn matrix_view(rows: Seq<Vec<u8>>) -> Seq<Seq<u8>> {
    Seq::new(rows.len(), |r: int| rows[r]@)
}

/// The identity matrix of side `size`.
pub fn generate_identity(size: usize) -> (m: Vec<Vec<u8>>)
    ensures
        matrix_view(m@) == identity(size as nat),
{
    let mut m: Vec<Vec<u8>> = Vec::new();
    let mut i: usize = 0;
    while i < size
        invariant
            i <= size,
            m@.len() == i,
            forall|r: int| 0 <= r < i ==> (#[trigger] m@[r])@ == unit_vec(size as nat, r),
        decreases size - i,
    {
        let mut row: Vec<u8> = Vec::new();
        let mut j: usize = 0;
        while j < size
            invariant
                j <= size,
                row@.len() == j,
                forall|c: int| 0 <= c < j ==> row@[c] == unit_vec(size as nat, i as int)[c],
            decreases size - j,
        {
            row.push(if i == j { 1 } else { 0 });
            j += 1;
        }
        assert(row@ =~= unit_vec(size as nat, i as int));
        m.push(row);
        i += 1;
    }
    assert(matrix_view(m@) =~~= identity(size as nat));
    m
}

/// Mutable access to the two distinct places `i` and `j` of a slice at once.
pub fn two_mut<T>(sl: &mut [T], i: usize, j: usize) -> (pair: (&mut T, &mut T))
    requires
        i != j,
        i < old(sl)@.len(),
        j < old(sl)@.len(),
    ensures
        *pair.0 == old(sl)@[i as int],
        *pair.1 == old(sl)@[j as int],
        final(sl)@ == old(sl)@.update(i as int, *final(pair.0)).update(j as int, *final(pair.1)),
{
    let (smaller, larger) = if i < j {
        (i, j)
    } else {
        (j, i)
    };
    let (smsl, lgsl) = sl.split_at_mut(larger);
    if i == smaller {
        (&mut smsl[smaller], &mut lgsl[0])
    } else {
        (&mut lgsl[0], &mut smsl[smaller])
    }
}

/// Subtracts `coeff` times `normalized` from `row`, entry by entry.
pub fn mult_and_subtract(row: &mut [u8], normalized: &[u8], coeff: u8)
    requires
        old(row)@.len() <= normalized@.len(),
    ensures
        final(row)@ == vec_add(old(row)@, vec_scale(normalized@, coeff)),
{
    let n: usize = row.len();
    let mut i: usize = 0;
    while i < n
        invariant
            i <= n,
            n == old(row)@.len(),
            n <= normalized@.len(),
            row@.len() == n,
            forall|c: int| 0 <= c < i ==> row@[c] == gf_add(old(row)@[c], gf_mul(normalized@[c], coeff)),
            forall|c: int| i <= c < n ==> row@[c] == old(row)@[c],
        decreases n - i,
    {
        row[i] = crate::gf::subtract(row[i], crate::gf::multiply(normalized[i], coeff));
        i += 1;
    }
    assert(row@ =~= vec_add(old(row)@, vec_scale(normalized@, coeff)));
}

/// Multiplies `tmp_row`, and as many leading entries of `res_row`, by
/// `element`.
pub fn normalize_row(tmp_row: &mut [u8], res_row: &mut [u8], element: u8)
    requires
        old(tmp_row)@.len() <= old(res_row)@.len(),
    ensures
        final(tmp_row)@ == vec_scale(old(tmp_row)@, element),
        final(res_row)@ == vec_scale(old(res_row)@.take(old(tmp_row)@.len() as int), element)
            + old(res_row)@.skip(old(tmp_row)@.len() as int),
{
    let n: usize = tmp_row.len();
    let mut i: usize = 0;
    while i < n
        invariant
            i <= n,
            n == old(tmp_row)@.len(),
            tmp_row@.len() == n,
            res_row@.len() == old(res_row)@.len(),
            n <= res_row@.len(),
            forall|c: int| 0 <= c < i ==> tmp_row@[c] == gf_mul(old(tmp_row)@[c], element),
            forall|c: int| i <= c < n ==> tmp_row@[c] == old(tmp_row)@[c],
            forall|c: int| 0 <= c < i ==> res_row@[c] == gf_mul(old(res_row)@[c], element),
            forall|c: int| i <= c < res_row@.len() ==> res_row@[c] == old(res_row)@[c],
        decreases n - i,
    {
        tmp_row[i] = crate::gf::multiply(tmp_row[i], element);
        res_row[i] = crate::gf::multiply(res_row[i], element);
        i += 1;
    }
    assert(tmp_row@ =~= vec_scale(old(tmp_row)@, element));
    assert(res_row@ =~= vec_scale(old(res_row)@.take(n as int), element) + old(res_row)@.skip(
        n as int,
    ));
}

// ---------------------------------------------------------------------------
// Elimination
// ---------------------------------------------------------------------------

/// What elimination keeps true while it inverts `given`: `tmp` is the
/// working copy, `res` the product of the row operations so far, and `undo`
/// the product of their inverses.
spec fn eliminating(
    given: Seq<Seq<u8>>,
    tmp: Seq<Seq<u8>>,
    res: Seq<Seq<u8>>,
    undo: Seq<Seq<u8>>,
) -> bool {
    let n = given.len();
    &&& is_square(given)
    &&& is_matrix(tmp, n, n)
    &&& is_matrix(res, n, n)
    &&& is_matrix(undo, n, n)
    &&& mat_mul(res, given) == tmp
    &&& mat_mul(undo, res) == identity(n)
    &&& mat_mul(undo, tmp) == given
}

/// The columns `lo..hi` of `m` are those of the identity.
spec fn identity_columns(m: Seq<Seq<u8>>, lo: int, hi: int) -> bool {
    forall|r: int, c: int|
        0 <= r < m.len() && lo <= c < hi ==> #[trigger] m[r][c] == (if r == c {
            1u8
        } else {
            0u8
        })
}

/// An operation on row or column `i` keeps the columns `lo..hi` those of the
/// identity, if `i` is not among them.
proof fn lemma_columns_kept(m: Seq<Seq<u8>>, j: int, i: int, c: u8, lo: int, hi: int)
    requires
        is_square(m),
        0 <= i < m.len(),
        0 <= j < m.len(),
        0 <= lo,
        hi <= m.len(),
        !(lo <= i < hi),
        identity_columns(m, lo, hi),
    ensures
        identity_columns(scale_row(m, i, c), lo, hi),
        identity_columns(add_scaled_row(m, j, i, c), lo, hi),
        identity_columns(scale_column(m, i, c), lo, hi),
        identity_columns(add_scaled_column(m, i, j, c), lo, hi),
{
    lemma_mul_zero(c);
    assert forall|r: int, x: int| 0 <= r < m.len() && lo <= x < hi implies #[trigger] add_scaled_row(
        m,
        j,
        i,
        c,
    )[r][x] == m[r][x] by {
        assert(m[i][x] == 0);
        lemma_add_zero(m[r][x]);
    }
    assert forall|r: int, x: int| 0 <= r < m.len() && lo <= x < hi implies #[trigger] scale_row(
        m,
        i,
        c,
    )[r][x] == m[r][x] by {
        assert(m[i][x] == 0);
    }
}

proof fn lemma_elimination_start(given: Seq<Seq<u8>>)
    requires
        is_square(given),
    ensures
        eliminating(given, given, identity(given.len()), identity(given.len())),
        identity_columns(identity(given.len()), 0, given.len() as int),
{
    let n = given.len();
    crate::linalg::lemma_mul_identity(given);
    crate::linalg::lemma_mul_identity(identity(n));
}

proof fn lemma_scale_step(
    given: Seq<Seq<u8>>,
    tmp: Seq<Seq<u8>>,
    res: Seq<Seq<u8>>,
    undo: Seq<Seq<u8>>,
    i: int,
    p: u8,
    q: u8,
)
    requires
        eliminating(given, tmp, res, undo),
        0 <= i < given.len(),
        gf_mul(p, q) == 1,
    ensures
        eliminating(
            given,
            scale_row(tmp, i, q),
            scale_row(res, i, q),
            scale_column(undo, i, p),
        ),
{
    lemma_scale_row_product(res, given, i, q);
    lemma_scale_column_product(undo, res, i, p, q);
    lemma_scale_column_product(undo, tmp, i, p, q);
}

proof fn lemma_eliminate_step(
    given: Seq<Seq<u8>>,
    tmp: Seq<Seq<u8>>,
    res: Seq<Seq<u8>>,
    undo: Seq<Seq<u8>>,
    j: int,
    i: int,
    c: u8,
)
    requires
        eliminating(given, tmp, res, undo),
        0 <= i < given.len(),
        0 <= j < given.len(),
        i != j,
    ensures
        eliminating(
            given,
            add_scaled_row(tmp, j, i, c),
            add_scaled_row(res, j, i, c),
            add_scaled_column(undo, i, j, c),
        ),
{
    lemma_add_row_product(res, given, j, i, c);
    lemma_add_column_product(undo, res, i, j, c);
    lemma_add_column_product(undo, tmp, i, j, c);
}

/// A zero pivot at step `i` shows a combination of the first `i + 1` rows of
/// `given` that is zero in the first `i + 1` columns.
proof fn lemma_zero_pivot_singular(
    given: Seq<Seq<u8>>,
    tmp: Seq<Seq<u8>>,
    res: Seq<Seq<u8>>,
    undo: Seq<Seq<u8>>,
    i: int,
)
    requires
        eliminating(given, tmp, res, undo),
        0 <= i < given.len(),
        identity_columns(tmp, 0, i),
        identity_columns(res, i, given.len() as int),
        tmp[i][i] == 0,
    ensures
        singular(leading(given, i + 1)),
{
    let n = given.len();
    let k = i + 1;
    let u = res[i].take(k);
    let a = leading(given, k);
    assert(u[i] == res[i][i]);
    assert(!is_zero_vec(u));
    let product = row_times(u, a, k as nat);
    assert forall|c: int| 0 <= c < k implies #[trigger] product[c] == 0 by {
        assert(column(a, c) =~= column(given, c).take(k));
        lemma_dot_take(res[i], column(given, c), k);
        assert(mat_mul(res, given)[i][c] == tmp[i][c]);
    }
    assert(annihilates(u, a));
}

/// Once the first `k` pivots were found, the leading block of side `k` has an
/// inverse on its right, and so is not singular.
proof fn lemma_leading_regular(
    given: Seq<Seq<u8>>,
    tmp: Seq<Seq<u8>>,
    res: Seq<Seq<u8>>,
    undo: Seq<Seq<u8>>,
    k: int,
)
    requires
        eliminating(given, tmp, res, undo),
        1 <= k <= given.len(),
        identity_columns(tmp, 0, k),
        identity_columns(undo, k, given.len() as int),
    ensures
        !singular(leading(given, k)),
{
    let n = given.len();
    let a = leading(given, k);
    let r = leading(res, k);
    assert forall|x: int, y: int| 0 <= x < k && 0 <= y < k implies #[trigger] mat_mul(a, r)[x][y]
        == identity(k as nat)[x][y] by {
        assert forall|c: int| 0 <= c < k implies undo[x][c] == given[x][c] by {
            assert(mat_mul(undo, tmp)[x][c] == given[x][c]);
            assert(column(tmp, c) =~= unit_vec(n, c));
            lemma_dot_unit(n, c, undo[x]);
        }
        assert(undo[x].take(k) =~= given[x].take(k));
        assert(mat_mul(undo, res)[x][y] == identity(n)[x][y]);
        lemma_dot_take(undo[x], column(res, y), k);
        assert(column(r, y) =~= column(res, y).take(k));
    }
    assert(mat_mul(a, r) =~~= identity(k as nat));
    lemma_right_inverse_regular(a, r);
}

proof fn lemma_elimination_done(
    given: Seq<Seq<u8>>,
    tmp: Seq<Seq<u8>>,
    res: Seq<Seq<u8>>,
    undo: Seq<Seq<u8>>,
)
    requires
        eliminating(given, tmp, res, undo),
        identity_columns(tmp, 0, given.len() as int),
    ensures
        is_inverse(res, given),
{
    let n = given.len();
    assert(tmp =~~= identity(n));
    crate::linalg::lemma_mul_identity(undo);
}

/// Clears column `i` in the rows from `j` on, once row `i` has a one there.
proof fn lemma_clear_column(
    given: Seq<Seq<u8>>,
    tmp: Seq<Seq<u8>>,
    res: Seq<Seq<u8>>,
    undo: Seq<Seq<u8>>,
    i: int,
    j: int,
) -> (cleared: (Seq<Seq<u8>>, Seq<Seq<u8>>, Seq<Seq<u8>>))
    requires
        eliminating(given, tmp, res, undo),
        0 <= i < given.len(),
        0 <= j <= given.len(),
        identity_columns(tmp, 0, i),
        identity_columns(res, i + 1, given.len() as int),
        identity_columns(undo, i + 1, given.len() as int),
        tmp[i][i] == 1,
        forall|r: int| 0 <= r < j && r != i ==> (#[trigger] tmp[r])[i] == 0,
    ensures
        eliminating(given, cleared.0, cleared.1, cleared.2),
        identity_columns(cleared.0, 0, i + 1),
        identity_columns(cleared.1, i + 1, given.len() as int),
        identity_columns(cleared.2, i + 1, given.len() as int),
    decreases given.len() - j,
{
    let n = given.len() as int;
    if j == n {
        (tmp, res, undo)
    } else if j == i {
        lemma_clear_column(given, tmp, res, undo, i, j + 1)
    } else {
        let coeff = tmp[j][i];
        lemma_eliminate_step(given, tmp, res, undo, j, i, coeff);
        lemma_columns_kept(tmp, j, i, coeff, 0, i);
        lemma_columns_kept(res, j, i, coeff, i + 1, n);
        lemma_columns_kept(undo, j, i, coeff, i + 1, n);
        lemma_mul_one(coeff);
        crate::gf::lemma_add_self(coeff);
        lemma_clear_column(
            given,
            add_scaled_row(tmp, j, i, coeff),
            add_scaled_row(res, j, i, coeff),
            add_scaled_column(undo, i, j, coeff),
            i,
            j + 1,
        )
    }
}

/// Carries the elimination on from step `i` to its end.
proof fn lemma_eliminate_from(
    given: Seq<Seq<u8>>,
    tmp: Seq<Seq<u8>>,
    res: Seq<Seq<u8>>,
    undo: Seq<Seq<u8>>,
    i: int,
) -> (d: Seq<Seq<u8>>)
    requires
        strongly_nonsingular(given),
        eliminating(given, tmp, res, undo),
        0 <= i <= given.len(),
        identity_columns(tmp, 0, i),
        identity_columns(res, i, given.len() as int),
        identity_columns(undo, i, given.len() as int),
    ensures
        is_inverse(d, given),
    decreases given.len() - i,
{
    let n = given.len() as int;
    if i == n {
        lemma_elimination_done(given, tmp, res, undo);
        res
    } else {
        let pivot = tmp[i][i];
        if pivot == 0 {
            lemma_zero_pivot_singular(given, tmp, res, undo, i);
            assert(singular(leading(given, i + 1)));
        }
        let inv = gf_inv(pivot);
        lemma_mul_inverse(pivot);
        lemma_scale_step(given, tmp, res, undo, i, pivot, inv);
        lemma_columns_kept(tmp, i, i, inv, 0, i);
        lemma_columns_kept(res, i, i, inv, i + 1, n);
        lemma_columns_kept(undo, i, i, pivot, i + 1, n);
        let cleared = lemma_clear_column(
            given,
            scale_row(tmp, i, inv),
            scale_row(res, i, inv),
            scale_column(undo, i, pivot),
            i,
            0,
        );
        lemma_eliminate_from(given, cleared.0, cleared.1, cleared.2, i + 1)
    }
}

/// A square matrix none of whose leading blocks is singular has an inverse.
pub proof fn lemma_inverse_exists(m: Seq<Seq<u8>>)
    requires
        is_square(m),
        strongly_nonsingular(m),
    ensures
        exists|d: Seq<Seq<u8>>| is_inverse(d, m),
{
    lemma_elimination_start(m);
    let d = lemma_eliminate_from(m, m, identity(m.len()), identity(m.len()), 0);
    assert(is_inverse(d, m));
}

/// The inverse of a square matrix, by Gauss-Jordan elimination without row
/// exchanges. The pivot of step `i` is the entry at `(i, i)` after the steps
/// before it. The elimination succeeds if and only if no leading block of
/// the matrix is singular; then the result is the inverse on both sides.
pub fn inverse(matrix: Vec<Vec<u8>>) -> (result: Result<Vec<Vec<u8>>, IdaError>)
    requires
        is_square(matrix_view(matrix@)),
    ensures
        result is Ok <==> strongly_nonsingular(matrix_view(matrix@)),
        result matches Ok(inv) ==> is_inverse(matrix_view(inv@), matrix_view(matrix@)),
        result matches Err(e) ==> e == IdaError::SingularMatrix,
{
    let size: usize = matrix.len();
    let ghost given = matrix_view(matrix@);
    let mut res = generate_identity(size);
    let mut tmp = matrix;
    let ghost mut undo = identity(size as nat);
    proof {
        lemma_elimination_start(given);
    }
    let mut i: usize = 0;
    while i < size
        invariant
            i <= size,
            size == given.len(),
            given == matrix_view(matrix@),
            eliminating(given, matrix_view(tmp@), matrix_view(res@), undo),
            identity_columns(matrix_view(tmp@), 0, i as int),
            identity_columns(matrix_view(res@), i as int, size as int),
            identity_columns(undo, i as int, size as int),
            forall|k: int| 1 <= k <= i ==> !singular(#[trigger] leading(given, k)),
        decreases size - i,
    {
        assert(matrix_view(tmp@)[i as int].len() == size);
        assert(matrix_view(res@)[i as int].len() == size);
        let pivot: u8 = tmp[i][i];
        let inv: u8 = match crate::gf::inverse(pivot) {
            Ok(inv) => inv,
            Err(_) => {
                proof {
                    lemma_zero_pivot_singular(
                        given,
                        matrix_view(tmp@),
                        matrix_view(res@),
                        undo,
                        i as int,
                    );
                    assert(singular(leading(given, i + 1)));
                }
                return Err(IdaError::SingularMatrix);
            },
        };
        let ghost tmp0 = matrix_view(tmp@);
        let ghost res0 = matrix_view(res@);
        normalize_row(tmp[i].as_mut_slice(), res[i].as_mut_slice(), inv);
        proof {
            lemma_mul_inverse(pivot);
            lemma_scale_step(given, tmp0, res0, undo, i as int, pivot, inv);
            lemma_columns_kept(tmp0, i as int, i as int, inv, 0, i as int);
            lemma_columns_kept(res0, i as int, i as int, inv, i + 1, size as int);
            lemma_columns_kept(undo, i as int, i as int, pivot, i + 1, size as int);
            assert(res0[i as int].take(size as int) =~= res0[i as int]);
            assert(matrix_view(tmp@) =~~= scale_row(tmp0, i as int, inv));
            assert(matrix_view(res@) =~~= scale_row(res0, i as int, inv));
            undo = scale_column(undo, i as int, pivot);
        }
        let mut j: usize = 0;
        while j < size
            invariant
                j <= size,
                i < size,
                size == given.len(),
                eliminating(given, matrix_view(tmp@), matrix_view(res@), undo),
                identity_columns(matrix_view(tmp@), 0, i as int),
                identity_columns(matrix_view(res@), i + 1, size as int),
                identity_columns(undo, i + 1, size as int),
                matrix_view(tmp@)[i as int][i as int] == 1,
                forall|r: int|
                    0 <= r < j && r != i ==> (#[trigger] matrix_view(tmp@)[r])[i as int] == 0,
            decreases size - j,
        {
            if j != i {
                assert(matrix_view(tmp@)[i as int].len() == size);
                assert(matrix_view(tmp@)[j as int].len() == size);
                assert(matrix_view(res@)[i as int].len() == size);
                assert(matrix_view(res@)[j as int].len() == size);
                let coeff: u8 = tmp[j][i];
                if coeff != 0 {
                    let ghost tmp1 = matrix_view(tmp@);
                    let ghost res1 = matrix_view(res@);
                    let (tmpi, tmpj) = two_mut(tmp.as_mut_slice(), i, j);
                    mult_and_subtract(tmpj.as_mut_slice(), tmpi.as_slice(), coeff);
                    let (resi, resj) = two_mut(res.as_mut_slice(), i, j);
                    mult_and_subtract(resj.as_mut_slice(), resi.as_slice(), coeff);
                    proof {
                        lemma_eliminate_step(given, tmp1, res1, undo, j as int, i as int, coeff);
                        lemma_columns_kept(tmp1, j as int, i as int, coeff, 0, i as int);
                        lemma_columns_kept(res1, j as int, i as int, coeff, i + 1, size as int);
                        lemma_columns_kept(undo, j as int, i as int, coeff, i + 1, size as int);
                        assert(matrix_view(tmp@) =~~= add_scaled_row(
                            tmp1,
                            j as int,
                            i as int,
                            coeff,
                        ));
                        assert(matrix_view(res@) =~~= add_scaled_row(
                            res1,
                            j as int,
                            i as int,
                            coeff,
                        ));
                        undo = add_scaled_column(undo, i as int, j as int, coeff);
                        lemma_mul_one(coeff);
                        crate::gf::lemma_add_self(coeff);
                    }
                }
            }
            j += 1;
        }
        proof {
            lemma_leading_regular(
                given,
                matrix_view(tmp@),
                matrix_view(res@),
                undo,
                i + 1,
            );
        }
        i += 1;
    }
    proof {
        lemma_elimination_done(given, matrix_view(tmp@), matrix_view(res@), undo);
    }
    Ok(res)
}

} // verus!
