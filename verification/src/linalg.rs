//! Vectors and matrices over GF(2^8), as mathematical sequences.
//!
//! A vector is a `Seq<u8>`; a matrix is a sequence of rows of one length.

use crate::gf::{
    gf_add, gf_mul, lemma_add_zero, lemma_mul_associative, lemma_mul_commutative,
    lemma_mul_distributive, lemma_mul_one, lemma_mul_zero,
};
use vstd::prelude::*;

verus! {

// ---------------------------------------------------------------------------
// Vectors
// ---------------------------------------------------------------------------

/// The sum of all entries of `s`.
pub open spec fn seq_sum(s: Seq<u8>) -> u8
    decreases s.len(),
{
    if s.len() == 0 {
        0
    } else {
        gf_add(seq_sum(s.drop_last()), s.last())
    }
}

/// The entrywise sum of two vectors.
pub open spec fn vec_add(u: Seq<u8>, v: Seq<u8>) -> Seq<u8> {
    Seq::new(u.len(), |i: int| gf_add(u[i], v[i]))
}

/// The vector `v` with every entry multiplied by `c`.
pub open spec fn vec_scale(v: Seq<u8>, c: u8) -> Seq<u8> {
    Seq::new(v.len(), |i: int| gf_mul(v[i], c))
}

/// The entrywise product of two vectors.
pub open spec fn vec_mul(u: Seq<u8>, v: Seq<u8>) -> Seq<u8> {
    Seq::new(u.len(), |i: int| gf_mul(u[i], v[i]))
}

/// The inner product of two vectors of one length.
pub open spec fn dot(u: Seq<u8>, v: Seq<u8>) -> u8 {
    seq_sum(vec_mul(u, v))
}

/// Every entry of `v` is zero.
pub open spec fn is_zero_vec(v: Seq<u8>) -> bool {
    forall|i: int| 0 <= i < v.len() ==> v[i] == 0
}

/// The vector of length `n` with a one at place `i` and zeros elsewhere.
pub open spec fn unit_vec(n: nat, i: int) -> Seq<u8> {
    Seq::new(n, |x: int| if x == i { 1u8 } else { 0u8 })
}

proof fn lemma_add_exchange(a: u8, b: u8, c: u8, d: u8)
    by (bit_vector)
    ensures
        (a ^ b) ^ (c ^ d) == (a ^ c) ^ (b ^ d),
{
}

proof fn lemma_add_replace(s: u8, l: u8, old_entry: u8, new_entry: u8)
    by (bit_vector)
    ensures
        ((s ^ old_entry) ^ new_entry) ^ l == ((s ^ l) ^ old_entry) ^ new_entry,
        ((s ^ l) ^ l) ^ new_entry == s ^ new_entry,
{
}

/// The sum of a vector of zeros is zero.
pub proof fn lemma_sum_zero(s: Seq<u8>)
    requires
        is_zero_vec(s),
    ensures
        seq_sum(s) == 0,
    decreases s.len(),
{
    if s.len() > 0 {
        lemma_sum_zero(s.drop_last());
        lemma_add_zero(0);
    }
}

/// Summation is additive.
pub proof fn lemma_sum_add(s: Seq<u8>, t: Seq<u8>)
    requires
        s.len() == t.len(),
    ensures
        seq_sum(vec_add(s, t)) == gf_add(seq_sum(s), seq_sum(t)),
    decreases s.len(),
{
    if s.len() == 0 {
        lemma_add_zero(0);
    } else {
        lemma_sum_add(s.drop_last(), t.drop_last());
        assert(vec_add(s, t).drop_last() =~= vec_add(s.drop_last(), t.drop_last()));
        lemma_add_exchange(seq_sum(s.drop_last()), seq_sum(t.drop_last()), s.last(), t.last());
    }
}

/// A common factor can be taken out of a sum.
pub proof fn lemma_sum_scale(s: Seq<u8>, c: u8)
    ensures
        seq_sum(vec_scale(s, c)) == gf_mul(seq_sum(s), c),
    decreases s.len(),
{
    if s.len() == 0 {
        lemma_mul_zero(c);
    } else {
        lemma_sum_scale(s.drop_last(), c);
        assert(vec_scale(s, c).drop_last() =~= vec_scale(s.drop_last(), c));
        lemma_mul_distributive(c, seq_sum(s.drop_last()), s.last());
    }
}

/// Replacing one entry changes the sum by the old and the new entry.
pub proof fn lemma_sum_update(s: Seq<u8>, i: int, v: u8)
    requires
        0 <= i < s.len(),
    ensures
        seq_sum(s.update(i, v)) == gf_add(gf_add(seq_sum(s), s[i]), v),
    decreases s.len(),
{
    let rest = s.drop_last();
    if i == s.len() - 1 {
        assert(s.update(i, v).drop_last() =~= rest);
        lemma_add_replace(seq_sum(rest), s.last(), s.last(), v);
    } else {
        lemma_sum_update(rest, i, v);
        assert(s.update(i, v).drop_last() =~= rest.update(i, v));
        lemma_add_replace(seq_sum(rest), s.last(), s[i], v);
    }
}

/// Entries that are zero from place `k` on do not count.
pub proof fn lemma_sum_take(s: Seq<u8>, k: int)
    requires
        0 <= k <= s.len(),
        forall|i: int| k <= i < s.len() ==> s[i] == 0,
    ensures
        seq_sum(s) == seq_sum(s.take(k)),
    decreases s.len(),
{
    if k == s.len() {
        assert(s.take(k) =~= s);
    } else {
        lemma_sum_take(s.drop_last(), k);
        assert(s.drop_last().take(k) =~= s.take(k));
        lemma_add_zero(seq_sum(s.drop_last()));
    }
}

/// The inner product is symmetric.
pub proof fn lemma_dot_commutative(u: Seq<u8>, v: Seq<u8>)
    requires
        u.len() == v.len(),
    ensures
        dot(u, v) == dot(v, u),
{
    assert forall|i: int| 0 <= i < u.len() implies vec_mul(u, v)[i] == vec_mul(v, u)[i] by {
        lemma_mul_commutative(u[i], v[i]);
    }
    assert(vec_mul(u, v) =~= vec_mul(v, u));
}

/// The inner product is additive in its first argument.
pub proof fn lemma_dot_add(u: Seq<u8>, w: Seq<u8>, v: Seq<u8>)
    requires
        u.len() == w.len(),
    ensures
        dot(vec_add(u, w), v) == gf_add(dot(u, v), dot(w, v)),
{
    assert forall|i: int| 0 <= i < u.len() implies vec_mul(vec_add(u, w), v)[i] == vec_add(
        vec_mul(u, v),
        vec_mul(w, v),
    )[i] by {
        lemma_mul_distributive(v[i], u[i], w[i]);
    }
    assert(vec_mul(vec_add(u, w), v) =~= vec_add(vec_mul(u, v), vec_mul(w, v)));
    lemma_sum_add(vec_mul(u, v), vec_mul(w, v));
}

/// A factor of the first argument can be taken out of the inner product.
pub proof fn lemma_dot_scale(u: Seq<u8>, c: u8, v: Seq<u8>)
    ensures
        dot(vec_scale(u, c), v) == gf_mul(dot(u, v), c),
{
    assert forall|i: int| 0 <= i < u.len() implies vec_mul(vec_scale(u, c), v)[i] == vec_scale(
        vec_mul(u, v),
        c,
    )[i] by {
        lemma_mul_associative(u[i], c, v[i]);
        lemma_mul_commutative(c, v[i]);
        lemma_mul_associative(u[i], v[i], c);
    }
    assert(vec_mul(vec_scale(u, c), v) =~= vec_scale(vec_mul(u, v), c));
    lemma_sum_scale(vec_mul(u, v), c);
}

/// The inner product with a vector of zeros is zero.
pub proof fn lemma_dot_zero(u: Seq<u8>, v: Seq<u8>)
    requires
        is_zero_vec(u),
    ensures
        dot(u, v) == 0,
{
    assert forall|i: int| 0 <= i < u.len() implies vec_mul(u, v)[i] == 0 by {
        lemma_mul_zero(v[i]);
    }
    lemma_sum_zero(vec_mul(u, v));
}

/// Where only the entry at `i` of `u` may differ from zero, the inner
/// product is the product of the two entries at `i`.
pub proof fn lemma_dot_single(u: Seq<u8>, v: Seq<u8>, i: int)
    requires
        0 <= i < u.len(),
        forall|x: int| 0 <= x < u.len() && x != i ==> u[x] == 0,
    ensures
        dot(u, v) == gf_mul(u[i], v[i]),
{
    let p = vec_mul(u, v);
    let z = p.update(i, 0);
    assert forall|x: int| 0 <= x < z.len() implies z[x] == 0 by {
        lemma_mul_zero(v[x]);
    }
    lemma_sum_zero(z);
    lemma_sum_update(z, i, p[i]);
    assert(z.update(i, p[i]) =~= p);
    lemma_add_zero(0);
    lemma_add_zero(p[i]);
}

/// Where `u` is zero from place `k` on, only the first `k` entries count.
pub proof fn lemma_dot_take(u: Seq<u8>, v: Seq<u8>, k: int)
    requires
        0 <= k <= u.len(),
        u.len() <= v.len(),
        forall|x: int| k <= x < u.len() ==> u[x] == 0,
    ensures
        dot(u, v) == dot(u.take(k), v.take(k)),
{
    let p = vec_mul(u, v);
    assert forall|x: int| k <= x < p.len() implies p[x] == 0 by {
        lemma_mul_zero(v[x]);
    }
    lemma_sum_take(p, k);
    assert(p.take(k) =~= vec_mul(u.take(k), v.take(k)));
}

// ---------------------------------------------------------------------------
// Matrices
// ---------------------------------------------------------------------------

/// `m` has `rows` rows of `cols` entries each.
pub open spec fn is_matrix(m: Seq<Seq<u8>>, rows: nat, cols: nat) -> bool {
    &&& m.len() == rows
    &&& forall|r: int| 0 <= r < rows ==> (#[trigger] m[r]).len() == cols
}

/// `m` has as many columns as rows.
pub open spec fn is_square(m: Seq<Seq<u8>>) -> bool {
    is_matrix(m, m.len(), m.len())
}

/// Column `c` of `m`.
pub open spec fn column(m: Seq<Seq<u8>>, c: int) -> Seq<u8> {
    Seq::new(m.len(), |r: int| m[r][c])
}

/// The identity matrix of side `n`.
pub open spec fn identity(n: nat) -> Seq<Seq<u8>> {
    Seq::new(n, |r: int| unit_vec(n, r))
}

/// The row vector `u` times the matrix `m` of `cols` columns.
pub open spec fn row_times(u: Seq<u8>, m: Seq<Seq<u8>>, cols: nat) -> Seq<u8> {
    Seq::new(cols, |c: int| dot(u, column(m, c)))
}

/// The matrix `m` times the column vector `v`.
pub open spec fn times_column(m: Seq<Seq<u8>>, v: Seq<u8>) -> Seq<u8> {
    Seq::new(m.len(), |r: int| dot(m[r], v))
}

/// The product of two square matrices of one side.
pub open spec fn mat_mul(a: Seq<Seq<u8>>, b: Seq<Seq<u8>>) -> Seq<Seq<u8>> {
    Seq::new(a.len(), |r: int| row_times(a[r], b, b.len()))
}

/// `d` is the inverse of the square matrix `m`, on both sides.
pub open spec fn is_inverse(d: Seq<Seq<u8>>, m: Seq<Seq<u8>>) -> bool {
    &&& is_square(m)
    &&& is_matrix(d, m.len(), m.len())
    &&& mat_mul(d, m) == identity(m.len())
    &&& mat_mul(m, d) == identity(m.len())
}

/// The first `k` rows and columns of `m`.
pub open spec fn leading(m: Seq<Seq<u8>>, k: int) -> Seq<Seq<u8>> {
    Seq::new(k as nat, |r: int| m[r].take(k))
}

/// `u` is a row vector other than zero whose product with the square matrix
/// `m` is zero.
pub open spec fn annihilates(u: Seq<u8>, m: Seq<Seq<u8>>) -> bool {
    &&& u.len() == m.len()
    &&& !is_zero_vec(u)
    &&& is_zero_vec(row_times(u, m, m.len()))
}

/// Some nontrivial combination of the rows of the square matrix `m` is zero.
pub open spec fn singular(m: Seq<Seq<u8>>) -> bool {
    exists|u: Seq<u8>| annihilates(u, m)
}

/// None of the leading blocks of `m`, the whole of `m` included, is singular.
/// These are the matrices that elimination without row exchanges inverts.
pub open spec fn strongly_nonsingular(m: Seq<Seq<u8>>) -> bool {
    forall|k: int| 1 <= k <= m.len() ==> !singular(#[trigger] leading(m, k))
}

/// Row `i` of `m` multiplied by `c`.
pub open spec fn scale_row(m: Seq<Seq<u8>>, i: int, c: u8) -> Seq<Seq<u8>> {
    m.update(i, vec_scale(m[i], c))
}

/// `c` times row `i` of `m` added to row `j`.
pub open spec fn add_scaled_row(m: Seq<Seq<u8>>, j: int, i: int, c: u8) -> Seq<Seq<u8>> {
    m.update(j, vec_add(m[j], vec_scale(m[i], c)))
}

/// Column `i` of `m` multiplied by `c`.
pub open spec fn scale_column(m: Seq<Seq<u8>>, i: int, c: u8) -> Seq<Seq<u8>> {
    Seq::new(m.len(), |r: int| m[r].update(i, gf_mul(m[r][i], c)))
}

/// `c` times column `j` of `m` added to column `i`.
pub open spec fn add_scaled_column(m: Seq<Seq<u8>>, i: int, j: int, c: u8) -> Seq<Seq<u8>> {
    Seq::new(m.len(), |r: int| m[r].update(i, gf_add(m[r][i], gf_mul(m[r][j], c))))
}

/// The product of a row of the identity with a vector picks one entry.
pub proof fn lemma_dot_unit(n: nat, i: int, v: Seq<u8>)
    requires
        0 <= i < n,
        v.len() == n,
    ensures
        dot(unit_vec(n, i), v) == v[i],
        dot(v, unit_vec(n, i)) == v[i],
{
    lemma_dot_single(unit_vec(n, i), v, i);
    lemma_mul_one(v[i]);
    lemma_dot_commutative(v, unit_vec(n, i));
}

/// A column of the identity is a unit vector.
pub proof fn lemma_identity_column(n: nat, c: int)
    requires
        0 <= c < n,
    ensures
        column(identity(n), c) == unit_vec(n, c),
{
    assert(column(identity(n), c) =~= unit_vec(n, c));
}

/// Multiplying by the identity changes nothing.
pub proof fn lemma_mul_identity(m: Seq<Seq<u8>>)
    requires
        is_square(m),
    ensures
        mat_mul(m, identity(m.len())) == m,
        mat_mul(identity(m.len()), m) == m,
{
    let n = m.len();
    let id = identity(n);
    assert forall|r: int, c: int| 0 <= r < n && 0 <= c < n implies mat_mul(m, id)[r][c]
        == m[r][c] && mat_mul(id, m)[r][c] == m[r][c] by {
        lemma_identity_column(n, c);
        lemma_dot_unit(n, c, m[r]);
        lemma_dot_unit(n, r, column(m, c));
    }
    assert(mat_mul(m, id) =~~= m);
    assert(mat_mul(id, m) =~~= m);
}

/// Scaling a row of the left factor scales that row of the product.
pub proof fn lemma_scale_row_product(a: Seq<Seq<u8>>, b: Seq<Seq<u8>>, i: int, c: u8)
    requires
        is_square(a),
        is_matrix(b, a.len(), a.len()),
        0 <= i < a.len(),
    ensures
        mat_mul(scale_row(a, i, c), b) == scale_row(mat_mul(a, b), i, c),
{
    let n = a.len();
    assert forall|x: int| 0 <= x < n implies #[trigger] mat_mul(scale_row(a, i, c), b)[i][x]
        == scale_row(mat_mul(a, b), i, c)[i][x] by {
        lemma_dot_scale(a[i], c, column(b, x));
    }
    assert(mat_mul(scale_row(a, i, c), b) =~~= scale_row(mat_mul(a, b), i, c));
}

/// Adding a multiple of one row of the left factor to another does the same
/// to the product.
pub proof fn lemma_add_row_product(a: Seq<Seq<u8>>, b: Seq<Seq<u8>>, j: int, i: int, c: u8)
    requires
        is_square(a),
        is_matrix(b, a.len(), a.len()),
        0 <= i < a.len(),
        0 <= j < a.len(),
    ensures
        mat_mul(add_scaled_row(a, j, i, c), b) == add_scaled_row(mat_mul(a, b), j, i, c),
{
    let n = a.len();
    assert forall|x: int| 0 <= x < n implies #[trigger] mat_mul(add_scaled_row(a, j, i, c), b)[j][x]
        == add_scaled_row(mat_mul(a, b), j, i, c)[j][x] by {
        lemma_dot_add(a[j], vec_scale(a[i], c), column(b, x));
        lemma_dot_scale(a[i], c, column(b, x));
    }
    assert(mat_mul(add_scaled_row(a, j, i, c), b) =~~= add_scaled_row(mat_mul(a, b), j, i, c));
}

/// Scaling a column of the left factor by `p` and the matching row of the
/// right factor by the inverse of `p` leaves the product as it was.
pub proof fn lemma_scale_column_product(a: Seq<Seq<u8>>, b: Seq<Seq<u8>>, i: int, p: u8, q: u8)
    requires
        is_square(a),
        is_matrix(b, a.len(), a.len()),
        0 <= i < a.len(),
        gf_mul(p, q) == 1,
    ensures
        mat_mul(scale_column(a, i, p), scale_row(b, i, q)) == mat_mul(a, b),
{
    let n = a.len();
    let a2 = scale_column(a, i, p);
    let b2 = scale_row(b, i, q);
    assert forall|r: int, x: int| 0 <= r < n && 0 <= x < n implies #[trigger] mat_mul(
        a2,
        b2,
    )[r][x] == mat_mul(a, b)[r][x] by {
        let old_terms = vec_mul(a[r], column(b, x));
        let new_terms = vec_mul(a2[r], column(b2, x));
        assert(new_terms[i] == old_terms[i]) by {
            lemma_mul_associative(a[r][i], p, gf_mul(b[i][x], q));
            lemma_mul_commutative(b[i][x], q);
            lemma_mul_associative(p, q, b[i][x]);
            lemma_mul_one(b[i][x]);
        }
        assert(new_terms =~= old_terms);
    }
    assert(mat_mul(a2, b2) =~~= mat_mul(a, b));
}

/// Adding `c` times column `j` of the left factor to its column `i`, and
/// `c` times row `i` of the right factor to its row `j`, leaves the product
/// as it was.
pub proof fn lemma_add_column_product(a: Seq<Seq<u8>>, b: Seq<Seq<u8>>, i: int, j: int, c: u8)
    requires
        is_square(a),
        is_matrix(b, a.len(), a.len()),
        0 <= i < a.len(),
        0 <= j < a.len(),
        i != j,
    ensures
        mat_mul(add_scaled_column(a, i, j, c), add_scaled_row(b, j, i, c)) == mat_mul(a, b),
{
    let n = a.len();
    let a2 = add_scaled_column(a, i, j, c);
    let b2 = add_scaled_row(b, j, i, c);
    assert forall|r: int, x: int| 0 <= r < n && 0 <= x < n implies #[trigger] mat_mul(
        a2,
        b2,
    )[r][x] == mat_mul(a, b)[r][x] by {
        let old_terms = vec_mul(a[r], column(b, x));
        let new_terms = vec_mul(a2[r], column(b2, x));
        let cross = gf_mul(gf_mul(a[r][j], c), b[i][x]);
        assert(new_terms[i] == gf_add(old_terms[i], cross)) by {
            lemma_mul_distributive(b[i][x], a[r][i], gf_mul(a[r][j], c));
        }
        assert(new_terms[j] == gf_add(old_terms[j], cross)) by {
            lemma_mul_distributive(a[r][j], b[j][x], gf_mul(b[i][x], c));
            lemma_mul_commutative(b[i][x], c);
            lemma_mul_associative(a[r][j], c, b[i][x]);
        }
        let mid = old_terms.update(i, new_terms[i]);
        lemma_sum_update(old_terms, i, new_terms[i]);
        lemma_sum_update(mid, j, new_terms[j]);
        assert(mid.update(j, new_terms[j]) =~= new_terms);
        lemma_add_cross(seq_sum(old_terms), old_terms[i], old_terms[j], cross);
    }
    assert(mat_mul(a2, b2) =~~= mat_mul(a, b));
}

proof fn lemma_add_cross(s: u8, x: u8, y: u8, cross: u8)
    by (bit_vector)
    ensures
        (((s ^ x) ^ (x ^ cross)) ^ y) ^ (y ^ cross) == s,
{
}

/// A row vector times a matrix times a column vector can be bracketed
/// either way.
pub proof fn lemma_dot_associative(u: Seq<u8>, m: Seq<Seq<u8>>, v: Seq<u8>)
    requires
        is_matrix(m, u.len(), v.len()),
    ensures
        dot(row_times(u, m, v.len()), v) == dot(u, times_column(m, v)),
    decreases u.len(),
{
    let cols = v.len();
    if u.len() == 0 {
        assert forall|c: int| 0 <= c < cols implies row_times(u, m, cols)[c] == 0 by {
            assert(vec_mul(u, column(m, c)) =~= Seq::<u8>::empty());
        }
        lemma_dot_zero(row_times(u, m, cols), v);
        assert(vec_mul(u, times_column(m, v)) =~= Seq::<u8>::empty());
    } else {
        let u1 = u.drop_last();
        let m1 = m.drop_last();
        let x = u.last();
        let row = m.last();
        lemma_dot_associative(u1, m1, v);
        let upper = row_times(u1, m1, cols);
        assert forall|c: int| 0 <= c < cols implies row_times(u, m, cols)[c] == vec_add(
            upper,
            vec_scale(row, x),
        )[c] by {
            assert(vec_mul(u, column(m, c)).drop_last() =~= vec_mul(u1, column(m1, c)));
            lemma_mul_commutative(x, row[c]);
        }
        assert(row_times(u, m, cols) =~= vec_add(upper, vec_scale(row, x)));
        lemma_dot_add(upper, vec_scale(row, x), v);
        lemma_dot_scale(row, x, v);
        assert(vec_mul(u, times_column(m, v)).drop_last() =~= vec_mul(
            u1,
            times_column(m1, v),
        ));
        lemma_mul_commutative(x, dot(row, v));
    }
}

/// A square matrix with an inverse on its right is not singular.
pub proof fn lemma_right_inverse_regular(a: Seq<Seq<u8>>, r: Seq<Seq<u8>>)
    requires
        is_square(a),
        is_matrix(r, a.len(), a.len()),
        mat_mul(a, r) == identity(a.len()),
    ensures
        !singular(a),
{
    let n = a.len();
    assert forall|u: Seq<u8>| !annihilates(u, a) by {
        if u.len() == n && is_zero_vec(row_times(u, a, n)) {
            assert forall|c: int| 0 <= c < n implies u[c] == 0 by {
                let col = column(r, c);
                lemma_dot_associative(u, a, col);
                lemma_dot_zero(row_times(u, a, n), col);
                assert forall|x: int| 0 <= x < n implies times_column(a, col)[x] == unit_vec(
                    n,
                    c,
                )[x] by {
                    assert(mat_mul(a, r)[x][c] == identity(n)[x][c]);
                }
                assert(times_column(a, col) =~= unit_vec(n, c));
                lemma_dot_unit(n, c, u);
            }
        }
    }
}

/// A square matrix has at most one inverse.
pub proof fn lemma_inverse_unique(d1: Seq<Seq<u8>>, d2: Seq<Seq<u8>>, m: Seq<Seq<u8>>)
    requires
        is_inverse(d1, m),
        is_inverse(d2, m),
    ensures
        d1 == d2,
{
    let n = m.len();
    assert forall|r: int, c: int| 0 <= r < n && 0 <= c < n implies d1[r][c] == d2[r][c] by {
        // d1[r] * (m * d2[.][c]) == (d1[r] * m) * d2[.][c]
        let col = column(d2, c);
        lemma_dot_associative(d1[r], m, col);
        assert forall|x: int| 0 <= x < n implies times_column(m, col)[x] == unit_vec(n, c)[x] by {
            assert(mat_mul(m, d2)[x][c] == identity(n)[x][c]);
        }
        assert(times_column(m, col) =~= unit_vec(n, c));
        assert forall|x: int| 0 <= x < n implies row_times(d1[r], m, n)[x] == unit_vec(n, r)[x] by {
            assert(mat_mul(d1, m)[r][x] == identity(n)[r][x]);
        }
        assert(row_times(d1[r], m, n) =~= unit_vec(n, r));
        lemma_dot_unit(n, c, d1[r]);
        lemma_dot_unit(n, r, col);
    }
    assert(d1 =~~= d2);
}

// ---------------------------------------------------------------------------
// Reordering
// ---------------------------------------------------------------------------

/// `order` lists each of the places `0, ..., order.len() - 1` once.
pub open spec fn is_permutation(order: Seq<int>) -> bool {
    &&& forall|i: int| 0 <= i < order.len() ==> 0 <= #[trigger] order[i] < order.len()
    &&& forall|i: int, j: int| 0 <= i < j < order.len() ==> order[i] != order[j]
}

/// The entries of `s` in the order that `order` gives.
pub open spec fn reordered(s: Seq<u8>, order: Seq<int>) -> Seq<u8> {
    Seq::new(order.len(), |i: int| s[order[i]])
}

/// What is left of a permutation when its last place is taken out: the
/// places above it move down by one.
spec fn without_last(order: Seq<int>) -> Seq<int> {
    let p = order.last();
    Seq::new(
        (order.len() - 1) as nat,
        |i: int|
            if order[i] < p {
                order[i]
            } else {
                order[i] - 1
            },
    )
}

proof fn lemma_without_last(order: Seq<int>)
    requires
        is_permutation(order),
        order.len() > 0,
    ensures
        is_permutation(without_last(order)),
{
    let rest = without_last(order);
    let last = order.len() - 1;
    assert forall|i: int| 0 <= i < rest.len() implies 0 <= #[trigger] rest[i] < rest.len() by {
        assert(0 <= order[i] < order.len());
        assert(0 <= order[last] < order.len());
        assert(order[i] != order[last]);
    }
    assert forall|i: int, j: int| 0 <= i < j < rest.len() implies rest[i] != rest[j] by {
        assert(order[i] != order[j]);
        assert(order[i] != order[last]);
        assert(order[j] != order[last]);
    }
}

/// A permutation reaches every place.
pub proof fn lemma_permutation_onto(order: Seq<int>, target: int)
    requires
        is_permutation(order),
        0 <= target < order.len(),
    ensures
        exists|i: int| 0 <= i < order.len() && order[i] == target,
    decreases order.len(),
{
    let last = order.len() - 1;
    let p = order[last];
    assert(0 <= p < order.len());
    if p == target {
        assert(order[last] == target);
    } else {
        let rest = without_last(order);
        lemma_without_last(order);
        let lowered = if target < p {
            target
        } else {
            target - 1
        };
        lemma_permutation_onto(rest, lowered);
        let i = choose|i: int| 0 <= i < rest.len() && rest[i] == lowered;
        assert(order[i] != p);
        assert(order[i] == target);
    }
}

proof fn lemma_sum_remove(s: Seq<u8>, p: int)
    requires
        0 <= p < s.len(),
    ensures
        seq_sum(s) == gf_add(seq_sum(s.remove(p)), s[p]),
    decreases s.len(),
{
    if p == s.len() - 1 {
        assert(s.remove(p) =~= s.drop_last());
    } else {
        let rest = s.drop_last();
        lemma_sum_remove(rest, p);
        assert(s.remove(p).drop_last() =~= rest.remove(p));
        assert(s.remove(p).last() == s.last());
        lemma_add_replace(seq_sum(rest.remove(p)), s.last(), 0, s[p]);
        lemma_add_zero(seq_sum(rest.remove(p)));
        lemma_add_zero(gf_add(seq_sum(rest.remove(p)), s.last()));
    }
}

/// The sum of a vector does not depend on the order of its entries.
pub proof fn lemma_sum_reordered(s: Seq<u8>, order: Seq<int>)
    requires
        is_permutation(order),
        order.len() == s.len(),
    ensures
        seq_sum(reordered(s, order)) == seq_sum(s),
    decreases s.len(),
{
    if s.len() > 0 {
        let last = order.len() - 1;
        let p = order[last];
        assert(0 <= p < order.len());
        let rest = without_last(order);
        lemma_without_last(order);
        let fewer = s.remove(p);
        lemma_sum_reordered(fewer, rest);
        assert forall|i: int| 0 <= i < last implies reordered(s, order).drop_last()[i]
            == reordered(fewer, rest)[i] by {
            assert(0 <= order[i] < order.len());
            assert(order[i] != order[last]);
        }
        assert(reordered(s, order).drop_last() =~= reordered(fewer, rest));
        lemma_sum_remove(s, p);
    }
}

} // verus!
