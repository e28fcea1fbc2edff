//! What dispersal and reconstruction compute, as mathematical functions.
//!
//! The data is cut into chunks of `k` bytes. A chunk is read as the
//! coefficients of a polynomial of degree below `k`; the share with the
//! identifier `x` holds, for every chunk, the value of its polynomial at `x`.
//! Any `k` shares with distinct identifiers give `k` values of each
//! polynomial, from which its coefficients are recovered by solving a
//! Vandermonde system.

use crate::error::IdaError;
use crate::linalg::{
    column, dot, identity, is_inverse, is_permutation, lemma_dot_associative,
    lemma_dot_commutative, lemma_dot_unit, lemma_inverse_unique, lemma_permutation_onto,
    lemma_sum_reordered, mat_mul, reordered, row_times, times_column, unit_vec, vec_mul,
};
use crate::matrix::lemma_inverse_exists;
use crate::share::ShareView;
use crate::vandermonde::{distinct, lemma_distinct_nodes_regular, powers, vandermonde};
use vstd::prelude::*;

verus! {

/// The number of chunks of `k` bytes that hold `length` bytes: `length / k`,
/// rounded up.
pub open spec fn chunk_count(length: nat, k: nat) -> nat {
    if length % k == 0 {
        length / k
    } else {
        length / k + 1
    }
}

/// The byte of `data` at `index`, or zero beyond the end of `data`.
pub open spec fn coefficient(data: Seq<u8>, index: int) -> u8 {
    if 0 <= index < data.len() {
        data[index]
    } else {
        0
    }
}

/// Chunk `c` of `data`: the `k` bytes from `c * k` on, with zeros after the
/// end of `data`.
pub open spec fn chunk(data: Seq<u8>, k: nat, c: int) -> Seq<u8> {
    Seq::new(k, |j: int| coefficient(data, c * k + j))
}

/// The value at `x` of the polynomial whose coefficient of degree `j` is
/// `coeffs[j]`.
pub open spec fn poly_eval(coeffs: Seq<u8>, x: u8) -> u8 {
    dot(coeffs, powers(x, coeffs.len()))
}

/// The body of the share with the identifier `x`: the value at `x` of the
/// polynomial of each chunk, in the order of the chunks.
pub open spec fn share_body(data: Seq<u8>, k: nat, x: u8) -> Seq<u8> {
    Seq::new(chunk_count(data.len(), k), |c: int| poly_eval(chunk(data, k, c), x))
}

/// The share of `data` with the identifier `x`, for the threshold `k`.
pub open spec fn dispersed_share(data: Seq<u8>, k: nat, x: u8) -> ShareView {
    ShareView { id: x, length: data.len(), body: share_body(data, k, x) }
}

/// The `n` shares of `data` for the threshold `k`, with the identifiers
/// `1, ..., n` in this order.
pub open spec fn dispersal(data: Seq<u8>, n: nat, k: nat) -> Seq<ShareView> {
    Seq::new(n, |i: int| dispersed_share(data, k, (i + 1) as u8))
}

/// The identifiers of `shares`, in their order.
pub open spec fn node_ids(shares: Seq<ShareView>) -> Seq<u8> {
    Seq::new(shares.len(), |i: int| shares[i].id)
}

/// Byte `c` of the body of each share, in the order of the shares.
pub open spec fn body_column(shares: Seq<ShareView>, c: int) -> Seq<u8> {
    Seq::new(shares.len(), |x: int| shares[x].body[c])
}

/// The shares can stem from one dispersal into `n` shares: each identifier
/// is one of `1, ..., n`, and all agree on the length of the data and on the
/// length of the body.
pub open spec fn consistent(shares: Seq<ShareView>, n: nat) -> bool {
    forall|i: int|
        0 <= i < shares.len() ==> {
            &&& 1 <= (#[trigger] shares[i]).id <= n
            &&& shares[i].length == shares[0].length
            &&& shares[i].body.len() == shares[0].body.len()
        }
}

/// The inverse of a matrix that has one.
pub open spec fn inverse_of(m: Seq<Seq<u8>>) -> Seq<Seq<u8>> {
    choose|d: Seq<Seq<u8>>| is_inverse(d, m)
}

/// The byte at `index` of the data that the shares `chosen`, with distinct
/// identifiers, determine: the coefficient of degree `index % k` of the
/// polynomial of degree below `k` that takes at each share's identifier the
/// byte `index / k` of its body, where `k` is the number of shares. Beyond
/// the bodies the data is zero.
pub open spec fn recovered_byte(chosen: Seq<ShareView>, index: int) -> u8 {
    let k = chosen.len() as int;
    let c = index / k;
    let j = index % k;
    if c < chosen[0].body.len() {
        dot(inverse_of(vandermonde(node_ids(chosen)))[j], body_column(chosen, c))
    } else {
        0
    }
}

/// What reconstruction from `shares` gives, for a dispersal into `n` shares
/// with the threshold `k`. The first `k` shares are the ones used.
pub open spec fn reconstruction(shares: Seq<ShareView>, n: nat, k: nat) -> Result<
    Seq<u8>,
    IdaError,
> {
    if shares.len() < k {
        Err(IdaError::InsufficientShares)
    } else if !consistent(shares, n) {
        Err(IdaError::InconsistentShares)
    } else if !distinct(node_ids(shares.take(k as int))) {
        Err(IdaError::SingularMatrix)
    } else {
        Ok(Seq::new(shares[0].length, |index: int| recovered_byte(shares.take(k as int), index)))
    }
}

// ---------------------------------------------------------------------------
// Laws
// ---------------------------------------------------------------------------

/// The shares at the places `picked` of `shares`, in the order of `picked`.
pub open spec fn selection(shares: Seq<ShareView>, picked: Seq<int>) -> Seq<ShareView> {
    Seq::new(picked.len(), |i: int| shares[picked[i]])
}

/// `picked` names at least `k` places among `n`, the first `k` of them
/// different from each other.
pub open spec fn picks_threshold(picked: Seq<int>, n: nat, k: nat) -> bool {
    &&& picked.len() >= k
    &&& forall|i: int| 0 <= i < picked.len() ==> 0 <= #[trigger] picked[i] < n
    &&& forall|i: int, j: int| 0 <= i < j < k ==> picked[i] != picked[j]
}

proof fn lemma_chunk_of_index(length: nat, k: nat, index: nat)
    by (nonlinear_arith)
    requires
        k > 0,
        index < length,
    ensures
        index / k < chunk_count(length, k),
        (index / k) * k + index % k == index,
        0 <= index % k < k,
{
}

/// The Vandermonde matrix of distinct nodes has an inverse.
pub proof fn lemma_decoder_exists(nodes: Seq<u8>)
    requires
        distinct(nodes),
    ensures
        is_inverse(inverse_of(vandermonde(nodes)), vandermonde(nodes)),
{
    lemma_distinct_nodes_regular(nodes);
    lemma_inverse_exists(vandermonde(nodes));
}

/// The shares of one polynomial give its coefficients back: where byte `c`
/// of each body of `chosen` is the value of the polynomial with the
/// coefficients `coeffs` at that share's identifier, and the identifiers are
/// distinct, the recovered byte at `c * k + j` is `coeffs[j]`.
proof fn lemma_interpolation(chosen: Seq<ShareView>, coeffs: Seq<u8>, c: int, j: int)
    requires
        distinct(node_ids(chosen)),
        coeffs.len() == chosen.len(),
        0 <= j < chosen.len(),
        forall|x: int|
            0 <= x < chosen.len() ==> (#[trigger] chosen[x]).body[c] == poly_eval(
                coeffs,
                chosen[x].id,
            ),
    ensures
        dot(inverse_of(vandermonde(node_ids(chosen)))[j], body_column(chosen, c)) == coeffs[j],
{
    let k = chosen.len();
    let nodes = node_ids(chosen);
    let v = vandermonde(nodes);
    let d = inverse_of(v);
    lemma_decoder_exists(nodes);
    assert forall|x: int| 0 <= x < k implies body_column(chosen, c)[x] == times_column(
        v,
        coeffs,
    )[x] by {
        assert(chosen[x].body[c] == poly_eval(coeffs, chosen[x].id));
        lemma_dot_commutative(coeffs, powers(nodes[x], k));
    }
    assert(body_column(chosen, c) =~= times_column(v, coeffs));
    lemma_dot_associative(d[j], v, coeffs);
    assert forall|x: int| 0 <= x < k implies row_times(d[j], v, k)[x] == unit_vec(k, j)[x] by {
        assert(mat_mul(d, v)[j][x] == identity(k)[j][x]);
    }
    assert(row_times(d[j], v, k) =~= unit_vec(k, j));
    lemma_dot_unit(k, j, coeffs);
}

/// Round trip: from a dispersal of `data` into `n` shares with the threshold
/// `k`, any selection of shares whose first `k` are different shares
/// reconstructs to `data`, whatever their order.
pub proof fn lemma_round_trip(data: Seq<u8>, n: nat, k: nat, picked: Seq<int>)
    requires
        1 <= k <= n <= 255,
        picks_threshold(picked, n, k),
    ensures
        reconstruction(selection(dispersal(data, n, k), picked), n, k) == Ok::<Seq<u8>, IdaError>(
            data,
        ),
{
    let all = dispersal(data, n, k);
    let shares = selection(all, picked);
    let chosen = shares.take(k as int);
    assert forall|i: int| 0 <= i < shares.len() implies {
        &&& 1 <= (#[trigger] shares[i]).id <= n
        &&& shares[i].length == shares[0].length
        &&& shares[i].body.len() == shares[0].body.len()
    } by {
        assert(0 <= picked[i] < n);
        assert(0 <= picked[0] < n);
    }
    assert(consistent(shares, n));
    assert forall|i: int, j: int| 0 <= i < j < k implies node_ids(chosen)[i] != node_ids(
        chosen,
    )[j] by {
        assert(0 <= picked[i] < n);
        assert(0 <= picked[j] < n);
    }
    assert(distinct(node_ids(chosen)));
    assert(0 <= picked[0] < n);
    assert(shares[0].length == data.len());
    let recovered = Seq::new(shares[0].length, |index: int| recovered_byte(chosen, index));
    assert forall|index: int| 0 <= index < data.len() implies recovered_byte(chosen, index)
        == data[index] by {
        lemma_chunk_of_index(data.len(), k, index as nat);
        let c = index / (k as int);
        let j = index % (k as int);
        let coeffs = chunk(data, k, c);
        assert(chosen[0] == shares[0]);
        assert forall|x: int| 0 <= x < k implies (#[trigger] chosen[x]).body[c] == poly_eval(
            coeffs,
            chosen[x].id,
        ) by {
            assert(0 <= picked[x] < n);
        }
        lemma_interpolation(chosen, coeffs, c, j);
    }
    assert(recovered =~= data);
}

/// Subset independence: two selections from one dispersal, each with `k`
/// different shares in front, reconstruct to the same bytes, the data.
pub proof fn lemma_subset_independence(
    data: Seq<u8>,
    n: nat,
    k: nat,
    first: Seq<int>,
    second: Seq<int>,
)
    requires
        1 <= k <= n <= 255,
        picks_threshold(first, n, k),
        picks_threshold(second, n, k),
    ensures
        reconstruction(selection(dispersal(data, n, k), first), n, k) == reconstruction(
            selection(dispersal(data, n, k), second),
            n,
            k,
        ),
        reconstruction(selection(dispersal(data, n, k), first), n, k) == Ok::<Seq<u8>, IdaError>(
            data,
        ),
{
    lemma_round_trip(data, n, k, first);
    lemma_round_trip(data, n, k, second);
}

/// Threshold necessity: fewer than `k` shares never reconstruct.
pub proof fn lemma_threshold_necessity(shares: Seq<ShareView>, n: nat, k: nat)
    requires
        shares.len() < k,
    ensures
        reconstruction(shares, n, k) == Err::<Seq<u8>, IdaError>(IdaError::InsufficientShares),
{
}

/// The inverse of a Vandermonde matrix whose nodes are reordered has its
/// columns reordered in the same way.
proof fn lemma_decoder_reordered(nodes: Seq<u8>, order: Seq<int>)
    requires
        distinct(nodes),
        is_permutation(order),
        order.len() == nodes.len(),
    ensures
        is_inverse(
            inverse_of(vandermonde(reordered(nodes, order))),
            vandermonde(reordered(nodes, order)),
        ),
        forall|j: int, i: int|
            0 <= j < nodes.len() && 0 <= i < nodes.len() ==> #[trigger] inverse_of(
                vandermonde(reordered(nodes, order)),
            )[j][i] == inverse_of(vandermonde(nodes))[j][order[i]],
{
    let k = nodes.len();
    let v = vandermonde(nodes);
    let d = inverse_of(v);
    let moved = reordered(nodes, order);
    let w = vandermonde(moved);
    lemma_decoder_exists(nodes);
    let e = Seq::new(k, |j: int| Seq::new(k, |i: int| d[j][order[i]]));
    assert forall|j: int, l: int| 0 <= j < k && 0 <= l < k implies #[trigger] mat_mul(e, w)[j][l]
        == identity(k)[j][l] by {
        let terms = vec_mul(d[j], column(v, l));
        assert forall|i: int| 0 <= i < k implies vec_mul(e[j], column(w, l))[i] == reordered(
            terms,
            order,
        )[i] by {
            assert(0 <= order[i] < k);
        }
        assert(vec_mul(e[j], column(w, l)) =~= reordered(terms, order));
        lemma_sum_reordered(terms, order);
        assert(mat_mul(d, v)[j][l] == identity(k)[j][l]);
    }
    assert(mat_mul(e, w) =~~= identity(k));
    assert forall|i: int, j: int| 0 <= i < k && 0 <= j < k implies #[trigger] mat_mul(w, e)[i][j]
        == identity(k)[i][j] by {
        assert(0 <= order[i] < k);
        assert(0 <= order[j] < k);
        assert(w[i] =~= v[order[i]]);
        assert(column(e, j) =~= column(d, order[j]));
        assert(mat_mul(v, d)[order[i]][order[j]] == identity(k)[order[i]][order[j]]);
        if i < j {
            assert(order[i] != order[j]);
        }
        if j < i {
            assert(order[j] != order[i]);
        }
    }
    assert(mat_mul(w, e) =~~= identity(k));
    assert(is_inverse(e, w));
    lemma_inverse_unique(inverse_of(w), e, w);
}

/// Shuffle invariance: what exactly `k` shares reconstruct to does not
/// depend on the order in which they are given.
pub proof fn lemma_shuffle_invariance(shares: Seq<ShareView>, order: Seq<int>, n: nat, k: nat)
    requires
        k >= 1,
        shares.len() == k,
        is_permutation(order),
        order.len() == k,
    ensures
        reconstruction(selection(shares, order), n, k) == reconstruction(shares, n, k),
{
    let moved = selection(shares, order);
    assert(moved.take(k as int) =~= moved);
    assert(shares.take(k as int) =~= shares);
    assert(0 <= order[0] < k);
    // both orders hold the same shares
    assert(consistent(shares, n) ==> consistent(moved, n)) by {
        if consistent(shares, n) {
            assert forall|i: int| 0 <= i < moved.len() implies {
                &&& 1 <= (#[trigger] moved[i]).id <= n
                &&& moved[i].length == moved[0].length
                &&& moved[i].body.len() == moved[0].body.len()
            } by {
                assert(0 <= order[i] < k);
                assert(moved[i] == shares[order[i]]);
                assert(moved[0] == shares[order[0]]);
            }
        }
    }
    assert(consistent(moved, n) ==> consistent(shares, n)) by {
        if consistent(moved, n) {
            lemma_permutation_onto(order, 0);
            let zero = choose|i: int| 0 <= i < order.len() && order[i] == 0;
            assert(moved[zero] == shares[0]);
            assert forall|x: int| 0 <= x < shares.len() implies {
                &&& 1 <= (#[trigger] shares[x]).id <= n
                &&& shares[x].length == shares[0].length
                &&& shares[x].body.len() == shares[0].body.len()
            } by {
                lemma_permutation_onto(order, x);
                let i = choose|i: int| 0 <= i < order.len() && order[i] == x;
                assert(moved[i] == shares[x]);
            }
        }
    }
    let ids = node_ids(shares);
    assert(node_ids(moved) =~= reordered(ids, order));
    assert(distinct(ids) ==> distinct(node_ids(moved))) by {
        if distinct(ids) {
            assert forall|i: int, j: int| 0 <= i < j < k implies node_ids(moved)[i] != node_ids(
                moved,
            )[j] by {
                assert(0 <= order[i] < k);
                assert(0 <= order[j] < k);
                assert(order[i] != order[j]);
                if order[i] < order[j] {
                    assert(ids[order[i]] != ids[order[j]]);
                } else {
                    assert(ids[order[j]] != ids[order[i]]);
                }
            }
        }
    }
    assert(distinct(node_ids(moved)) ==> distinct(ids)) by {
        if distinct(node_ids(moved)) {
            assert forall|x: int, y: int| 0 <= x < y < k implies ids[x] != ids[y] by {
                lemma_permutation_onto(order, x);
                lemma_permutation_onto(order, y);
                let i = choose|i: int| 0 <= i < order.len() && order[i] == x;
                let j = choose|j: int| 0 <= j < order.len() && order[j] == y;
                if i < j {
                    assert(node_ids(moved)[i] != node_ids(moved)[j]);
                } else {
                    assert(node_ids(moved)[j] != node_ids(moved)[i]);
                }
            }
        }
    }
    if consistent(shares, n) && distinct(ids) {
        assert(moved[0] == shares[order[0]]);
        lemma_decoder_reordered(ids, order);
        let a = Seq::new(shares[0].length, |index: int| recovered_byte(shares, index));
        let b = Seq::new(moved[0].length, |index: int| recovered_byte(moved, index));
        assert forall|index: int| 0 <= index < shares[0].length implies recovered_byte(
            moved,
            index,
        ) == recovered_byte(shares, index) by {
            let c = index / (k as int);
            let j = index % (k as int);
            lemma_chunk_of_index(shares[0].length, k, index as nat);
            if c < shares[0].body.len() {
                let d = inverse_of(vandermonde(ids));
                let e = inverse_of(vandermonde(node_ids(moved)));
                lemma_decoder_exists(ids);
                assert(d[j].len() == k);
                assert(e[j].len() == k);
                let terms = vec_mul(d[j], body_column(shares, c));
                assert forall|i: int| 0 <= i < k implies vec_mul(e[j], body_column(moved, c))[i]
                    == reordered(terms, order)[i] by {
                    assert(0 <= order[i] < k);
                    assert(e[j][i] == d[j][order[i]]);
                }
                assert(vec_mul(e[j], body_column(moved, c)) =~= reordered(terms, order));
                lemma_sum_reordered(terms, order);
            }
        }
        assert(a =~= b);
    }
}

/// Shuffle invariance for the shares of a dispersal: any number of
/// different shares of one dispersal, at least `k`, reconstruct to the data
/// in whatever order they are given.
pub proof fn lemma_shuffle_dispersal(
    data: Seq<u8>,
    n: nat,
    k: nat,
    picked: Seq<int>,
    order: Seq<int>,
)
    requires
        1 <= k <= n <= 255,
        picked.len() >= k,
        forall|i: int| 0 <= i < picked.len() ==> 0 <= #[trigger] picked[i] < n,
        forall|i: int, j: int| 0 <= i < j < picked.len() ==> picked[i] != picked[j],
        is_permutation(order),
        order.len() == picked.len(),
    ensures
        reconstruction(selection(selection(dispersal(data, n, k), picked), order), n, k)
            == reconstruction(selection(dispersal(data, n, k), picked), n, k),
        reconstruction(selection(dispersal(data, n, k), picked), n, k) == Ok::<Seq<u8>, IdaError>(
            data,
        ),
{
    let all = dispersal(data, n, k);
    let moved = Seq::new(order.len(), |i: int| picked[order[i]]);
    assert forall|i: int| 0 <= i < moved.len() implies 0 <= #[trigger] moved[i] < n by {
        assert(0 <= order[i] < order.len());
        assert(0 <= picked[order[i]] < n);
    }
    assert forall|i: int, j: int| 0 <= i < j < k implies moved[i] != moved[j] by {
        assert(0 <= order[i] < order.len());
        assert(0 <= order[j] < order.len());
        assert(order[i] != order[j]);
        if order[i] < order[j] {
            assert(picked[order[i]] != picked[order[j]]);
        } else {
            assert(picked[order[j]] != picked[order[i]]);
        }
    }
    assert forall|i: int| 0 <= i < order.len() implies selection(selection(all, picked), order)[i]
        == selection(all, moved)[i] by {
        assert(0 <= order[i] < order.len());
    }
    assert(selection(selection(all, picked), order) =~= selection(all, moved));
    lemma_round_trip(data, n, k, picked);
    lemma_round_trip(data, n, k, moved);
}

} // verus!
