//! Information dispersal: splitting data into shares and putting it
//! together again.

use crate::dispersal::{
    body_column, chunk, chunk_count, consistent, dispersal, dispersed_share, inverse_of,
    node_ids, poly_eval, reconstruction, recovered_byte, share_body,
};
use crate::error::IdaError;
use crate::gf::{
    gf_add, gf_mul, gf_pow, lemma_add_zero, lemma_mul_associative, lemma_mul_commutative,
    lemma_mul_one,
};
use crate::linalg::{
    is_inverse, lemma_dot_take, lemma_inverse_unique, lemma_sum_scale, seq_sum, vec_mul,
    vec_scale,
};
use crate::matrix::matrix_view;
use crate::share::{share_views, RabinShare};
use crate::vandermonde::{
    distinct, lemma_distinct_nodes_regular, lemma_repeated_node_singular, powers, vandermonde,
};
use vstd::prelude::*;

verus! {

/// A dispersal scheme: data is split into `n` shares, any `k` of which give
/// it back.
pub struct RabinIDA {
    n: u8,
    k: u8,
}

/// The value of the polynomial with the coefficients `coeffs` at `x`, by
/// Horner's rule.
spec fn horner(coeffs: Seq<u8>, x: u8) -> u8
    decreases coeffs.len(),
{
    if coeffs.len() == 0 {
        0
    } else {
        gf_add(coeffs[0], gf_mul(x, horner(coeffs.skip(1), x)))
    }
}

proof fn lemma_sum_front(s: Seq<u8>)
    requires
        s.len() > 0,
    ensures
        seq_sum(s) == gf_add(s[0], seq_sum(s.skip(1))),
    decreases s.len(),
{
    if s.len() == 1 {
        assert(s.drop_last() =~= Seq::<u8>::empty());
        assert(s.skip(1) =~= Seq::<u8>::empty());
        lemma_add_zero(s[0]);
    } else {
        lemma_sum_front(s.drop_last());
        assert(s.drop_last().skip(1) =~= s.skip(1).drop_last());
        crate::gf::lemma_add_associative(s[0], seq_sum(s.skip(1).drop_last()), s.last());
    }
}

proof fn lemma_horner(coeffs: Seq<u8>, x: u8)
    ensures
        horner(coeffs, x) == poly_eval(coeffs, x),
    decreases coeffs.len(),
{
    let n = coeffs.len();
    let terms = vec_mul(coeffs, powers(x, n));
    if n == 0 {
        assert(terms =~= Seq::<u8>::empty());
    } else {
        let rest = coeffs.skip(1);
        lemma_horner(rest, x);
        let rest_terms = vec_mul(rest, powers(x, rest.len()));
        lemma_sum_front(terms);
        assert forall|j: int| 0 <= j < n - 1 implies terms.skip(1)[j] == vec_scale(rest_terms, x)[j] by {
            assert(gf_pow(x, (j + 1) as nat) == gf_mul(x, gf_pow(x, j as nat)));
            lemma_mul_commutative(x, gf_pow(x, j as nat));
            lemma_mul_associative(rest[j], gf_pow(x, j as nat), x);
        }
        assert(terms.skip(1) =~= vec_scale(rest_terms, x));
        lemma_sum_scale(rest_terms, x);
        lemma_mul_commutative(seq_sum(rest_terms), x);
        lemma_mul_one(coeffs[0]);
    }
}

/// A matrix has no inverse but the one found.
proof fn lemma_inverse_of(d: Seq<Seq<u8>>, m: Seq<Seq<u8>>)
    requires
        is_inverse(d, m),
    ensures
        inverse_of(m) == d,
{
    lemma_inverse_unique(inverse_of(m), d, m);
}

proof fn lemma_quotient_smaller(length: nat, k: nat)
    by (nonlinear_arith)
    requires
        k > 0,
        length % k != 0,
    ensures
        length / k < length,
{
}

proof fn lemma_chunk_start(length: nat, k: nat, c: nat)
    by (nonlinear_arith)
    requires
        k > 0,
        c < chunk_count(length, k),
    ensures
        c * k < length,
{
}

/// The bytes of `data` in a chunk give the same polynomial as the chunk with
/// its zeros.
proof fn lemma_chunk_eval(data: Seq<u8>, k: nat, c: int, start: int, end: int, x: u8)
    requires
        k > 0,
        0 <= c,
        start == c * k,
        start < data.len(),
        end == if data.len() - start < k {
            data.len() as int
        } else {
            start + k
        },
    ensures
        horner(data.subrange(start, end), x) == poly_eval(chunk(data, k, c), x),
{
    let part = data.subrange(start, end);
    let whole = chunk(data, k, c);
    let m = end - start;
    lemma_horner(part, x);
    lemma_dot_take(whole, powers(x, k), m);
    assert(whole.take(m) =~= part);
    assert(powers(x, k).take(m) =~= powers(x, m as nat));
}

/// The matrix that recovers the coefficients of a polynomial of degree
/// below `size` from its values at the first `size` of `values`: the inverse
/// of their Vandermonde matrix. It exists if and only if these nodes are
/// distinct.
pub fn generate_decoder(size: usize, values: Vec<u8>) -> (result: Result<Vec<Vec<u8>>, IdaError>)
    requires
        size <= values@.len(),
    ensures
        result is Ok <==> distinct(values@.take(size as int)),
        result matches Ok(decoder) ==> is_inverse(
            matrix_view(decoder@),
            vandermonde(values@.take(size as int)),
        ),
        result matches Err(e) ==> e == IdaError::SingularMatrix,
{
    let ghost nodes = values@.take(size as int);
    let mut matrix: Vec<Vec<u8>> = Vec::new();
    let mut i: usize = 0;
    while i < size
        invariant
            i <= size,
            size <= values@.len(),
            nodes == values@.take(size as int),
            matrix@.len() == i,
            forall|r: int| 0 <= r < i ==> (#[trigger] matrix@[r])@ == powers(nodes[r], size as nat),
        decreases size - i,
    {
        let node: u8 = values[i];
        let mut row: Vec<u8> = Vec::new();
        let mut power: u8 = 1;
        let mut j: usize = 0;
        while j < size
            invariant
                j <= size,
                row@.len() == j,
                power == gf_pow(node, j as nat),
                forall|c: int| 0 <= c < j ==> row@[c] == gf_pow(node, c as nat),
            decreases size - j,
        {
            row.push(power);
            power = crate::gf::multiply(node, power);
            j = j + 1;
        }
        assert(row@ =~= powers(nodes[i as int], size as nat));
        matrix.push(row);
        i = i + 1;
    }
    assert(matrix_view(matrix@) =~~= vandermonde(nodes));
    proof {
        if distinct(nodes) {
            lemma_distinct_nodes_regular(nodes);
        } else {
            lemma_repeated_node_singular(nodes);
        }
    }
    crate::matrix::inverse(matrix)
}

impl RabinIDA {
    /// The number of shares that a dispersal makes.
    pub closed spec fn total(&self) -> nat {
        self.n as nat
    }

    /// The number of shares that a reconstruction needs.
    pub closed spec fn threshold(&self) -> nat {
        self.k as nat
    }

    #[verifier::type_invariant]
    spec fn valid(&self) -> bool {
        1 <= self.k <= self.n
    }

    /// A scheme with `n` shares and the threshold `k`, where
    /// `1 <= k <= n <= 255`.
    pub fn new(n: u8, k: u8) -> (r: Result<RabinIDA, IdaError>)
        ensures
            1 <= k <= n ==> r is Ok && r->Ok_0.total() == n && r->Ok_0.threshold() == k,
            !(1 <= k <= n) ==> r == Err::<RabinIDA, IdaError>(IdaError::ConfigurationError),
    {
        if k == 0 || k > n {
            Err(IdaError::ConfigurationError)
        } else {
            Ok(Self { n, k })
        }
    }

    /// Splits `data` into the shares with the identifiers `1, ..., n`.
    pub fn share(&self, data: Vec<u8>) -> (shares: Vec<RabinShare>)
        ensures
            share_views(shares@) == dispersal(data@, self.total(), self.threshold()),
    {
        proof {
            use_type_invariant(self);
        }
        let length: usize = data.len();
        let k: usize = self.k as usize;
        let chunks: usize = if length % k == 0 {
            length / k
        } else {
            proof {
                lemma_quotient_smaller(length as nat, k as nat);
            }
            length / k + 1
        };
        let mut shares: Vec<RabinShare> = Vec::new();
        let mut x: u8 = 0;
        while x < self.n
            invariant
                x <= self.n,
                k == self.k,
                k > 0,
                length == data@.len(),
                chunks == chunk_count(length as nat, k as nat),
                shares@.len() == x,
                forall|i: int|
                    0 <= i < x ==> (#[trigger] shares@[i])@ == dispersed_share(
                        data@,
                        k as nat,
                        (i + 1) as u8,
                    ),
            decreases self.n - x,
        {
            x = x + 1;
            let mut body: Vec<u8> = Vec::new();
            let mut c: usize = 0;
            while c < chunks
                invariant
                    c <= chunks,
                    k > 0,
                    k <= 255,
                    length == data@.len(),
                    chunks == chunk_count(length as nat, k as nat),
                    body@.len() == c,
                    forall|d: int|
                        0 <= d < c ==> #[trigger] body@[d] == poly_eval(chunk(data@, k as nat, d), x),
                decreases chunks - c,
            {
                proof {
                    lemma_chunk_start(length as nat, k as nat, c as nat);
                }
                let start: usize = c * k;
                let end: usize = if length - start < k {
                    length
                } else {
                    start + k
                };
                let mut acc: u8 = 0;
                let mut j: usize = end;
                assert(data@.subrange(j as int, end as int) =~= Seq::<u8>::empty());
                while j > start
                    invariant
                        start <= j <= end,
                        end <= data@.len(),
                        acc == horner(data@.subrange(j as int, end as int), x),
                    decreases j,
                {
                    j = j - 1;
                    assert(data@.subrange(j as int, end as int).skip(1) =~= data@.subrange(
                        j + 1,
                        end as int,
                    ));
                    acc = crate::gf::add(data[j], crate::gf::multiply(x, acc));
                }
                proof {
                    lemma_chunk_eval(data@, k as nat, c as int, start as int, end as int, x);
                }
                body.push(acc);
                c = c + 1;
            }
            assert(body@ =~= share_body(data@, k as nat, x));
            shares.push(RabinShare { id: x, length, body });
        }
        assert(share_views(shares@) =~= dispersal(data@, self.total(), self.threshold()));
        shares
    }
    /// Puts the data together again from `shares`, of which the first `k`
    /// are used.
    ///
    /// Fails with `InsufficientShares` if there are fewer than `k` shares;
    /// else with `InconsistentShares` if an identifier is not one of
    /// `1, ..., n`, or the shares differ in the length of the data or of
    /// their bodies; else with `SingularMatrix` if two of the first `k`
    /// shares have one identifier.
    pub fn reconstruct(&self, shares: Vec<RabinShare>) -> (result: Result<Vec<u8>, IdaError>)
        ensures
            shares@.len() < self.threshold() <==> result == Err::<Vec<u8>, IdaError>(
                IdaError::InsufficientShares,
            ),
            result matches Ok(data) ==> reconstruction(
                share_views(shares@),
                self.total(),
                self.threshold(),
            ) == Ok::<Seq<u8>, IdaError>(data@),
            result matches Err(e) ==> reconstruction(
                share_views(shares@),
                self.total(),
                self.threshold(),
            ) == Err::<Seq<u8>, IdaError>(e),
    {
        proof {
            use_type_invariant(self);
        }
        let k: usize = self.k as usize;
        let ghost views = share_views(shares@);
        if shares.len() < k {
            return Err(IdaError::InsufficientShares);
        }
        let length: usize = shares[0].length;
        let body_len: usize = shares[0].body.len();
        let mut xvalues: Vec<u8> = Vec::new();
        let mut s: usize = 0;
        while s < shares.len()
            invariant
                s <= shares@.len(),
                shares@.len() > 0,
                k == self.k,
                k <= shares@.len(),
                views == share_views(shares@),
                length == shares@[0].length,
                body_len == shares@[0].body@.len(),
                xvalues@ == node_ids(views.take(s as int)),
                consistent(views.take(s as int), self.n as nat),
            decreases shares@.len() - s,
        {
            let share = &shares[s];
            if share.id == 0 || share.id > self.n || share.length != length || share.body.len()
                != body_len {
                proof {
                    assert(views[s as int] == shares@[s as int]@);
                    assert(views[0] == shares@[0]@);
                    assert(!consistent(views, self.n as nat));
                }
                return Err(IdaError::InconsistentShares);
            }
            xvalues.push(share.id);
            proof {
                let before = views.take(s as int);
                let after = views.take(s + 1);
                assert(xvalues@ =~= node_ids(after));
                assert forall|i: int| 0 <= i < after.len() implies {
                    &&& 1 <= (#[trigger] after[i]).id <= self.n as nat
                    &&& after[i].length == after[0].length
                    &&& after[i].body.len() == after[0].body.len()
                } by {
                    if i < s {
                        assert(after[i] == before[i]);
                        assert(after[0] == before[0]);
                    } else {
                        assert(after[i] == shares@[s as int]@);
                        assert(after[0] == shares@[0]@);
                    }
                }
            }
            s = s + 1;
        }
        assert(views.take(shares@.len() as int) =~= views);
        let ghost chosen = views.take(k as int);
        assert(xvalues@.take(k as int) =~= node_ids(chosen));
        let decoder = match generate_decoder(k, xvalues) {
            Ok(decoder) => decoder,
            Err(_) => {
                return Err(IdaError::SingularMatrix);
            },
        };
        proof {
            lemma_inverse_of(matrix_view(decoder@), vandermonde(node_ids(chosen)));
        }
        let mut secret: Vec<u8> = vec![0u8; length];
        let mut index: usize = 0;
        while index < length
            invariant
                index <= length,
                k == self.k,
                1 <= k <= shares@.len(),
                views == share_views(shares@),
                chosen == views.take(k as int),
                consistent(views, self.n as nat),
                body_len == shares@[0].body@.len(),
                is_inverse(matrix_view(decoder@), vandermonde(node_ids(chosen))),
                matrix_view(decoder@) == inverse_of(vandermonde(node_ids(chosen))),
                secret@.len() == length,
                forall|t: int| 0 <= t < index ==> #[trigger] secret@[t] == recovered_byte(chosen, t),
            decreases length - index,
        {
            let c: usize = index / k;
            let j: usize = index % k;
            let mut acc: u8 = 0;
            if c < body_len {
                let ghost row = matrix_view(decoder@)[j as int];
                let ghost terms = vec_mul(row, body_column(chosen, c as int));
                assert(row.len() == k);
                assert(terms.take(0) =~= Seq::<u8>::empty());
                let mut x: usize = 0;
                while x < k
                    invariant
                        x <= k,
                        j < k,
                        k <= shares@.len(),
                        c < body_len,
                        views == share_views(shares@),
                        chosen == views.take(k as int),
                        consistent(views, self.n as nat),
                        body_len == shares@[0].body@.len(),
                        decoder@.len() == k,
                        row == decoder@[j as int]@,
                        row.len() == k,
                        terms == vec_mul(row, body_column(chosen, c as int)),
                        acc == seq_sum(terms.take(x as int)),
                    decreases k - x,
                {
                    proof {
                        assert(views[x as int] == shares@[x as int]@);
                        assert(views[0] == shares@[0]@);
                        assert(terms.take(x + 1).drop_last() =~= terms.take(x as int));
                        assert(chosen[x as int] == views[x as int]);
                    }
                    acc = crate::gf::add(
                        acc,
                        crate::gf::multiply(decoder[j][x], shares[x].body[c]),
                    );
                    x = x + 1;
                }
                assert(terms.take(k as int) =~= terms);
                assert(chosen[0] == views[0]);
                assert(views[0] == shares@[0]@);
            } else {
                assert(chosen[0] == views[0]);
                assert(views[0] == shares@[0]@);
            }
            secret[index] = acc;
            index = index + 1;
        }
        proof {
            assert(views[0] == shares@[0]@);
            assert(secret@ =~= Seq::new(
                views[0].length,
                |t: int| recovered_byte(views.take(k as int), t),
            ));
        }
        Ok(secret)
    }
}

} // verus!
