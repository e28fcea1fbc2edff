//! Vandermonde matrices over GF(2^8): row `i` holds the powers of node `i`.

use crate::gf::{
    gf_add, gf_mul, gf_pow, lemma_add_cancel, lemma_add_self, lemma_add_zero,
    lemma_mul_associative, lemma_mul_commutative, lemma_mul_distributive, lemma_mul_one,
    lemma_mul_zero, lemma_no_zero_divisors,
};
use crate::linalg::{
    annihilates, column, dot, is_zero_vec, leading, lemma_dot_add, lemma_dot_commutative,
    lemma_dot_scale, lemma_dot_single, lemma_dot_take, lemma_dot_unit, row_times, singular,
    strongly_nonsingular, unit_vec, vec_add, vec_scale,
};
use vstd::prelude::*;

verus! {

/// The first `n` powers of `x`, from `x^0` on.
pub open spec fn powers(x: u8, n: nat) -> Seq<u8> {
    Seq::new(n, |j: int| gf_pow(x, j as nat))
}

/// The square matrix whose entry at `(i, j)` is `nodes[i]^j`.
pub open spec fn vandermonde(nodes: Seq<u8>) -> Seq<Seq<u8>> {
    Seq::new(nodes.len(), |i: int| powers(nodes[i], nodes.len()))
}

/// No value occurs twice in `nodes`.
pub open spec fn distinct(nodes: Seq<u8>) -> bool {
    forall|i: int, j: int| 0 <= i < j < nodes.len() ==> nodes[i] != nodes[j]
}

/// The value at `z` of the polynomial with the roots `nodes[0..m]`.
spec fn root_product(nodes: Seq<u8>, m: nat, z: u8) -> u8
    decreases m,
{
    if m == 0 {
        1
    } else {
        gf_mul(root_product(nodes, (m - 1) as nat, z), gf_add(z, nodes[m - 1]))
    }
}

/// For each node `z`, the value `z^c` times the polynomial with the roots
/// `nodes[0..m]` at `z`.
spec fn weights(nodes: Seq<u8>, c: nat, m: nat) -> Seq<u8> {
    Seq::new(nodes.len(), |x: int| gf_mul(gf_pow(nodes[x], c), root_product(nodes, m, nodes[x])))
}

proof fn lemma_root_product_zero(nodes: Seq<u8>, m: nat, y: int)
    requires
        0 <= y < m <= nodes.len(),
    ensures
        root_product(nodes, m, nodes[y]) == 0,
    decreases m,
{
    let z = nodes[y];
    let before = root_product(nodes, (m - 1) as nat, z);
    if y == m - 1 {
        lemma_add_self(z);
        lemma_mul_zero(before);
    } else {
        lemma_root_product_zero(nodes, (m - 1) as nat, y);
        lemma_mul_zero(gf_add(z, nodes[m - 1]));
    }
}

proof fn lemma_root_product_nonzero(nodes: Seq<u8>, m: nat, z: u8)
    requires
        m <= nodes.len(),
        forall|y: int| 0 <= y < m ==> nodes[y] != z,
    ensures
        root_product(nodes, m, z) != 0,
    decreases m,
{
    if m > 0 {
        lemma_root_product_nonzero(nodes, (m - 1) as nat, z);
        let before = root_product(nodes, (m - 1) as nat, z);
        let factor = gf_add(z, nodes[m - 1]);
        if factor == 0 {
            lemma_add_cancel(z, nodes[m - 1]);
        }
        if gf_mul(before, factor) == 0 {
            lemma_no_zero_divisors(before, factor);
        }
    }
}

/// A row vector that the Vandermonde matrix takes to zero is orthogonal to
/// every vector of weights of total degree below the number of nodes.
proof fn lemma_weights_orthogonal(nodes: Seq<u8>, u: Seq<u8>, c: nat, m: nat)
    requires
        u.len() == nodes.len(),
        is_zero_vec(row_times(u, vandermonde(nodes), nodes.len())),
        c + m < nodes.len(),
    ensures
        dot(u, weights(nodes, c, m)) == 0,
    decreases m,
{
    let n = nodes.len();
    if m == 0 {
        assert forall|x: int| 0 <= x < n implies weights(nodes, c, 0)[x] == column(
            vandermonde(nodes),
            c as int,
        )[x] by {
            lemma_mul_one(gf_pow(nodes[x], c));
        }
        assert(weights(nodes, c, 0) =~= column(vandermonde(nodes), c as int));
        assert(row_times(u, vandermonde(nodes), n)[c as int] == 0);
    } else {
        let lower = (m - 1) as nat;
        let node = nodes[m - 1];
        lemma_weights_orthogonal(nodes, u, c + 1, lower);
        lemma_weights_orthogonal(nodes, u, c, lower);
        let raised = weights(nodes, c + 1, lower);
        let kept = weights(nodes, c, lower);
        assert forall|x: int| 0 <= x < n implies weights(nodes, c, m)[x] == vec_add(
            raised,
            vec_scale(kept, node),
        )[x] by {
            let z = nodes[x];
            let power = gf_pow(z, c);
            let before = root_product(nodes, lower, z);
            // z^c * (before * (z + node)) == z^(c+1) * before + (z^c * before) * node
            lemma_mul_associative(power, before, gf_add(z, node));
            lemma_mul_distributive(gf_mul(power, before), z, node);
            lemma_mul_commutative(gf_mul(power, before), z);
            lemma_mul_associative(z, power, before);
        }
        assert(weights(nodes, c, m) =~= vec_add(raised, vec_scale(kept, node)));
        lemma_dot_commutative(u, weights(nodes, c, m));
        lemma_dot_add(raised, vec_scale(kept, node), u);
        lemma_dot_scale(kept, node, u);
        lemma_dot_commutative(raised, u);
        lemma_dot_commutative(kept, u);
        lemma_mul_zero(node);
        lemma_add_zero(0);
    }
}

/// With distinct nodes, a row vector that the Vandermonde matrix takes to
/// zero ends in a zero.
proof fn lemma_last_entry_zero(nodes: Seq<u8>, u: Seq<u8>)
    requires
        distinct(nodes),
        nodes.len() >= 1,
        u.len() == nodes.len(),
        is_zero_vec(row_times(u, vandermonde(nodes), nodes.len())),
    ensures
        u[nodes.len() - 1] == 0,
{
    let n = nodes.len();
    let last = n - 1;
    let m = last as nat;
    let w = weights(nodes, 0, m);
    lemma_weights_orthogonal(nodes, u, 0, m);
    assert forall|x: int| 0 <= x < n && x != last implies w[x] == 0 by {
        lemma_root_product_zero(nodes, m, x);
        lemma_mul_zero(gf_pow(nodes[x], 0));
    }
    lemma_dot_commutative(u, w);
    lemma_dot_single(w, u, last);
    lemma_root_product_nonzero(nodes, m, nodes[last]);
    lemma_mul_one(root_product(nodes, m, nodes[last]));
    lemma_no_zero_divisors(w[last], u[last]);
}

proof fn lemma_vandermonde_take(nodes: Seq<u8>, k: int)
    requires
        0 <= k <= nodes.len(),
    ensures
        leading(vandermonde(nodes), k) == vandermonde(nodes.take(k)),
{
    assert(leading(vandermonde(nodes), k) =~~= vandermonde(nodes.take(k)));
}

/// With distinct nodes, only the zero vector is taken to zero.
proof fn lemma_kernel_trivial(nodes: Seq<u8>, u: Seq<u8>)
    requires
        distinct(nodes),
        u.len() == nodes.len(),
        is_zero_vec(row_times(u, vandermonde(nodes), nodes.len())),
    ensures
        is_zero_vec(u),
    decreases nodes.len(),
{
    let n = nodes.len();
    if n > 0 {
        lemma_last_entry_zero(nodes, u);
        let k = n - 1;
        let fewer = nodes.take(k);
        let v = u.take(k);
        let product = row_times(v, vandermonde(fewer), k as nat);
        assert forall|c: int| 0 <= c < k implies #[trigger] product[c] == 0 by {
            lemma_dot_take(u, column(vandermonde(nodes), c), k);
            assert(column(vandermonde(nodes), c).take(k) =~= column(vandermonde(fewer), c));
            assert(row_times(u, vandermonde(nodes), n)[c] == 0);
        }
        lemma_kernel_trivial(fewer, v);
        assert forall|x: int| 0 <= x < n implies u[x] == 0 by {
            if x < k {
                assert(v[x] == 0);
            }
        }
    }
}

/// A Vandermonde matrix with distinct nodes is not singular, nor is any of
/// its leading blocks.
pub proof fn lemma_distinct_nodes_regular(nodes: Seq<u8>)
    requires
        distinct(nodes),
    ensures
        strongly_nonsingular(vandermonde(nodes)),
{
    let v = vandermonde(nodes);
    assert forall|k: int| 1 <= k <= v.len() implies !singular(#[trigger] leading(v, k)) by {
        lemma_vandermonde_take(nodes, k);
        let fewer = nodes.take(k);
        assert forall|u: Seq<u8>| !annihilates(u, vandermonde(fewer)) by {
            if u.len() == k && is_zero_vec(row_times(u, vandermonde(fewer), k as nat)) {
                lemma_kernel_trivial(fewer, u);
            }
        }
    }
}

/// A Vandermonde matrix in which a node occurs twice has a singular leading
/// block: the two rows of that node are equal.
pub proof fn lemma_repeated_node_singular(nodes: Seq<u8>)
    requires
        !distinct(nodes),
    ensures
        !strongly_nonsingular(vandermonde(nodes)),
{
    let (a, b) = choose|a: int, b: int| 0 <= a < b < nodes.len() && nodes[a] == nodes[b];
    let k = b + 1;
    let block = leading(vandermonde(nodes), k);
    let u = vec_add(unit_vec(k as nat, a), unit_vec(k as nat, b));
    lemma_add_zero(1);
    assert(u[a] == 1);
    let product = row_times(u, block, k as nat);
    assert forall|c: int| 0 <= c < k implies #[trigger] product[c] == 0 by {
        let col = column(block, c);
        lemma_dot_add(unit_vec(k as nat, a), unit_vec(k as nat, b), col);
        lemma_dot_unit(k as nat, a, col);
        lemma_dot_unit(k as nat, b, col);
        lemma_add_self(col[a]);
    }
    assert(annihilates(u, block));
}

} // verus!
