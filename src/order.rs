//! The order of the orthogonal group O(n, GF(2)).
use vstd::arithmetic::power2::{lemma_pow2_adds, lemma_pow2_pos, lemma_pow2_strictly_increases, lemma_pow2_unfold, pow2};
use vstd::prelude::*;

use crate::error::OrthoError;
use crate::util::checked_pow2;

verus! {

/// `4^j - 1`: the `j`-th factor of the group order.
pub open spec fn order_factor(j: nat) -> nat {
    (pow2(2 * j) - 1) as nat
}

/// The product of `4^j - 1` over `1 <= j < k`.
pub open spec fn order_product(k: nat) -> nat
    decreases k,
{
    if k <= 1 {
        1
    } else {
        order_product((k - 1) as nat) * order_factor((k - 1) as nat)
    }
}

/// `|O(n, GF(2))|` for even `n = 2k`: `2^(k²) · ∏_{j=1}^{k-1} (4^j − 1)`.
pub open spec fn order_spec(n: nat) -> nat {
    pow2((n / 2) * (n / 2)) * order_product(n / 2)
}

/// `n` is a dimension that the group is defined for: even and nonzero.
pub open spec fn valid_dim(n: nat) -> bool {
    n > 0 && n % 2 == 0
}

/// Each factor is at least three, and the next is four times it plus three.
pub(crate) proof fn lemma_factor_facts(j: nat)
    requires
        j >= 1,
    ensures
        order_factor(j) >= 3,
        order_factor(j + 1) == 4 * order_factor(j) + 3,
{
    lemma_pow2_unfold(2 * j + 2);
    lemma_pow2_unfold(2 * j + 1);
    lemma_pow2_unfold(2 * j);
    lemma_pow2_unfold((2 * j - 1) as nat);
    lemma_pow2_pos((2 * j - 2) as nat);
    assert(2 * (j + 1) == 2 * j + 2);
}

/// The product of the factors is positive and grows with `k`.
pub(crate) proof fn lemma_product_grows(j: nat, k: nat)
    requires
        j <= k,
    ensures
        1 <= order_product(j) <= order_product(k),
    decreases k,
{
    if k > j {
        lemma_product_grows(j, (k - 1) as nat);
        if k >= 2 {
            lemma_factor_facts((k - 1) as nat);
            let a = order_product((k - 1) as nat);
            let b = order_factor((k - 1) as nat);
            assert(a <= a * b) by (nonlinear_arith)
                requires
                    b >= 1,
                    a >= 1,
            ;
        }
    } else {
        lemma_product_pos(j);
    }
}

/// The product of the factors is positive.
pub(crate) proof fn lemma_product_pos(k: nat)
    ensures
        order_product(k) >= 1,
    decreases k,
{
    if k >= 2 {
        lemma_product_pos((k - 1) as nat);
        lemma_factor_facts((k - 1) as nat);
        let a = order_product((k - 1) as nat);
        let b = order_factor((k - 1) as nat);
        assert(a * b >= 1) by (nonlinear_arith)
            requires
                b >= 1,
                a >= 1,
        ;
    }
}

/// Every natural number lies below its power of two.
pub(crate) proof fn lemma_lt_pow2(x: nat)
    ensures
        x < pow2(x),
    decreases x,
{
    if x == 0 {
        vstd::arithmetic::power2::lemma2_to64();
    } else {
        lemma_lt_pow2((x - 1) as nat);
        lemma_pow2_unfold(x);
    }
}

/// The order in dimension `n` is the order in dimension `n - 2` times
/// `2^(n-1) · (2^(n-2) - 1)`, the number of choices of the first two columns.
pub proof fn lemma_order_step(n: nat)
    requires
        n >= 4,
        n % 2 == 0,
    ensures
        order_spec(n) == order_spec((n - 2) as nat) * (pow2((n - 1) as nat) * (pow2((n - 2) as nat) - 1) as nat),
        pow2((n - 2) as nat) >= 4,
        pow2((n - 1) as nat) >= 8,
{
    let k = n / 2;
    let k1 = ((n - 2) / 2) as nat;
    assert(k1 == k - 1);
    assert(k * k == k1 * k1 + (n - 1)) by (nonlinear_arith)
        requires
            k1 == k - 1,
            n == 2 * k,
    ;
    lemma_pow2_adds(k1 * k1, (n - 1) as nat);
    assert(2 * k1 == n - 2);
    assert(order_factor(k1) == (pow2((n - 2) as nat) - 1) as nat);
    vstd::arithmetic::power2::lemma2_to64();
    if n > 4 {
        lemma_pow2_strictly_increases(2, (n - 2) as nat);
        lemma_pow2_strictly_increases(3, (n - 1) as nat);
    }
    let a = pow2(k1 * k1);
    let b = pow2((n - 1) as nat);
    let c = order_product(k1);
    let d = order_factor(k1);
    assert(order_product(k) == c * d);
    assert((a * b) * (c * d) == (a * c) * (b * d)) by (nonlinear_arith);
}

/// The order of `O(n, GF(2))` for even `n = 2k`:
/// `2^(k²) · ∏_{j=1}^{k-1} (4^j − 1)`. A zero or odd `n` is
/// `InvalidDimension`. The order must fit in a `usize`.
pub fn group_order(n: usize) -> (r: Result<usize, OrthoError>)
    requires
        valid_dim(n as nat) ==> order_spec(n as nat) <= usize::MAX,
    ensures
        !valid_dim(n as nat) ==> r == Err::<usize, OrthoError>(OrthoError::InvalidDimension),
        valid_dim(n as nat) ==> r == Ok::<usize, OrthoError>(order_spec(n as nat) as usize),
{
    if n == 0 || n % 2 != 0 {
        return Err(OrthoError::InvalidDimension);
    }
    let k = n / 2;
    proof {
        lemma_product_pos(k as nat);
        let kk = (k * k) as nat;
        lemma_pow2_pos(kk);
        assert(pow2(kk) <= pow2(kk) * order_product(k as nat)) by (nonlinear_arith)
            requires
                order_product(k as nat) >= 1,
        ;
        lemma_lt_pow2(kk);
        assert(k * k == (n / 2) * (n / 2));
    }
    let kk = k * k;
    let mut order: usize = match checked_pow2(kk) {
        Some(v) => v,
        None => {
            return Err(OrthoError::InvalidDimension);
        },
    };
    let ghost total = pow2(kk as nat) * order_product(k as nat);
    let mut f: usize = 3;
    let mut j: usize = 1;
    proof {
        vstd::arithmetic::power2::lemma2_to64();
        assert(order_factor(1) == 3);
        assert(order_product(1) == 1);
        assert(pow2(kk as nat) * order_product(1) == pow2(kk as nat));
    }
    while j < k
        invariant
            1 <= j <= k,
            k == n / 2,
            kk == k * k,
            total == pow2(kk as nat) * order_product(k as nat),
            total <= usize::MAX,
            order == pow2(kk as nat) * order_product(j as nat),
            j < k ==> f == order_factor(j as nat),
        decreases k - j,
    {
        proof {
            lemma_product_grows((j + 1) as nat, k as nat);
            lemma_pow2_pos(kk as nat);
            lemma_product_pos(j as nat);
            let p = pow2(kk as nat);
            let a = order_product(j as nat);
            let b = order_factor(j as nat);
            let c = order_product(k as nat);
            assert(order_product((j + 1) as nat) == a * b);
            assert(p * (a * b) <= p * c) by (nonlinear_arith)
                requires
                    a * b <= c,
                    p >= 1,
            ;
            assert(p * a * b == p * (a * b)) by (nonlinear_arith);
        }
        order = order * f;
        if j + 1 < k {
            proof {
                lemma_factor_facts(j as nat);
                lemma_product_pos((j + 1) as nat);
                lemma_product_grows((j + 2) as nat, k as nat);
                let p = pow2(kk as nat);
                let a = order_product((j + 1) as nat);
                let b = order_factor((j + 1) as nat);
                let c = order_product(k as nat);
                assert(order_product((j + 2) as nat) == a * b);
                assert(b <= p * c) by (nonlinear_arith)
                    requires
                        a * b <= c,
                        a >= 1,
                        p >= 1,
                ;
            }
            f = 4 * f + 3;
        }
        j = j + 1;
    }
    Ok(order)
}

} // verus!
