//! The indexed enumeration of O(n, GF(2)): the group element with a given
//! index, built recursively from the element of dimension n - 2 and two
//! target columns, and an element drawn at random.
use rand::rngs::StdRng;
use rand::Rng;
use vstd::arithmetic::div_mod::{lemma_div_denominator, lemma_fundamental_div_mod};
use vstd::arithmetic::power2::{lemma_pow2_pos, lemma_pow2_strictly_increases, pow2};
use vstd::prelude::*;

use crate::algebra::{
    lemma_cancel_left, lemma_column_of_product, lemma_mat_mul_assoc, lemma_dot_concat, lemma_dot_sym, lemma_dot_unit,
    lemma_dot_with_unit, lemma_dot_zero, lemma_isometry_keeps_orthogonal, lemma_orthogonal_by_columns,
    lemma_parity_add, lemma_set_one, lemma_unit_parity, lemma_xor_fold_concat, reflect,
};
use crate::binary::{
    column, dot, identity, is_orthogonal, is_square, mat_flip, mat_mul, unit, vadd, vector_add,
    xor_fold, BinMatrix, Binary,
};
use crate::error::OrthoError;
use crate::field::GF2;
use crate::householder::{
    householder, householder_spec, lemma_householder_apply, lemma_householder_involutive,
    lemma_householder_isometry, lemma_householder_square, lemma_map_vector_involutive,
    lemma_map_vector_isometry, lemma_map_vector_maps, lemma_map_vector_square, map_vector,
    map_vector_spec,
};
use crate::order::{group_order, lemma_order_step, lemma_product_pos, order_product, order_spec, valid_dim};
use crate::util::{
    checked_pow2, indexed_odd_bit_iter, lemma_odd_index_high, lemma_odd_index_injective,
    lemma_odd_index_parity, odd_index_spec,
};

verus! {

/// The `n` by `n` matrix that is the identity on the first two coordinates
/// and `r` on the others.
pub open spec fn embed(n: nat, r: Seq<Seq<GF2>>) -> Seq<Seq<GF2>> {
    Seq::new(n, |i: int| if i < 2 { unit(n, i) } else { seq![GF2::Zero, GF2::Zero] + r[i - 2] })
}

/// The first index at or after `s` where `f` is zero; the length if none.
pub open spec fn first_zero(f: Seq<GF2>, s: nat) -> nat
    decreases f.len() - s,
{
    if s >= f.len() {
        f.len()
    } else if f[s as int] == GF2::Zero {
        s
    } else {
        first_zero(f, s + 1)
    }
}

/// The second target column: a zero followed by the odd-parity vector of
/// length `n - 1` with index `i2`.
pub open spec fn second_target(n: nat, i2: nat) -> Seq<GF2> {
    seq![GF2::Zero] + odd_index_spec((n - 1) as nat, i2)
}

/// The transform that moves the second column of `o` onto `f2`. Where `f2`
/// is zero at index one this is the reflection along the sum of the second
/// column and `f2`. Else let `k` be the first index from two on where `f2` is
/// zero: it is the product of the reflection along `f2` with entry `k` set to
/// one and the reflection along the second column with entry `k` set to one.
pub open spec fn second_transform(o: Seq<Seq<GF2>>, f2: Seq<GF2>) -> Seq<Seq<GF2>> {
    if f2[1] == GF2::Zero {
        householder_spec(vadd(column(o, 1), f2))
    } else {
        let k = first_zero(f2, 2) as int;
        mat_mul(householder_spec(f2.update(k, GF2::One)), householder_spec(column(o, 1).update(k, GF2::One)))
    }
}

/// `second_transform(o, f2)·o`, with the reflections applied to `o` one at a
/// time.
pub open spec fn second_step(o: Seq<Seq<GF2>>, f2: Seq<GF2>) -> Seq<Seq<GF2>> {
    if f2[1] == GF2::Zero {
        mat_mul(householder_spec(vadd(column(o, 1), f2)), o)
    } else {
        let k = first_zero(f2, 2) as int;
        mat_mul(
            householder_spec(f2.update(k, GF2::One)),
            mat_mul(householder_spec(column(o, 1).update(k, GF2::One)), o),
        )
    }
}

/// The group element of `O(n, GF(2))` with index `i`. In dimension two,
/// index zero is the identity and any other the swap of the two coordinates.
/// Above, with `p1 = 2^(n-1)` and `p2 = 2^(n-2) - 1`: the element of index
/// `i / (p1·p2)` in dimension `n - 2` is placed in the lower right block of
/// the identity, giving `o`; the first column is moved onto the odd-parity
/// vector of index `i mod p1` by `map_vector`, after the second column has
/// been moved onto `second_target(n, (i / p1) mod p2)`: the element is
/// `t1·t2·o`, where `t1` is the transform of `map_vector` and `t2` is
/// `second_transform`.
pub open spec fn element_spec(n: nat, i: nat) -> Seq<Seq<GF2>>
    decreases n,
{
    if n <= 2 {
        if i == 0 {
            identity(2)
        } else {
            mat_flip(identity(2))
        }
    } else {
        let p1 = pow2((n - 1) as nat);
        let p2 = (pow2((n - 2) as nat) - 1) as nat;
        let o = embed(n, element_spec((n - 2) as nat, i / (p1 * p2)));
        let f1 = odd_index_spec(n, i % p1);
        let f2 = second_target(n, (i / p1) % p2);
        mat_mul(mat_mul(map_vector_spec(column(o, 0), f1), second_transform(o, f2)), o)
    }
}

/// The `n` by `n` identity with its lower right block replaced by `r`.
fn embed_block(n: usize, r: &BinMatrix) -> (o: BinMatrix)
    requires
        n >= 2,
        is_square(r@, (n - 2) as nat),
    ensures
        o@ == embed(n as nat, r@),
        is_square(o@, n as nat),
{
    let mut rows: Vec<Vec<GF2>> = Vec::new();
    rows.push(BinMatrix::unit_row(n, 0));
    rows.push(BinMatrix::unit_row(n, 1));
    let mut i: usize = 0;
    while i < n - 2
        invariant
            i <= n - 2,
            n >= 2,
            is_square(r@, (n - 2) as nat),
            r@.len() == r.rows@.len(),
            rows@.len() == i + 2,
            rows@[0]@ == unit(n as nat, 0),
            rows@[1]@ == unit(n as nat, 1),
            forall|k: int| 2 <= k < i + 2 ==> (#[trigger] rows@[k])@ == seq![GF2::Zero, GF2::Zero] + r@[k - 2],
        decreases n - 2 - i,
    {
        let mut row: Vec<GF2> = Vec::new();
        row.push(GF2::Zero);
        row.push(GF2::Zero);
        let mut j: usize = 0;
        assert(r.rows@[i as int]@ == r@[i as int]);
        while j < n - 2
            invariant
                j <= n - 2,
                i < n - 2,
                is_square(r@, (n - 2) as nat),
                r@.len() == r.rows@.len(),
                r.rows@[i as int]@ == r@[i as int],
                row@ =~= seq![GF2::Zero, GF2::Zero] + r@[i as int].take(j as int),
            decreases n - 2 - j,
        {
            row.push(r.rows[i][j]);
            j = j + 1;
        }
        proof {
            assert(r@[i as int].take(j as int) =~= r@[i as int]);
        }
        rows.push(row);
        i = i + 1;
    }
    let o = BinMatrix { rows };
    assert(o@ =~= embed(n as nat, r@));
    o
}

/// The index of the first zero of `f` at or after index two.
fn first_zero_after_two(f: &Vec<GF2>) -> (k: usize)
    requires
        f@.len() >= 2,
    ensures
        k == first_zero(f@, 2),
        k <= f@.len(),
{
    let mut k: usize = 2;
    while k < f.len() && f[k].is_one()
        invariant
            2 <= k <= f@.len(),
            first_zero(f@, k as nat) == first_zero(f@, 2),
        decreases f@.len() - k,
    {
        k = k + 1;
    }
    k
}

/// The group element of `O(n, GF(2))` with index `i`, for `i` below the group
/// order. A zero or odd `n` is `InvalidDimension`; an index at or past the
/// order is `IndexOutOfRange`. The order must fit in a `usize`.
pub fn indexed_element(n: usize, i: usize) -> (r: Result<BinMatrix, OrthoError>)
    requires
        valid_dim(n as nat) ==> order_spec(n as nat) <= usize::MAX,
    ensures
        !valid_dim(n as nat) ==> r == Err::<BinMatrix, OrthoError>(OrthoError::InvalidDimension),
        valid_dim(n as nat) && i >= order_spec(n as nat) ==> r == Err::<BinMatrix, OrthoError>(OrthoError::IndexOutOfRange),
        valid_dim(n as nat) && i < order_spec(n as nat) ==> (r matches Ok(m) && m@ == element_spec(n as nat, i as nat)
            && is_orthogonal(m@)),
    decreases n,
{
    let ord = match group_order(n) {
        Ok(v) => v,
        Err(e) => {
            return Err(e);
        },
    };
    if i >= ord {
        return Err(OrthoError::IndexOutOfRange);
    }
    if n == 2 {
        proof {
            lemma_base_orthogonal();
        }
        let id = BinMatrix::identity(2);
        if i == 0 {
            return Ok(id);
        } else {
            return Ok(id.complement());
        }
    }
    proof {
        lemma_order_step(n as nat);
        lemma_product_pos(((n - 2) / 2) as nat);
        lemma_pow2_pos((((n - 2) / 2) * ((n - 2) / 2)) as nat);
        let a = order_spec((n - 2) as nat);
        let b = pow2((n - 1) as nat);
        let c = (pow2((n - 2) as nat) - 1) as nat;
        assert(a >= 1) by (nonlinear_arith)
            requires
                a == pow2((((n - 2) / 2) * ((n - 2) / 2)) as nat) * order_product(((n - 2) / 2) as nat),
                pow2((((n - 2) / 2) * ((n - 2) / 2)) as nat) >= 1,
                order_product(((n - 2) / 2) as nat) >= 1,
        ;
        assert(b <= a * (b * c) && b * c <= a * (b * c) && a <= a * (b * c)) by (nonlinear_arith)
            requires
                a >= 1,
                b >= 1,
                c >= 1,
        ;
        lemma_pow2_strictly_increases((n - 2) as nat, (n - 1) as nat);
    }
    let p1 = match checked_pow2(n - 1) {
        Some(v) => v,
        None => {
            return Err(OrthoError::InvalidDimension);
        },
    };
    let p2 = match checked_pow2(n - 2) {
        Some(v) => v - 1,
        None => {
            return Err(OrthoError::InvalidDimension);
        },
    };
    proof {
        assert(p1 * p2 > 0) by (nonlinear_arith)
            requires
                p1 >= 8,
                p2 >= 3,
        ;
    }
    let i_rec = i / (p1 * p2);
    proof {
        let a = order_spec((n - 2) as nat);
        assert(i_rec < a) by (nonlinear_arith)
            requires
                i < a * (p1 * p2),
                i_rec as int == i as int / (p1 * p2),
                p1 * p2 > 0,
        ;
    }
    let rec = match indexed_element(n - 2, i_rec) {
        Ok(m) => m,
        Err(e) => {
            return Err(e);
        },
    };
    let o = embed_block(n, &rec);
    let i1 = i % p1;
    let i2 = (i / p1) % p2;
    proof {
        lemma_odd_index_parity(n as nat, i1 as nat);
        lemma_odd_index_parity((n - 1) as nat, i2 as nat);
        lemma_odd_index_high((n - 1) as nat, i2 as nat);
        assert(column(o@, 0) =~= unit(n as nat, 0));
        assert(column(o@, 1) =~= unit(n as nat, 1));
        lemma_unit_parity(n as nat, 0);
        lemma_unit_parity(n as nat, 1);
    }
    let f1 = match indexed_odd_bit_iter(n, i1) {
        Ok(v) => v,
        Err(e) => {
            return Err(e);
        },
    };
    let tail = match indexed_odd_bit_iter(n - 1, i2) {
        Ok(v) => v,
        Err(e) => {
            return Err(e);
        },
    };
    let f2 = prepend_zero(&tail);
    proof {
        lemma_xor_fold_concat(seq![GF2::Zero], tail@);
        assert(xor_fold(seq![GF2::Zero]) == GF2::Zero) by {
            assert(seq![GF2::Zero].drop_last() =~= Seq::<GF2>::empty());
            assert(xor_fold(Seq::<GF2>::empty()) == GF2::Zero);
        }
    }
    let c0 = o.column(0);
    let t1 = match map_vector(&c0, &f1) {
        Ok(m) => m,
        Err(e) => {
            return Err(e);
        },
    };
    let c1 = o.column(1);
    proof {
        lemma_householder_square(vadd(c1@, f2@));
        lemma_map_vector_square(c0@, f1@);
    }
    let t2 = if f2[1].is_zero() {
        let h = vector_add(&c1, &f2);
        proof {
            lemma_parity_add(c1@, f2@);
        }
        let hm = match householder(&h) {
            Ok(m) => m,
            Err(e) => {
                return Err(e);
            },
        };
        hm
    } else {
        let k = first_zero_after_two(&f2);
        proof {
            lemma_second_target_facts(n as nat, i2 as nat);
        }
        let mut h1 = o.column(1);
        h1[k] = GF2::One;
        let mut h2 = prepend_zero(&tail);
        h2[k] = GF2::One;
        proof {
            lemma_set_one(c1@, k as int);
            lemma_set_one(f2@, k as int);
            lemma_householder_square(h1@);
            lemma_householder_square(h2@);
        }
        let m1 = match householder(&h1) {
            Ok(m) => m,
            Err(e) => {
                return Err(e);
            },
        };
        let m2 = match householder(&h2) {
            Ok(m) => m,
            Err(e) => {
                return Err(e);
            },
        };
        m2.mul_matrix(&m1)
    };
    let t1t2 = t1.mul_matrix(&t2);
    let r = t1t2.mul_matrix(&o);
    proof {
        assert(f2@ == second_target(n as nat, i2 as nat));
        lemma_element_orthogonal(n as nat, i as nat);
    }
    Ok(r)
}

/// A zero followed by `v`.
fn prepend_zero(v: &Vec<GF2>) -> (r: Vec<GF2>)
    ensures
        r@ == seq![GF2::Zero] + v@,
{
    let mut out: Vec<GF2> = Vec::new();
    out.push(GF2::Zero);
    let mut j: usize = 0;
    while j < v.len()
        invariant
            j <= v@.len(),
            out@ =~= seq![GF2::Zero] + v@.take(j as int),
        decreases v@.len() - j,
    {
        out.push(v[j]);
        j = j + 1;
    }
    proof {
        assert(v@.take(j as int) =~= v@);
    }
    out
}

/// Where no zero is found, every entry from `s` on is one.
proof fn lemma_first_zero_none(f: Seq<GF2>, s: nat)
    requires
        first_zero(f, s) == f.len(),
    ensures
        forall|t: int| s <= t < f.len() ==> f[t] == GF2::One,
    decreases f.len() - s,
{
    if s < f.len() {
        lemma_first_zero_none(f, s + 1);
    }
}

/// A zero that is found lies in range and is a zero.
proof fn lemma_first_zero_found(f: Seq<GF2>, s: nat)
    ensures
        first_zero(f, s) < f.len() ==> f[first_zero(f, s) as int] == GF2::Zero,
        s <= f.len() ==> s <= first_zero(f, s) <= f.len(),
    decreases f.len() - s,
{
    if s < f.len() {
        lemma_first_zero_found(f, s + 1);
    }
}

/// Placing an orthogonal block in the identity keeps the result orthogonal.
proof fn lemma_embed_orthogonal(n: nat, r: Seq<Seq<GF2>>)
    requires
        n >= 2,
        r.len() == n - 2,
        is_orthogonal(r),
    ensures
        is_orthogonal(embed(n, r)),
{
    let o = embed(n, r);
    let z = seq![GF2::Zero, GF2::Zero];
    assert(is_square(o, n));
    lemma_orthogonal_by_columns(r);
    assert forall|j: int| 0 <= j < n implies #[trigger] column(o, j) == (if j < 2 { unit(n, j) } else { z + column(r, j - 2) }) by {
        if j < 2 {
            assert(column(o, j) =~= unit(n, j));
        } else {
            assert(column(o, j) =~= z + column(r, j - 2));
        }
    }
    assert forall|i: int, j: int| 0 <= i < n && 0 <= j < n implies #[trigger] dot(column(o, i), column(o, j)) == unit(n, i)[j] by {
        if i < 2 {
            lemma_dot_unit(n, i, column(o, j));
        } else if j < 2 {
            lemma_dot_sym(column(o, i), column(o, j));
            lemma_dot_unit(n, j, column(o, i));
        } else {
            lemma_dot_concat(z, column(r, i - 2), z, column(r, j - 2));
            lemma_dot_zero(z, z);
            assert(dot(column(r, i - 2), column(r, j - 2)) == unit((n - 2) as nat, i - 2)[j - 2]);
        }
    }
    lemma_orthogonal_by_columns(o);
}

/// The two matrices with index zero and one in dimension two are orthogonal.
proof fn lemma_base_orthogonal()
    ensures
        is_orthogonal(identity(2)),
        is_orthogonal(mat_flip(identity(2))),
{
    let a = identity(2);
    let b = mat_flip(identity(2));
    assert(column(a, 0) =~= seq![GF2::One, GF2::Zero]);
    assert(column(a, 1) =~= seq![GF2::Zero, GF2::One]);
    assert(column(b, 0) =~= seq![GF2::Zero, GF2::One]);
    assert(column(b, 1) =~= seq![GF2::One, GF2::Zero]);
    reveal_with_fuel(dot, 3);
    assert(seq![GF2::One, GF2::Zero].drop_last() =~= seq![GF2::One]);
    assert(seq![GF2::Zero, GF2::One].drop_last() =~= seq![GF2::Zero]);
    assert(seq![GF2::One].drop_last() =~= Seq::<GF2>::empty());
    assert(seq![GF2::Zero].drop_last() =~= Seq::<GF2>::empty());
    lemma_orthogonal_by_columns(a);
    lemma_orthogonal_by_columns(b);
}

/// The second target has length `n`, a zero first entry and odd parity;
/// where its entry at index one is set, it has a zero at some later index.
proof fn lemma_second_target_facts(n: nat, i2: nat)
    requires
        n >= 4,
        i2 < pow2((n - 2) as nat) - 1,
    ensures
        second_target(n, i2).len() == n,
        second_target(n, i2)[0] == GF2::Zero,
        xor_fold(second_target(n, i2)) == GF2::One,
        second_target(n, i2)[1] == GF2::One ==> ({
            let k = first_zero(second_target(n, i2), 2);
            2 <= k < n && second_target(n, i2)[k as int] == GF2::Zero
        }),
{
    let tail = odd_index_spec((n - 1) as nat, i2);
    let f2 = second_target(n, i2);
    lemma_odd_index_parity((n - 1) as nat, i2);
    lemma_odd_index_high((n - 1) as nat, i2);
    lemma_xor_fold_concat(seq![GF2::Zero], tail);
    assert(seq![GF2::Zero].drop_last() =~= Seq::<GF2>::empty());
    assert(xor_fold(Seq::<GF2>::empty()) == GF2::Zero);
    lemma_first_zero_found(f2, 2);
    if f2[1] == GF2::One && first_zero(f2, 2) == n {
        lemma_first_zero_none(f2, 2);
        assert forall|j: nat| j < (n - 2) as nat implies #[trigger] crate::util::bit_of(i2, j) == GF2::One by {
            assert(f2[j + 2 as int] == tail[j + 1 as int]);
        }
        crate::util::lemma_all_ones((n - 2) as nat, i2);
    }
}

/// The transform of the second column times `o` is the scratch matrix after
/// the reflections have been applied one at a time.
proof fn lemma_second_step_is_product(n: nat, o: Seq<Seq<GF2>>, f2: Seq<GF2>)
    requires
        is_square(o, n),
        f2.len() == n,
        n >= 2,
        f2[1] == GF2::One ==> 2 <= first_zero(f2, 2) < n,
    ensures
        is_square(second_transform(o, f2), n),
        mat_mul(second_transform(o, f2), o) == second_step(o, f2),
{
    if f2[1] == GF2::Zero {
        lemma_householder_square(vadd(column(o, 1), f2));
    } else {
        let k = first_zero(f2, 2) as int;
        let h1 = householder_spec(column(o, 1).update(k, GF2::One));
        let h2 = householder_spec(f2.update(k, GF2::One));
        lemma_householder_square(column(o, 1).update(k, GF2::One));
        lemma_householder_square(f2.update(k, GF2::One));
        lemma_mat_mul_assoc(h2, h1, o);
    }
}

/// In dimension four and above, the indexed element is the transform of the
/// first column times the scratch matrix after the second step.
proof fn lemma_element_unfold(n: nat, i: nat)
    requires
        n >= 4,
        n % 2 == 0,
        is_square(
            element_spec((n - 2) as nat, i / (pow2((n - 1) as nat) * (pow2((n - 2) as nat) - 1) as nat)),
            (n - 2) as nat,
        ),
    ensures
        ({
            let p1 = pow2((n - 1) as nat);
            let p2 = (pow2((n - 2) as nat) - 1) as nat;
            let o = embed(n, element_spec((n - 2) as nat, i / (p1 * p2)));
            let f1 = odd_index_spec(n, i % p1);
            let f2 = second_target(n, (i / p1) % p2);
            element_spec(n, i) == mat_mul(map_vector_spec(column(o, 0), f1), second_step(o, f2))
        }),
{
    let p1 = pow2((n - 1) as nat);
    let p2 = (pow2((n - 2) as nat) - 1) as nat;
    let o = embed(n, element_spec((n - 2) as nat, i / (p1 * p2)));
    let f1 = odd_index_spec(n, i % p1);
    let f2 = second_target(n, (i / p1) % p2);
    lemma_order_step(n);
    assert(p1 * p2 > 0) by (nonlinear_arith)
        requires
            p1 >= 8,
            p2 >= 3,
    ;
    lemma_odd_index_parity(n, i % p1);
    lemma_second_target_facts(n, (i / p1) % p2);
    assert(is_square(o, n));
    assert(column(o, 0).len() == n);
    lemma_map_vector_square(column(o, 0), f1);
    lemma_second_step_is_product(n, o, f2);
    lemma_mat_mul_assoc(map_vector_spec(column(o, 0), f1), second_transform(o, f2), o);
}

/// Every indexed element is orthogonal: `element_spec(n, i)` is an `n` by `n`
/// matrix `M` with `Mᵗ·M = I`, for every even `n > 0` and every index.
pub proof fn lemma_element_orthogonal(n: nat, i: nat)
    requires
        valid_dim(n),
    ensures
        element_spec(n, i).len() == n,
        is_orthogonal(element_spec(n, i)),
    decreases n,
{
    if n == 2 {
        lemma_base_orthogonal();
    } else {
        lemma_order_step(n);
        let p1 = pow2((n - 1) as nat);
        let p2 = (pow2((n - 2) as nat) - 1) as nat;
        assert(p1 * p2 > 0) by (nonlinear_arith)
            requires
                p1 >= 8,
                p2 >= 3,
        ;
        let rec = element_spec((n - 2) as nat, i / (p1 * p2));
        lemma_element_orthogonal((n - 2) as nat, i / (p1 * p2));
        lemma_element_unfold(n, i);
        let o = embed(n, rec);
        lemma_embed_orthogonal(n, rec);
        assert(column(o, 0) =~= unit(n, 0));
        assert(column(o, 1) =~= unit(n, 1));
        lemma_unit_parity(n, 0);
        lemma_unit_parity(n, 1);
        let i1 = i % p1;
        let i2 = (i / p1) % p2;
        lemma_odd_index_parity(n, i1);
        lemma_second_target_facts(n, i2);
        let f1 = odd_index_spec(n, i1);
        let f2 = second_target(n, i2);
        lemma_map_vector_isometry(unit(n, 0), f1);
        if f2[1] == GF2::Zero {
            lemma_parity_add(unit(n, 1), f2);
            lemma_householder_isometry(vadd(unit(n, 1), f2));
            lemma_isometry_keeps_orthogonal(householder_spec(vadd(unit(n, 1), f2)), o);
        } else {
            let k = first_zero(f2, 2) as int;
            let h1 = unit(n, 1).update(k, GF2::One);
            let h2 = f2.update(k, GF2::One);
            lemma_set_one(unit(n, 1), k);
            lemma_set_one(f2, k);
            lemma_householder_isometry(h1);
            lemma_householder_isometry(h2);
            lemma_isometry_keeps_orthogonal(householder_spec(h1), o);
            lemma_isometry_keeps_orthogonal(householder_spec(h2), mat_mul(householder_spec(h1), o));
        }
        lemma_isometry_keeps_orthogonal(map_vector_spec(unit(n, 0), f1), second_step(o, f2));
    }
}

/// The reflections of the second step leave the first unit vector in place
/// and take the second onto `f2`; the matrices involved undo themselves.
proof fn lemma_second_step_facts(n: nat, o: Seq<Seq<GF2>>, i2: nat)
    requires
        n >= 4,
        n % 2 == 0,
        i2 < pow2((n - 2) as nat) - 1,
        is_square(o, n),
        column(o, 0) == unit(n, 0),
        column(o, 1) == unit(n, 1),
    ensures
        is_square(second_step(o, second_target(n, i2)), n),
        column(second_step(o, second_target(n, i2)), 0) == unit(n, 0),
        column(second_step(o, second_target(n, i2)), 1) == second_target(n, i2),
        forall|o2: Seq<Seq<GF2>>|
            is_square(o2, n) && column(o2, 1) == unit(n, 1) && #[trigger] second_step(o2, second_target(n, i2))
                == second_step(o, second_target(n, i2)) ==> o2 == o,
{
    let f2 = second_target(n, i2);
    let e0 = unit(n, 0);
    let e1 = unit(n, 1);
    lemma_second_target_facts(n, i2);
    lemma_unit_parity(n, 1);
    if f2[1] == GF2::Zero {
        let h = vadd(e1, f2);
        lemma_parity_add(e1, f2);
        lemma_householder_involutive(h);
        lemma_column_of_product(householder_spec(h), o, 0);
        lemma_column_of_product(householder_spec(h), o, 1);
        lemma_householder_apply(h, e0);
        lemma_householder_apply(h, e1);
        lemma_dot_with_unit(h, 0);
        lemma_dot_with_unit(h, 1);
        assert(reflect(h, e0) =~= e0);
        assert(reflect(h, e1) =~= f2);
        assert forall|o2: Seq<Seq<GF2>>|
            is_square(o2, n) && column(o2, 1) == unit(n, 1) && #[trigger] second_step(o2, f2) == second_step(o, f2)
            implies o2 == o by {
            lemma_cancel_left(householder_spec(h), o2, o, n);
        }
    } else {
        let k = first_zero(f2, 2) as int;
        let h1 = e1.update(k, GF2::One);
        let h2 = f2.update(k, GF2::One);
        let ek = unit(n, k);
        lemma_set_one(e1, k);
        lemma_set_one(f2, k);
        lemma_householder_involutive(h1);
        lemma_householder_involutive(h2);
        let m1o = mat_mul(householder_spec(h1), o);
        lemma_column_of_product(householder_spec(h1), o, 0);
        lemma_column_of_product(householder_spec(h1), o, 1);
        lemma_column_of_product(householder_spec(h2), m1o, 0);
        lemma_column_of_product(householder_spec(h2), m1o, 1);
        lemma_householder_apply(h1, e0);
        lemma_householder_apply(h1, e1);
        lemma_householder_apply(h2, e0);
        lemma_householder_apply(h2, ek);
        lemma_dot_with_unit(h1, 0);
        lemma_dot_with_unit(h1, 1);
        lemma_dot_with_unit(h2, 0);
        lemma_dot_with_unit(h2, k);
        assert(reflect(h1, e0) =~= e0);
        assert(reflect(h1, e1) =~= ek);
        assert(reflect(h2, e0) =~= e0);
        assert(reflect(h2, ek) =~= f2);
        assert forall|o2: Seq<Seq<GF2>>|
            is_square(o2, n) && column(o2, 1) == unit(n, 1) && #[trigger] second_step(o2, f2) == second_step(o, f2)
            implies o2 == o by {
            lemma_cancel_left(householder_spec(h2), mat_mul(householder_spec(h1), o2), m1o, n);
            lemma_cancel_left(householder_spec(h1), o2, o, n);
        }
    }
}

/// An index is recovered from its three parts.
proof fn lemma_index_parts(i: nat, p1: nat, p2: nat)
    requires
        p1 > 0,
        p2 > 0,
    ensures
        i == (i / (p1 * p2)) * (p1 * p2) + ((i / p1) % p2) * p1 + i % p1,
{
    lemma_fundamental_div_mod(i as int, p1 as int);
    lemma_fundamental_div_mod((i / p1) as int, p2 as int);
    lemma_div_denominator(i as int, p1 as int, p2 as int);
    let q = i / p1;
    let r = i / (p1 * p2);
    let a = i % p1;
    let b = q % p2;
    assert(i == r * (p1 * p2) + b * p1 + a) by (nonlinear_arith)
        requires
            i == p1 * q + a,
            q == p2 * r + b,
    ;
}

/// Distinct indices below the order give distinct elements: `element_spec(n, ·)`
/// is injective on `[0, order(n))`.
pub proof fn lemma_element_injective(n: nat, i: nat, j: nat)
    requires
        valid_dim(n),
        i < order_spec(n),
        j < order_spec(n),
        element_spec(n, i) == element_spec(n, j),
    ensures
        i == j,
    decreases n,
{
    if n == 2 {
        vstd::arithmetic::power2::lemma2_to64();
        assert(order_product(1) == 1);
        let k = n / 2;
        assert(k == 1);
        assert(k * k == 1) by (nonlinear_arith)
            requires
                k == 1,
        ;
        assert(pow2(1) == 2);
        assert(order_spec(n) == pow2(k * k) * order_product(k));
        let a = pow2(k * k);
        let b = order_product(k);
        assert(a == 2);
        assert(b == 1);
        assert(a * b == 2) by (nonlinear_arith)
            requires
                a == 2,
                b == 1,
        ;
        assert(identity(2)[0][0] == GF2::One);
        assert(mat_flip(identity(2))[0][0] == GF2::Zero);
    } else {
        lemma_order_step(n);
        let p1 = pow2((n - 1) as nat);
        let p2 = (pow2((n - 2) as nat) - 1) as nat;
        let a = order_spec((n - 2) as nat);
        assert(p1 * p2 > 0) by (nonlinear_arith)
            requires
                p1 >= 8,
                p2 >= 3,
        ;
        let ri = i / (p1 * p2);
        let rj = j / (p1 * p2);
        assert(ri < a && rj < a) by (nonlinear_arith)
            requires
                i < a * (p1 * p2),
                j < a * (p1 * p2),
                ri == i / (p1 * p2),
                rj == j / (p1 * p2),
                p1 * p2 > 0,
        ;
        let reci = element_spec((n - 2) as nat, ri);
        let recj = element_spec((n - 2) as nat, rj);
        lemma_element_orthogonal((n - 2) as nat, ri);
        lemma_element_orthogonal((n - 2) as nat, rj);
        lemma_element_unfold(n, i);
        lemma_element_unfold(n, j);
        let oi = embed(n, reci);
        let oj = embed(n, recj);
        assert(column(oi, 0) =~= unit(n, 0));
        assert(column(oi, 1) =~= unit(n, 1));
        assert(column(oj, 0) =~= unit(n, 0));
        assert(column(oj, 1) =~= unit(n, 1));
        assert(is_square(oi, n));
        assert(is_square(oj, n));
        let i1 = i % p1;
        let j1 = j % p1;
        let i2 = (i / p1) % p2;
        let j2 = (j / p1) % p2;
        let f1i = odd_index_spec(n, i1);
        let f1j = odd_index_spec(n, j1);
        let f2i = second_target(n, i2);
        let f2j = second_target(n, j2);
        lemma_odd_index_parity(n, i1);
        lemma_odd_index_parity(n, j1);
        lemma_unit_parity(n, 0);
        lemma_second_step_facts(n, oi, i2);
        lemma_second_step_facts(n, oj, j2);
        let si = second_step(oi, f2i);
        let sj = second_step(oj, f2j);
        let ti = map_vector_spec(unit(n, 0), f1i);
        let tj = map_vector_spec(unit(n, 0), f1j);
        let m = element_spec(n, i);
        assert(m == mat_mul(ti, si));
        assert(m == mat_mul(tj, sj));
        lemma_column_of_product(ti, si, 0);
        lemma_column_of_product(tj, sj, 0);
        lemma_map_vector_maps(unit(n, 0), f1i);
        lemma_map_vector_maps(unit(n, 0), f1j);
        lemma_odd_index_injective(n, i1, j1);
        lemma_map_vector_involutive(unit(n, 0), f1i);
        lemma_cancel_left(ti, si, sj, n);
        assert(odd_index_spec((n - 1) as nat, i2) =~= f2i.subrange(1, n as int));
        assert(odd_index_spec((n - 1) as nat, j2) =~= f2j.subrange(1, n as int));
        lemma_odd_index_injective((n - 1) as nat, i2, j2);
        assert(second_step(oj, f2i) == second_step(oi, f2i));
        assert(oj == oi);
        assert(reci =~= recj) by {
            assert forall|r: int| 0 <= r < n - 2 implies #[trigger] reci[r] == recj[r] by {
                assert(reci[r] =~= oi[r + 2].subrange(2, n as int));
                assert(recj[r] =~= oj[r + 2].subrange(2, n as int));
            }
        }
        lemma_element_injective((n - 2) as nat, ri, rj);
        lemma_index_parts(i, p1, p2);
        lemma_index_parts(j, p1, p2);
    }
}

/// rand's standard generator, carried through as an opaque value.
#[verifier::external_type_specification]
#[verifier::external_body]
pub struct ExStdRng(rand::rngs::StdRng);

/// Relies on `rand::Rng::gen_range` on the range `0..bound`: the value drawn
/// lies in `[0, bound)`. It panics on an empty range, which `requires` leaves
/// out.
#[verifier::external_body]
fn draw_below(rng: &mut StdRng, bound: usize) -> (r: usize)
    requires
        bound > 0,
    ensures
        r < bound,
{
    rng.gen_range(0..bound)
}

/// A group element of `O(n, GF(2))` chosen by an index drawn uniformly from
/// `[0, order(n))`. A zero or odd `n` is `InvalidDimension`. The order must
/// fit in a `usize`.
pub fn sample_element(n: usize, rng: &mut StdRng) -> (r: Result<BinMatrix, OrthoError>)
    requires
        valid_dim(n as nat) ==> order_spec(n as nat) <= usize::MAX,
    ensures
        !valid_dim(n as nat) ==> r == Err::<BinMatrix, OrthoError>(OrthoError::InvalidDimension),
        valid_dim(n as nat) ==> (r matches Ok(m) && is_orthogonal(m@) && exists|i: nat|
            i < order_spec(n as nat) && #[trigger] element_spec(n as nat, i) == m@),
{
    let ord = match group_order(n) {
        Ok(v) => v,
        Err(e) => {
            return Err(e);
        },
    };
    proof {
        lemma_product_pos(n as nat / 2);
        lemma_pow2_pos((n as nat / 2) * (n as nat / 2));
        assert(ord > 0) by (nonlinear_arith)
            requires
                ord == pow2((n as nat / 2) * (n as nat / 2)) * order_product(n as nat / 2),
                pow2((n as nat / 2) * (n as nat / 2)) >= 1,
                order_product(n as nat / 2) >= 1,
        ;
    }
    let i = draw_below(rng, ord);
    indexed_element(n, i)
}

} // verus!
