//! Householder reflections over GF(2) and the transform that takes one
//! odd-parity vector to another.
use vstd::prelude::*;

use crate::algebra::{
    is_involution, is_isometry, lemma_dot_add, lemma_dot_ones, lemma_dot_scale, lemma_dot_self,
    lemma_dot_sym, lemma_dot_unit, lemma_flip_is_add_ones, lemma_parity_add, lemma_parity_flip,
    lemma_parity_ones, lemma_dot_add_right, lemma_dot_scale_right, lemma_reflect_keeps,
    lemma_reflect_pair, lemma_reflect_twice, reflect,
};
use crate::binary::{
    column, dot, dot_product, flip, identity, is_square, mat_flip, mat_mul, mat_vec, ones, scale, unit,
    vadd, vector_add, xor_fold, BinMatrix, Binary,
};
use crate::error::OrthoError;
use crate::field::GF2;

verus! {

/// `I + h·hᵗ`, held as rows.
pub open spec fn householder_spec(h: Seq<GF2>) -> Seq<Seq<GF2>> {
    Seq::new(h.len(), |i: int| vadd(unit(h.len(), i), scale(h[i], h)))
}

/// The transform that takes `v1` to `v2`: one reflection where the two are
/// orthogonal, else the complement of a reflection.
pub open spec fn map_vector_spec(v1: Seq<GF2>, v2: Seq<GF2>) -> Seq<Seq<GF2>> {
    if dot(v1, v2) == GF2::Zero {
        householder_spec(vadd(v2, v1))
    } else {
        mat_flip(householder_spec(flip(vadd(v2, v1))))
    }
}

/// The Householder reflection `I + h·hᵗ` of an even-parity vector `h`. An
/// odd-parity `h` is `ParityMismatch`.
pub fn householder(h: &Vec<GF2>) -> (r: Result<BinMatrix, OrthoError>)
    ensures
        xor_fold(h@) == GF2::One ==> r == Err::<BinMatrix, OrthoError>(OrthoError::ParityMismatch),
        xor_fold(h@) == GF2::Zero ==> (r matches Ok(m) && m@ == householder_spec(h@)),
{
    if h.parity().is_one() {
        return Err(OrthoError::ParityMismatch);
    }
    let n = h.len();
    let mut rows: Vec<Vec<GF2>> = Vec::new();
    let mut i: usize = 0;
    while i < n
        invariant
            i <= n,
            n == h@.len(),
            rows@.len() == i,
            forall|k: int| 0 <= k < i ==> (#[trigger] rows@[k])@ == householder_spec(h@)[k],
        decreases n - i,
    {
        let mut row: Vec<GF2> = Vec::new();
        let mut j: usize = 0;
        while j < n
            invariant
                j <= n,
                i < n,
                n == h@.len(),
                row@ =~= householder_spec(h@)[i as int].take(j as int),
            decreases n - j,
        {
            let d = if i == j { GF2::One } else { GF2::Zero };
            row.push(d.add(h[i].mul(h[j])));
            j = j + 1;
        }
        proof {
            assert(householder_spec(h@)[i as int].take(j as int) =~= householder_spec(h@)[i as int]);
        }
        rows.push(row);
        i = i + 1;
    }
    let r = BinMatrix { rows };
    assert(r@ =~= householder_spec(h@));
    Ok(r)
}

/// An orthogonal matrix that takes `v1` to `v2`, for two odd-parity vectors of
/// one length: `householder(v2 − v1)` where `v1·v2 = 0`, else the complement
/// of `householder(complement(v2 − v1))`. Vectors of different lengths are
/// `LengthMismatch`; a vector of even parity is `ParityMismatch`, and so is
/// the second case on vectors of odd length, where the complemented
/// difference has odd parity.
pub fn map_vector(v1: &Vec<GF2>, v2: &Vec<GF2>) -> (r: Result<BinMatrix, OrthoError>)
    ensures
        v1@.len() != v2@.len() ==> r == Err::<BinMatrix, OrthoError>(OrthoError::LengthMismatch),
        v1@.len() == v2@.len() && (xor_fold(v1@) != GF2::One || xor_fold(v2@) != GF2::One)
            ==> r == Err::<BinMatrix, OrthoError>(OrthoError::ParityMismatch),
        v1@.len() == v2@.len() && xor_fold(v1@) == GF2::One && xor_fold(v2@) == GF2::One
            && dot(v1@, v2@) == GF2::One && v1@.len() % 2 == 1
            ==> r == Err::<BinMatrix, OrthoError>(OrthoError::ParityMismatch),
        v1@.len() == v2@.len() && xor_fold(v1@) == GF2::One && xor_fold(v2@) == GF2::One
            && (dot(v1@, v2@) == GF2::Zero || v1@.len() % 2 == 0)
            ==> (r matches Ok(m) && m@ == map_vector_spec(v1@, v2@)),
{
    if v1.len() != v2.len() {
        return Err(OrthoError::LengthMismatch);
    }
    if !(v1.parity().is_one() && v2.parity().is_one()) {
        return Err(OrthoError::ParityMismatch);
    }
    let d = vector_add(v2, v1);
    proof {
        lemma_parity_add(v2@, v1@);
    }
    if dot_product(v1, v2).is_zero() {
        householder(&d)
    } else {
        let h = d.complement();
        proof {
            lemma_parity_flip(d@);
        }
        match householder(&h) {
            Ok(m) => Ok(m.complement()),
            Err(e) => Err(e),
        }
    }
}

/// A Householder matrix is square.
pub(crate) proof fn lemma_householder_square(h: Seq<GF2>)
    ensures
        is_square(householder_spec(h), h.len()),
{
}

/// The transform of `map_vector` is square.
pub(crate) proof fn lemma_map_vector_square(v1: Seq<GF2>, v2: Seq<GF2>)
    requires
        v1.len() == v2.len(),
    ensures
        is_square(map_vector_spec(v1, v2), v1.len()),
{
}

/// `(I + h·hᵗ)·x = x + ⟨h,x⟩·h`.
pub(crate) proof fn lemma_householder_apply(h: Seq<GF2>, x: Seq<GF2>)
    requires
        x.len() == h.len(),
    ensures
        mat_vec(householder_spec(h), x) == vadd(x, scale(dot(h, x), h)),
{
    let n = h.len();
    assert forall|i: int| 0 <= i < n implies #[trigger] mat_vec(householder_spec(h), x)[i] == vadd(x, scale(dot(h, x), h))[i] by {
        lemma_dot_add(unit(n, i), scale(h[i], h), x);
        lemma_dot_unit(n, i, x);
        lemma_dot_scale(h[i], h, x);
    }
    assert(mat_vec(householder_spec(h), x) =~= vadd(x, scale(dot(h, x), h)));
}

/// The complemented reflection adds `⟨1,x⟩·1` to the reflection of `x`.
pub(crate) proof fn lemma_flipped_apply(h: Seq<GF2>, x: Seq<GF2>)
    requires
        x.len() == h.len(),
    ensures
        mat_vec(mat_flip(householder_spec(h)), x) == vadd(
            mat_vec(householder_spec(h), x),
            scale(dot(ones(h.len()), x), ones(h.len())),
        ),
{
    let n = h.len();
    let hm = householder_spec(h);
    assert forall|i: int| 0 <= i < n implies #[trigger] mat_vec(mat_flip(hm), x)[i] == vadd(
        mat_vec(hm, x),
        scale(dot(ones(n), x), ones(n)),
    )[i] by {
        lemma_flip_is_add_ones(hm[i]);
        lemma_dot_add(hm[i], ones(n), x);
    }
    assert(mat_vec(mat_flip(hm), x) =~= vadd(mat_vec(hm, x), scale(dot(ones(n), x), ones(n))));
}

/// The reflection along an even-parity vector keeps the bilinear form.
pub proof fn lemma_householder_isometry(h: Seq<GF2>)
    requires
        xor_fold(h) == GF2::Zero,
    ensures
        is_isometry(householder_spec(h), h.len()),
{
    lemma_dot_self(h);
    assert forall|x: Seq<GF2>, y: Seq<GF2>| x.len() == h.len() && y.len() == h.len() implies #[trigger] dot(
        mat_vec(householder_spec(h), x),
        mat_vec(householder_spec(h), y),
    ) == dot(x, y) by {
        lemma_householder_apply(h, x);
        lemma_householder_apply(h, y);
        lemma_reflect_pair(x, y, h);
    }
}

/// In even dimension, the complement of the reflection along an even-parity
/// vector keeps the bilinear form.
pub proof fn lemma_flipped_isometry(h: Seq<GF2>)
    requires
        xor_fold(h) == GF2::Zero,
        h.len() % 2 == 0,
    ensures
        is_isometry(mat_flip(householder_spec(h)), h.len()),
{
    let n = h.len();
    let g = ones(n);
    let hm = householder_spec(h);
    lemma_dot_self(h);
    lemma_dot_self(g);
    lemma_parity_ones(n);
    lemma_dot_ones(h);
    assert forall|x: Seq<GF2>, y: Seq<GF2>| x.len() == n && y.len() == n implies #[trigger] dot(
        mat_vec(mat_flip(hm), x),
        mat_vec(mat_flip(hm), y),
    ) == dot(x, y) by {
        lemma_flipped_apply(h, x);
        lemma_flipped_apply(h, y);
        lemma_householder_apply(h, x);
        lemma_householder_apply(h, y);
        let xx = mat_vec(hm, x);
        let yy = mat_vec(hm, y);
        lemma_dot_add_right(g, x, scale(dot(h, x), h));
        lemma_dot_scale_right(g, dot(h, x), h);
        lemma_dot_add_right(g, y, scale(dot(h, y), h));
        lemma_dot_scale_right(g, dot(h, y), h);
        lemma_dot_sym(g, h);
        lemma_reflect_pair(xx, yy, g);
        lemma_reflect_pair(x, y, h);
    }
}

/// The transform of `map_vector` keeps the bilinear form, for odd-parity
/// vectors of one even length.
pub proof fn lemma_map_vector_isometry(v1: Seq<GF2>, v2: Seq<GF2>)
    requires
        v1.len() == v2.len(),
        v1.len() % 2 == 0,
        xor_fold(v1) == GF2::One,
        xor_fold(v2) == GF2::One,
    ensures
        is_isometry(map_vector_spec(v1, v2), v1.len()),
{
    lemma_parity_add(v2, v1);
    lemma_parity_flip(vadd(v2, v1));
    if dot(v1, v2) == GF2::Zero {
        lemma_householder_isometry(vadd(v2, v1));
    } else {
        lemma_flipped_isometry(flip(vadd(v2, v1)));
    }
}

/// A Householder reflection along an even-parity vector is its own inverse:
/// `householder(h)·householder(h) = I`.
pub proof fn lemma_householder_involution(h: Seq<GF2>)
    requires
        xor_fold(h) == GF2::Zero,
    ensures
        mat_mul(householder_spec(h), householder_spec(h)) == identity(h.len()),
{
    let n = h.len();
    let hm = householder_spec(h);
    let p = mat_mul(hm, hm);
    lemma_dot_self(h);
    assert forall|i: int| 0 <= i < n implies #[trigger] p[i] == identity(n)[i] by {
        assert forall|j: int| 0 <= j < n implies #[trigger] p[i][j] == identity(n)[i][j] by {
            let c = column(hm, j);
            assert(c =~= hm[j]);
            lemma_householder_apply(h, c);
            assert(p[i][j] == mat_vec(hm, c)[i]);
            lemma_dot_add_right(h, unit(n, j), scale(h[j], h));
            lemma_dot_scale_right(h, h[j], h);
            lemma_dot_sym(h, unit(n, j));
            lemma_dot_unit(n, j, h);
        }
        assert(p[i] =~= identity(n)[i]);
    }
    assert(p =~= identity(n));
}

/// The transform of `map_vector` takes the first vector to the second, for
/// odd-parity vectors of one length on which it is defined.
pub proof fn lemma_map_vector_maps(v1: Seq<GF2>, v2: Seq<GF2>)
    requires
        v1.len() == v2.len(),
        xor_fold(v1) == GF2::One,
        xor_fold(v2) == GF2::One,
        dot(v1, v2) == GF2::Zero || v1.len() % 2 == 0,
    ensures
        mat_vec(map_vector_spec(v1, v2), v1) == v2,
{
    let n = v1.len();
    let d = vadd(v2, v1);
    lemma_dot_self(v1);
    lemma_dot_sym(v1, v2);
    if dot(v1, v2) == GF2::Zero {
        lemma_householder_apply(d, v1);
        lemma_dot_add(v2, v1, v1);
        assert(vadd(v1, scale(dot(d, v1), d)) =~= v2);
    } else {
        let h = flip(d);
        lemma_flipped_apply(h, v1);
        lemma_householder_apply(h, v1);
        lemma_flip_is_add_ones(d);
        lemma_dot_add(d, ones(n), v1);
        lemma_dot_add(v2, v1, v1);
        lemma_dot_ones(v1);
        let x = mat_vec(householder_spec(h), v1);
        assert(vadd(x, scale(dot(ones(n), v1), ones(n))) =~= v2);
    }
}

/// Applying the reflection along an even-parity vector twice gives back the vector.
pub(crate) proof fn lemma_householder_involutive(h: Seq<GF2>)
    requires
        xor_fold(h) == GF2::Zero,
    ensures
        is_involution(householder_spec(h), h.len()),
{
    lemma_dot_self(h);
    assert forall|x: Seq<GF2>| x.len() == h.len() implies #[trigger] mat_vec(
        householder_spec(h),
        mat_vec(householder_spec(h), x),
    ) == x by {
        lemma_householder_apply(h, x);
        lemma_householder_apply(h, reflect(h, x));
        lemma_reflect_twice(h, x);
    }
}

/// In even dimension, applying the complemented reflection twice gives back the vector.
pub(crate) proof fn lemma_flipped_involutive(h: Seq<GF2>)
    requires
        xor_fold(h) == GF2::Zero,
        h.len() % 2 == 0,
    ensures
        is_involution(mat_flip(householder_spec(h)), h.len()),
{
    let n = h.len();
    let g = ones(n);
    let f = mat_flip(householder_spec(h));
    lemma_dot_self(h);
    lemma_dot_self(g);
    lemma_parity_ones(n);
    lemma_dot_ones(h);
    lemma_dot_sym(g, h);
    assert forall|x: Seq<GF2>| x.len() == n implies #[trigger] mat_vec(f, mat_vec(f, x)) == x by {
        // f acts as the reflection along h followed by the one along g.
        assert forall|z: Seq<GF2>| z.len() == n implies #[trigger] mat_vec(f, z) == reflect(g, reflect(h, z)) by {
            lemma_flipped_apply(h, z);
            lemma_householder_apply(h, z);
            lemma_reflect_keeps(h, g, z);
        }
        let y = reflect(g, reflect(h, x));
        // the two reflections commute, since h and g are orthogonal
        lemma_reflect_keeps(h, g, x);
        lemma_reflect_keeps(g, h, reflect(h, x));
        lemma_reflect_keeps(g, h, x);
        lemma_dot_add_right(h, reflect(h, x), scale(dot(g, reflect(h, x)), g));
        lemma_dot_scale_right(h, dot(g, reflect(h, x)), g);
        lemma_dot_add_right(h, x, scale(dot(h, x), h));
        lemma_dot_scale_right(h, dot(h, x), h);
        lemma_dot_add_right(g, reflect(h, x), scale(dot(g, reflect(h, x)), g));
        lemma_dot_scale_right(g, dot(g, reflect(h, x)), g);
        lemma_reflect_keeps(h, g, y);
        assert(reflect(g, reflect(h, y)) =~= x);
    }
}

/// Applying the transform of `map_vector` twice gives back the vector.
pub(crate) proof fn lemma_map_vector_involutive(v1: Seq<GF2>, v2: Seq<GF2>)
    requires
        v1.len() == v2.len(),
        v1.len() % 2 == 0,
        xor_fold(v1) == GF2::One,
        xor_fold(v2) == GF2::One,
    ensures
        is_involution(map_vector_spec(v1, v2), v1.len()),
{
    lemma_parity_add(v2, v1);
    lemma_parity_flip(vadd(v2, v1));
    if dot(v1, v2) == GF2::Zero {
        lemma_householder_involutive(vadd(v2, v1));
    } else {
        lemma_flipped_involutive(flip(vadd(v2, v1)));
    }
}

} // verus!
