//! Linear algebra over GF(2) on the sequence models of vectors and matrices.
use vstd::prelude::*;

use crate::binary::{
    column, dot, flip, identity, is_orthogonal, is_shape, is_square, mat_mul, mat_vec, ones, scale, transpose,
    unit, vadd, xor_fold,
};
use crate::field::{gf_add, gf_mul, GF2};

verus! {

/// The parity of a concatenation is the sum of the parities.
pub proof fn lemma_xor_fold_concat(a: Seq<GF2>, b: Seq<GF2>)
    ensures
        xor_fold(a + b) == gf_add(xor_fold(a), xor_fold(b)),
    decreases b.len(),
{
    if b.len() == 0 {
        assert(a + b =~= a);
    } else {
        assert((a + b).drop_last() =~= a + b.drop_last());
        lemma_xor_fold_concat(a, b.drop_last());
    }
}

/// The form is additive in its left argument.
pub proof fn lemma_dot_add(a: Seq<GF2>, b: Seq<GF2>, x: Seq<GF2>)
    requires
        a.len() == b.len(),
    ensures
        dot(vadd(a, b), x) == gf_add(dot(a, x), dot(b, x)),
    decreases a.len(),
{
    if a.len() > 0 {
        assert(vadd(a, b).drop_last() =~= vadd(a.drop_last(), b.drop_last()));
        lemma_dot_add(a.drop_last(), b.drop_last(), x.drop_last());
    }
}

/// The form is homogeneous in its left argument.
pub proof fn lemma_dot_scale(c: GF2, a: Seq<GF2>, x: Seq<GF2>)
    ensures
        dot(scale(c, a), x) == gf_mul(c, dot(a, x)),
    decreases a.len(),
{
    if a.len() > 0 {
        assert(scale(c, a).drop_last() =~= scale(c, a.drop_last()));
        lemma_dot_scale(c, a.drop_last(), x.drop_last());
    }
}

/// The form is symmetric.
pub proof fn lemma_dot_sym(a: Seq<GF2>, x: Seq<GF2>)
    requires
        a.len() == x.len(),
    ensures
        dot(a, x) == dot(x, a),
    decreases a.len(),
{
    if a.len() > 0 {
        lemma_dot_sym(a.drop_last(), x.drop_last());
    }
}

/// A unit vector picks out one entry.
pub proof fn lemma_dot_unit(n: nat, i: int, x: Seq<GF2>)
    requires
        x.len() == n,
        0 <= i < n,
    ensures
        dot(unit(n, i), x) == x[i],
    decreases n,
{
    if n > 0 {
        let m = (n - 1) as nat;
        assert(unit(n, i).drop_last() =~= unit(m, i));
        if i < m {
            lemma_dot_unit(m, i, x.drop_last());
        } else {
            lemma_dot_zero(unit(m, i), x.drop_last());
        }
    }
}

/// The zero vector is orthogonal to everything.
pub proof fn lemma_dot_zero(z: Seq<GF2>, x: Seq<GF2>)
    requires
        forall|k: int| 0 <= k < z.len() ==> z[k] == GF2::Zero,
    ensures
        dot(z, x) == GF2::Zero,
    decreases z.len(),
{
    if z.len() > 0 {
        lemma_dot_zero(z.drop_last(), x.drop_last());
    }
}

/// The form of a vector with itself is its parity.
pub proof fn lemma_dot_self(x: Seq<GF2>)
    ensures
        dot(x, x) == xor_fold(x),
    decreases x.len(),
{
    if x.len() > 0 {
        lemma_dot_self(x.drop_last());
    }
}

/// The form with the all-ones vector is the parity.
pub proof fn lemma_dot_ones(x: Seq<GF2>)
    ensures
        dot(ones(x.len()), x) == xor_fold(x),
    decreases x.len(),
{
    if x.len() > 0 {
        assert(ones(x.len()).drop_last() =~= ones(x.drop_last().len()));
        lemma_dot_ones(x.drop_last());
    }
}

/// Toggling every entry adds the all-ones vector.
pub proof fn lemma_flip_is_add_ones(x: Seq<GF2>)
    ensures
        flip(x) == vadd(x, ones(x.len())),
{
    assert(flip(x) =~= vadd(x, ones(x.len())));
}

/// The complement changes the parity by the length modulo two.
pub proof fn lemma_parity_flip(x: Seq<GF2>)
    ensures
        xor_fold(flip(x)) == gf_add(xor_fold(x), if x.len() % 2 == 0 { GF2::Zero } else { GF2::One }),
    decreases x.len(),
{
    if x.len() > 0 {
        assert(flip(x).drop_last() =~= flip(x.drop_last()));
        lemma_parity_flip(x.drop_last());
    }
}

/// The parity of a sum is the sum of the parities.
pub proof fn lemma_parity_add(a: Seq<GF2>, b: Seq<GF2>)
    requires
        a.len() == b.len(),
    ensures
        xor_fold(vadd(a, b)) == gf_add(xor_fold(a), xor_fold(b)),
    decreases a.len(),
{
    if a.len() > 0 {
        assert(vadd(a, b).drop_last() =~= vadd(a.drop_last(), b.drop_last()));
        lemma_parity_add(a.drop_last(), b.drop_last());
    }
}

/// The form is additive in its right argument.
pub proof fn lemma_dot_add_right(x: Seq<GF2>, a: Seq<GF2>, b: Seq<GF2>)
    requires
        x.len() == a.len(),
        a.len() == b.len(),
    ensures
        dot(x, vadd(a, b)) == gf_add(dot(x, a), dot(x, b)),
{
    lemma_dot_sym(x, vadd(a, b));
    lemma_dot_add(a, b, x);
    lemma_dot_sym(x, a);
    lemma_dot_sym(x, b);
}

/// The form is homogeneous in its right argument.
pub proof fn lemma_dot_scale_right(x: Seq<GF2>, c: GF2, a: Seq<GF2>)
    requires
        x.len() == a.len(),
    ensures
        dot(x, scale(c, a)) == gf_mul(c, dot(x, a)),
{
    lemma_dot_sym(x, scale(c, a));
    lemma_dot_scale(c, a, x);
    lemma_dot_sym(x, a);
}

/// The parity of the all-ones vector is the length modulo two.
pub proof fn lemma_parity_ones(n: nat)
    ensures
        xor_fold(ones(n)) == (if n % 2 == 0 { GF2::Zero } else { GF2::One }),
    decreases n,
{
    if n > 0 {
        assert(ones(n).drop_last() =~= ones((n - 1) as nat));
        lemma_parity_ones((n - 1) as nat);
    }
}

/// Moving two vectors by the same reflection along a self-orthogonal `h`
/// keeps their form: `(x + ⟨h,x⟩h)·(y + ⟨h,y⟩h) = x·y`.
pub proof fn lemma_reflect_pair(x: Seq<GF2>, y: Seq<GF2>, h: Seq<GF2>)
    requires
        x.len() == h.len(),
        y.len() == h.len(),
        dot(h, h) == GF2::Zero,
    ensures
        dot(vadd(x, scale(dot(h, x), h)), vadd(y, scale(dot(h, y), h))) == dot(x, y),
{
    let a = dot(h, x);
    let b = dot(h, y);
    let u = scale(a, h);
    let v = vadd(y, scale(b, h));
    lemma_dot_add(x, u, v);
    lemma_dot_add_right(x, y, scale(b, h));
    lemma_dot_scale_right(x, b, h);
    lemma_dot_scale(a, h, v);
    lemma_dot_add_right(h, y, scale(b, h));
    lemma_dot_scale_right(h, b, h);
    lemma_dot_sym(x, h);
}

/// A square matrix that keeps the form of every pair of vectors.
pub open spec fn is_isometry(a: Seq<Seq<GF2>>, n: nat) -> bool {
    &&& is_square(a, n)
    &&& forall|x: Seq<GF2>, y: Seq<GF2>|
        x.len() == n && y.len() == n ==> #[trigger] dot(mat_vec(a, x), mat_vec(a, y)) == dot(x, y)
}

/// Column `j` of a product is the left factor times column `j` of the right.
pub proof fn lemma_column_of_product(a: Seq<Seq<GF2>>, b: Seq<Seq<GF2>>, j: int)
    requires
        0 <= j < a.len(),
    ensures
        column(mat_mul(a, b), j) == mat_vec(a, column(b, j)),
{
    assert(column(mat_mul(a, b), j) =~= mat_vec(a, column(b, j)));
}

/// A square matrix is orthogonal exactly when the form of column `i` with
/// column `j` is one if `i = j` and zero otherwise.
pub proof fn lemma_orthogonal_by_columns(m: Seq<Seq<GF2>>)
    requires
        is_square(m, m.len()),
    ensures
        is_orthogonal(m) <==> forall|i: int, j: int|
            0 <= i < m.len() && 0 <= j < m.len() ==> #[trigger] dot(column(m, i), column(m, j)) == unit(m.len(), i)[j],
{
    let n = m.len();
    let p = mat_mul(transpose(m), m);
    assert forall|i: int, j: int| 0 <= i < n && 0 <= j < n implies #[trigger] p[i][j] == dot(column(m, i), column(m, j)) by {
    }
    if forall|i: int, j: int|
        0 <= i < n && 0 <= j < n ==> #[trigger] dot(column(m, i), column(m, j)) == unit(n, i)[j] {
        assert forall|i: int| 0 <= i < n implies #[trigger] p[i] == identity(n)[i] by {
            assert(p[i] =~= identity(n)[i]);
        }
        assert(p =~= identity(n));
    }
    if is_orthogonal(m) {
        assert forall|i: int, j: int| 0 <= i < n && 0 <= j < n implies #[trigger] dot(column(m, i), column(m, j)) == unit(n, i)[j] by {
            assert(p[i][j] == identity(n)[i][j]);
        }
    }
}

/// An isometry times an orthogonal matrix is orthogonal.
pub proof fn lemma_isometry_keeps_orthogonal(a: Seq<Seq<GF2>>, b: Seq<Seq<GF2>>)
    requires
        is_isometry(a, b.len()),
        is_orthogonal(b),
    ensures
        is_orthogonal(mat_mul(a, b)),
{
    let n = b.len();
    let c = mat_mul(a, b);
    assert(is_square(c, n));
    lemma_orthogonal_by_columns(b);
    assert forall|i: int, j: int| 0 <= i < n && 0 <= j < n implies #[trigger] dot(column(c, i), column(c, j)) == unit(n, i)[j] by {
        lemma_column_of_product(a, b, i);
        lemma_column_of_product(a, b, j);
        assert(dot(column(b, i), column(b, j)) == unit(n, i)[j]);
        assert(dot(mat_vec(a, column(b, i)), mat_vec(a, column(b, j))) == dot(column(b, i), column(b, j)));
    }
    lemma_orthogonal_by_columns(c);
}

/// The form of two concatenations, split at one place, is the sum of the
/// forms of the parts.
pub proof fn lemma_dot_concat(a1: Seq<GF2>, a2: Seq<GF2>, b1: Seq<GF2>, b2: Seq<GF2>)
    requires
        a1.len() == b1.len(),
        a2.len() == b2.len(),
    ensures
        dot(a1 + a2, b1 + b2) == gf_add(dot(a1, b1), dot(a2, b2)),
    decreases a2.len(),
{
    if a2.len() == 0 {
        assert(a1 + a2 =~= a1);
        assert(b1 + b2 =~= b1);
    } else {
        assert((a1 + a2).drop_last() =~= a1 + a2.drop_last());
        assert((b1 + b2).drop_last() =~= b1 + b2.drop_last());
        lemma_dot_concat(a1, a2.drop_last(), b1, b2.drop_last());
    }
}

pub proof fn lemma_unit_parity(n: nat, i: int)
    requires
        0 <= i < n,
    ensures
        xor_fold(unit(n, i)) == GF2::One,
{
    lemma_dot_ones(unit(n, i));
    lemma_dot_sym(ones(n), unit(n, i));
    lemma_dot_unit(n, i, ones(n));
}

pub proof fn lemma_set_one(s: Seq<GF2>, k: int)
    requires
        0 <= k < s.len(),
        s[k] == GF2::Zero,
    ensures
        s.update(k, GF2::One) == vadd(s, unit(s.len(), k)),
        xor_fold(s.update(k, GF2::One)) == gf_add(xor_fold(s), GF2::One),
{
    assert(s.update(k, GF2::One) =~= vadd(s, unit(s.len(), k)));
    lemma_parity_add(s, unit(s.len(), k));
    lemma_unit_parity(s.len(), k);
}

pub proof fn lemma_dot_with_unit(h: Seq<GF2>, t: int)
    requires
        0 <= t < h.len(),
    ensures
        dot(h, unit(h.len(), t)) == h[t],
{
    lemma_dot_sym(h, unit(h.len(), t));
    lemma_dot_unit(h.len(), t, h);
}

/// The reflection along `h` applied to `x`: `x + ⟨h,x⟩·h`.
pub open spec fn reflect(h: Seq<GF2>, x: Seq<GF2>) -> Seq<GF2> {
    vadd(x, scale(dot(h, x), h))
}

pub proof fn lemma_reflect_twice(h: Seq<GF2>, x: Seq<GF2>)
    requires
        x.len() == h.len(),
        dot(h, h) == GF2::Zero,
    ensures
        reflect(h, reflect(h, x)) == x,
{
    let a = dot(h, x);
    lemma_dot_add_right(h, x, scale(a, h));
    lemma_dot_scale_right(h, a, h);
    let y = reflect(h, x);
    assert(reflect(h, y) =~= x);
}

pub proof fn lemma_reflect_keeps(h: Seq<GF2>, g: Seq<GF2>, x: Seq<GF2>)
    requires
        x.len() == h.len(),
        g.len() == h.len(),
        dot(g, h) == GF2::Zero,
    ensures
        dot(g, reflect(h, x)) == dot(g, x),
{
    lemma_dot_add_right(g, x, scale(dot(h, x), h));
    lemma_dot_scale_right(g, dot(h, x), h);
}

/// A square matrix whose action on vectors undoes itself.
pub open spec fn is_involution(t: Seq<Seq<GF2>>, n: nat) -> bool {
    &&& is_square(t, n)
    &&& forall|x: Seq<GF2>| x.len() == n ==> #[trigger] mat_vec(t, mat_vec(t, x)) == x
}

/// A left factor whose action undoes itself can be cancelled.
pub proof fn lemma_cancel_left(t: Seq<Seq<GF2>>, a: Seq<Seq<GF2>>, b: Seq<Seq<GF2>>, n: nat)
    requires
        is_involution(t, n),
        is_square(a, n),
        is_square(b, n),
        mat_mul(t, a) == mat_mul(t, b),
    ensures
        a == b,
{
    assert forall|c: int| 0 <= c < n implies #[trigger] column(a, c) == column(b, c) by {
        lemma_column_of_product(t, a, c);
        lemma_column_of_product(t, b, c);
        assert(mat_vec(t, mat_vec(t, column(a, c))) == column(a, c));
        assert(mat_vec(t, mat_vec(t, column(b, c))) == column(b, c));
    }
    assert forall|r: int| 0 <= r < n implies #[trigger] a[r] == b[r] by {
        assert forall|c: int| 0 <= c < n implies a[r][c] == b[r][c] by {
            assert(column(a, c)[r] == column(b, c)[r]);
        }
        assert(a[r] =~= b[r]);
    }
    assert(a =~= b);
}

/// The vector whose entry `l` is the form of column `l` of `b` with `u`:
/// `bᵗ·u` for a matrix `b` with `m` columns.
pub open spec fn transpose_times(b: Seq<Seq<GF2>>, u: Seq<GF2>, m: nat) -> Seq<GF2> {
    Seq::new(m, |l: int| dot(column(b, l), u))
}

/// `(bᵗ·u)·w = u·(b·w)`.
pub proof fn lemma_adjoint(b: Seq<Seq<GF2>>, u: Seq<GF2>, w: Seq<GF2>, m: nat)
    requires
        is_shape(b, u.len(), m),
        w.len() == m,
    ensures
        dot(transpose_times(b, u, m), w) == dot(u, mat_vec(b, w)),
    decreases u.len(),
{
    if u.len() == 0 {
        lemma_dot_zero(transpose_times(b, u, m), w);
    } else {
        let k = u.len() - 1;
        let b1 = b.drop_last();
        let u1 = u.drop_last();
        let r = b[k];
        let x = u[k];
        lemma_adjoint(b1, u1, w, m);
        assert(mat_vec(b, w).drop_last() =~= mat_vec(b1, w));
        assert forall|l: int| 0 <= l < m implies #[trigger] transpose_times(b, u, m)[l] == vadd(
            transpose_times(b1, u1, m),
            scale(x, r),
        )[l] by {
            assert(column(b, l).drop_last() =~= column(b1, l));
        }
        assert(transpose_times(b, u, m) =~= vadd(transpose_times(b1, u1, m), scale(x, r)));
        lemma_dot_add(transpose_times(b1, u1, m), scale(x, r), w);
        lemma_dot_scale(x, r, w);
    }
}

/// The product of square matrices is associative.
pub proof fn lemma_mat_mul_assoc(a: Seq<Seq<GF2>>, b: Seq<Seq<GF2>>, c: Seq<Seq<GF2>>)
    requires
        is_square(a, a.len()),
        is_square(b, a.len()),
        is_square(c, a.len()),
    ensures
        mat_mul(mat_mul(a, b), c) == mat_mul(a, mat_mul(b, c)),
{
    let n = a.len();
    let lhs = mat_mul(mat_mul(a, b), c);
    let rhs = mat_mul(a, mat_mul(b, c));
    assert forall|i: int| 0 <= i < n implies #[trigger] lhs[i] == rhs[i] by {
        assert forall|j: int| 0 <= j < n implies lhs[i][j] == rhs[i][j] by {
            let w = column(c, j);
            assert forall|l: int| 0 <= l < n implies #[trigger] mat_mul(a, b)[i][l] == transpose_times(b, a[i], n)[l] by {
                lemma_dot_sym(a[i], column(b, l));
            }
            assert(mat_mul(a, b)[i] =~= transpose_times(b, a[i], n));
            lemma_adjoint(b, a[i], w, n);
            lemma_column_of_product(b, c, j);
        }
        assert(lhs[i] =~= rhs[i]);
    }
    assert(lhs =~= rhs);
}

} // verus!
