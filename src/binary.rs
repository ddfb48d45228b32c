use vstd::prelude::*;

use crate::field::{gf_add, gf_mul, GF2};

verus! {

/// The parity of a sequence of field elements: the sum (exclusive or) of all
/// of them.
pub open spec fn xor_fold(s: Seq<GF2>) -> GF2
    decreases s.len(),
{
    if s.len() == 0 {
        GF2::Zero
    } else {
        gf_add(xor_fold(s.drop_last()), s.last())
    }
}

/// Every entry toggled.
pub open spec fn flip(s: Seq<GF2>) -> Seq<GF2> {
    Seq::new(s.len(), |i: int| gf_add(s[i], GF2::One))
}

/// Entrywise sum of two vectors of one length.
pub open spec fn vadd(u: Seq<GF2>, v: Seq<GF2>) -> Seq<GF2> {
    Seq::new(u.len(), |i: int| gf_add(u[i], v[i]))
}

/// A vector times a scalar.
pub open spec fn scale(c: GF2, v: Seq<GF2>) -> Seq<GF2> {
    Seq::new(v.len(), |i: int| gf_mul(c, v[i]))
}

/// The `i`-th unit vector of length `n`.
pub open spec fn unit(n: nat, i: int) -> Seq<GF2> {
    Seq::new(n, |j: int| if j == i { GF2::One } else { GF2::Zero })
}

/// The all-ones vector of length `n`.
pub open spec fn ones(n: nat) -> Seq<GF2> {
    Seq::new(n, |j: int| GF2::One)
}

/// The bilinear form: the sum of the entrywise products.
pub open spec fn dot(u: Seq<GF2>, v: Seq<GF2>) -> GF2
    decreases u.len(),
{
    if u.len() == 0 {
        GF2::Zero
    } else {
        gf_add(dot(u.drop_last(), v.drop_last()), gf_mul(u.last(), v.last()))
    }
}

/// `m` is a grid of `r` rows of `c` entries each.
pub open spec fn is_shape(m: Seq<Seq<GF2>>, r: nat, c: nat) -> bool {
    m.len() == r && forall|i: int| 0 <= i < r ==> (#[trigger] m[i]).len() == c
}

/// `m` is a square `n` by `n` grid.
pub open spec fn is_square(m: Seq<Seq<GF2>>, n: nat) -> bool {
    is_shape(m, n, n)
}

/// Column `j` of `m`.
pub open spec fn column(m: Seq<Seq<GF2>>, j: int) -> Seq<GF2> {
    Seq::new(m.len(), |i: int| m[i][j])
}

/// A matrix times a column vector.
pub open spec fn mat_vec(m: Seq<Seq<GF2>>, x: Seq<GF2>) -> Seq<GF2> {
    Seq::new(m.len(), |i: int| dot(m[i], x))
}

/// The product of two square matrices of one size.
pub open spec fn mat_mul(a: Seq<Seq<GF2>>, b: Seq<Seq<GF2>>) -> Seq<Seq<GF2>> {
    Seq::new(a.len(), |i: int| Seq::new(a.len(), |j: int| dot(a[i], column(b, j))))
}

/// The transpose of a square matrix.
pub open spec fn transpose(m: Seq<Seq<GF2>>) -> Seq<Seq<GF2>> {
    Seq::new(m.len(), |i: int| column(m, i))
}

/// The `n` by `n` identity matrix.
pub open spec fn identity(n: nat) -> Seq<Seq<GF2>> {
    Seq::new(n, |i: int| unit(n, i))
}

/// Every entry of a matrix toggled.
pub open spec fn mat_flip(m: Seq<Seq<GF2>>) -> Seq<Seq<GF2>> {
    Seq::new(m.len(), |i: int| flip(m[i]))
}

/// The parity of all entries of a matrix.
pub open spec fn mat_parity(m: Seq<Seq<GF2>>) -> GF2 {
    xor_fold(Seq::new(m.len(), |i: int| xor_fold(m[i])))
}

/// `m` is an element of the orthogonal group: square, with `mᵗ·m = I`.
pub open spec fn is_orthogonal(m: Seq<Seq<GF2>>) -> bool {
    is_square(m, m.len()) && mat_mul(transpose(m), m) == identity(m.len())
}

/// Parity and complement of containers of field elements.
pub trait Binary: Sized + View {
    /// The parity of a value of the container's model.
    spec fn parity_of(v: Self::V) -> GF2;

    /// The complement of a value of the container's model.
    spec fn complement_of(v: Self::V) -> Self::V;

    /// The sum of all entries.
    fn parity(&self) -> (r: GF2)
        ensures
            r == Self::parity_of(self@),
    ;

    /// The same shape with every entry toggled.
    fn complement(&self) -> (r: Self)
        ensures
            r@ == Self::complement_of(self@),
    ;
}

impl Binary for Vec<GF2> {
    open spec fn parity_of(v: Seq<GF2>) -> GF2 {
        xor_fold(v)
    }

    open spec fn complement_of(v: Seq<GF2>) -> Seq<GF2> {
        flip(v)
    }

    fn parity(&self) -> (r: GF2) {
        let mut acc = GF2::Zero;
        let mut j: usize = 0;
        while j < self.len()
            invariant
                j <= self@.len(),
                acc == xor_fold(self@.take(j as int)),
            decreases self@.len() - j,
        {
            proof {
                assert(self@.take(j + 1).drop_last() =~= self@.take(j as int));
            }
            acc = acc.add(self[j]);
            j = j + 1;
        }
        proof {
            assert(self@.take(j as int) =~= self@);
        }
        acc
    }

    fn complement(&self) -> (r: Vec<GF2>) {
        let mut out: Vec<GF2> = Vec::new();
        let mut j: usize = 0;
        while j < self.len()
            invariant
                j <= self@.len(),
                out@ =~= flip(self@).take(j as int),
            decreases self@.len() - j,
        {
            out.push(self[j].add(GF2::One));
            j = j + 1;
        }
        proof {
            assert(flip(self@).take(j as int) =~= flip(self@));
        }
        out
    }
}

/// A matrix over GF(2), held as its rows.
#[derive(Clone, Debug, PartialEq, Eq, Hash)]
pub struct BinMatrix {
    pub rows: Vec<Vec<GF2>>,
}

impl View for BinMatrix {
    type V = Seq<Seq<GF2>>;

    open spec fn view(&self) -> Seq<Seq<GF2>> {
        Seq::new(self.rows@.len(), |i: int| self.rows@[i]@)
    }
}

impl Binary for BinMatrix {
    open spec fn parity_of(m: Seq<Seq<GF2>>) -> GF2 {
        mat_parity(m)
    }

    open spec fn complement_of(m: Seq<Seq<GF2>>) -> Seq<Seq<GF2>> {
        mat_flip(m)
    }

    fn parity(&self) -> (r: GF2) {
        let ghost row_par = Seq::new(self@.len(), |i: int| xor_fold(self@[i]));
        let mut acc = GF2::Zero;
        let mut i: usize = 0;
        while i < self.rows.len()
            invariant
                i <= self@.len(),
                self@.len() == self.rows@.len(),
                row_par.len() == self@.len(),
                forall|k: int| 0 <= k < row_par.len() ==> #[trigger] row_par[k] == xor_fold(self.rows@[k]@),
                acc == xor_fold(row_par.take(i as int)),
            decreases self@.len() - i,
        {
            proof {
                assert(row_par.take(i + 1).drop_last() =~= row_par.take(i as int));
            }
            let p = self.rows[i].parity();
            acc = acc.add(p);
            i = i + 1;
        }
        proof {
            assert(row_par.take(i as int) =~= row_par);
        }
        acc
    }

    fn complement(&self) -> (r: BinMatrix) {
        let mut out: Vec<Vec<GF2>> = Vec::new();
        let mut i: usize = 0;
        while i < self.rows.len()
            invariant
                i <= self@.len(),
                out@.len() == i,
                forall|k: int| 0 <= k < i ==> (#[trigger] out@[k])@ == flip(self@[k]),
            decreases self@.len() - i,
        {
            out.push(self.rows[i].complement());
            i = i + 1;
        }
        let r = BinMatrix { rows: out };
        assert(r@ =~= mat_flip(self@));
        r
    }
}

/// The bilinear form of two vectors of one length.
pub fn dot_product(u: &Vec<GF2>, v: &Vec<GF2>) -> (r: GF2)
    requires
        u@.len() == v@.len(),
    ensures
        r == dot(u@, v@),
{
    let mut acc = GF2::Zero;
    let mut j: usize = 0;
    while j < u.len()
        invariant
            j <= u@.len(),
            u@.len() == v@.len(),
            acc == dot(u@.take(j as int), v@.take(j as int)),
        decreases u@.len() - j,
    {
        proof {
            assert(u@.take(j + 1).drop_last() =~= u@.take(j as int));
            assert(v@.take(j + 1).drop_last() =~= v@.take(j as int));
        }
        acc = acc.add(u[j].mul(v[j]));
        j = j + 1;
    }
    proof {
        assert(u@.take(j as int) =~= u@);
        assert(v@.take(j as int) =~= v@);
    }
    acc
}

/// The entrywise sum of two vectors of one length.
pub fn vector_add(u: &Vec<GF2>, v: &Vec<GF2>) -> (r: Vec<GF2>)
    requires
        u@.len() == v@.len(),
    ensures
        r@ == vadd(u@, v@),
{
    let mut out: Vec<GF2> = Vec::new();
    let mut j: usize = 0;
    while j < u.len()
        invariant
            j <= u@.len(),
            u@.len() == v@.len(),
            out@ =~= vadd(u@, v@).take(j as int),
        decreases u@.len() - j,
    {
        out.push(u[j].add(v[j]));
        j = j + 1;
    }
    proof {
        assert(vadd(u@, v@).take(j as int) =~= vadd(u@, v@));
    }
    out
}

impl BinMatrix {
    /// The number of rows.
    pub fn nrows(&self) -> (r: usize)
        ensures
            r == self@.len(),
    {
        self.rows.len()
    }

    /// The entry in row `i` and column `j`.
    pub fn get(&self, i: usize, j: usize) -> (r: GF2)
        requires
            i < self@.len(),
            j < self@[i as int].len(),
        ensures
            r == self@[i as int][j as int],
    {
        self.rows[i][j]
    }

    /// The unit vector of length `n` with its one at index `i`.
    pub fn unit_row(n: usize, i: usize) -> (r: Vec<GF2>)
        ensures
            r@ == unit(n as nat, i as int),
    {
        let mut row: Vec<GF2> = Vec::new();
        let mut j: usize = 0;
        while j < n
            invariant
                j <= n,
                row@ =~= unit(n as nat, i as int).take(j as int),
            decreases n - j,
        {
            row.push(if i == j { GF2::One } else { GF2::Zero });
            j = j + 1;
        }
        proof {
            assert(unit(n as nat, i as int).take(j as int) =~= unit(n as nat, i as int));
        }
        row
    }

    /// The `n` by `n` identity matrix.
    pub fn identity(n: usize) -> (r: BinMatrix)
        ensures
            r@ == identity(n as nat),
    {
        let mut rows: Vec<Vec<GF2>> = Vec::new();
        let mut i: usize = 0;
        while i < n
            invariant
                i <= n,
                rows@.len() == i,
                forall|k: int| 0 <= k < i ==> (#[trigger] rows@[k])@ == unit(n as nat, k),
            decreases n - i,
        {
            let row = BinMatrix::unit_row(n, i);
            rows.push(row);
            i = i + 1;
        }
        let r = BinMatrix { rows };
        assert(r@ =~= identity(n as nat));
        r
    }

    /// Column `j`.
    pub fn column(&self, j: usize) -> (r: Vec<GF2>)
        requires
            forall|i: int| 0 <= i < self@.len() ==> j < (#[trigger] self@[i]).len(),
        ensures
            r@ == column(self@, j as int),
    {
        let mut out: Vec<GF2> = Vec::new();
        let mut i: usize = 0;
        while i < self.rows.len()
            invariant
                i <= self@.len(),
                self@.len() == self.rows@.len(),
                forall|k: int| 0 <= k < self@.len() ==> j < (#[trigger] self@[k]).len(),
                out@ =~= column(self@, j as int).take(i as int),
            decreases self@.len() - i,
        {
            assert(j < self@[i as int].len());
            out.push(self.rows[i][j]);
            i = i + 1;
        }
        proof {
            assert(column(self@, j as int).take(i as int) =~= column(self@, j as int));
        }
        out
    }

    /// The matrix times a column vector.
    pub fn mul_vector(&self, x: &Vec<GF2>) -> (r: Vec<GF2>)
        requires
            is_shape(self@, self@.len(), x@.len()),
        ensures
            r@ == mat_vec(self@, x@),
    {
        let mut out: Vec<GF2> = Vec::new();
        let mut i: usize = 0;
        while i < self.rows.len()
            invariant
                i <= self@.len(),
                self@.len() == self.rows@.len(),
                is_shape(self@, self@.len(), x@.len()),
                out@ =~= mat_vec(self@, x@).take(i as int),
            decreases self@.len() - i,
        {
            assert(self.rows@[i as int]@ == self@[i as int]);
            out.push(dot_product(&self.rows[i], x));
            i = i + 1;
        }
        proof {
            assert(mat_vec(self@, x@).take(i as int) =~= mat_vec(self@, x@));
        }
        out
    }

    /// The product of two square matrices of one size.
    pub fn mul_matrix(&self, other: &BinMatrix) -> (r: BinMatrix)
        requires
            is_square(self@, self@.len()),
            is_square(other@, self@.len()),
        ensures
            r@ == mat_mul(self@, other@),
            is_square(r@, self@.len()),
    {
        let n = self.rows.len();
        let mut cols: Vec<Vec<GF2>> = Vec::new();
        let mut j: usize = 0;
        while j < n
            invariant
                j <= n,
                n == self@.len(),
                is_square(other@, n as nat),
                cols@.len() == j,
                forall|k: int| 0 <= k < j ==> (#[trigger] cols@[k])@ == column(other@, k),
            decreases n - j,
        {
            cols.push(other.column(j));
            j = j + 1;
        }
        let mut rows: Vec<Vec<GF2>> = Vec::new();
        let mut i: usize = 0;
        while i < n
            invariant
                i <= n,
                n == self@.len(),
                self@.len() == self.rows@.len(),
                is_square(self@, n as nat),
                is_square(other@, n as nat),
                cols@.len() == n,
                forall|k: int| 0 <= k < n ==> (#[trigger] cols@[k])@ == column(other@, k),
                rows@.len() == i,
                forall|k: int| 0 <= k < i ==> (#[trigger] rows@[k])@ == mat_mul(self@, other@)[k],
            decreases n - i,
        {
            let mut row: Vec<GF2> = Vec::new();
            let mut j: usize = 0;
            assert(self.rows@[i as int]@ == self@[i as int]);
            while j < n
                invariant
                    j <= n,
                    i < n,
                    n == self@.len(),
                    self@.len() == self.rows@.len(),
                    is_square(self@, n as nat),
                    is_square(other@, n as nat),
                    self.rows@[i as int]@ == self@[i as int],
                    cols@.len() == n,
                    forall|k: int| 0 <= k < n ==> (#[trigger] cols@[k])@ == column(other@, k),
                    row@ =~= mat_mul(self@, other@)[i as int].take(j as int),
                decreases n - j,
            {
                assert(cols@[j as int]@ == column(other@, j as int));
                row.push(dot_product(&self.rows[i], &cols[j]));
                j = j + 1;
            }
            proof {
                assert(mat_mul(self@, other@)[i as int].take(j as int) =~= mat_mul(self@, other@)[i as int]);
            }
            rows.push(row);
            i = i + 1;
        }
        let r = BinMatrix { rows };
        assert(r@ =~= mat_mul(self@, other@));
        r
    }

    /// The transpose of a square matrix.
    pub fn transpose(&self) -> (r: BinMatrix)
        requires
            is_square(self@, self@.len()),
        ensures
            r@ == transpose(self@),
    {
        let n = self.rows.len();
        let mut rows: Vec<Vec<GF2>> = Vec::new();
        let mut j: usize = 0;
        while j < n
            invariant
                j <= n,
                n == self@.len(),
                is_square(self@, n as nat),
                rows@.len() == j,
                forall|k: int| 0 <= k < j ==> (#[trigger] rows@[k])@ == column(self@, k),
            decreases n - j,
        {
            rows.push(self.column(j));
            j = j + 1;
        }
        let r = BinMatrix { rows };
        assert(r@ =~= transpose(self@));
        r
    }
}

} // verus!
