use vstd::arithmetic::div_mod::lemma_div_denominator;
use vstd::arithmetic::power2::{lemma_pow2_pos, lemma_pow2_unfold, pow2};
use vstd::prelude::*;

use crate::algebra::lemma_xor_fold_concat;
use crate::binary::xor_fold;
use crate::error::OrthoError;
use crate::field::{gf_add, gf_of_int, GF2};

verus! {

/// Bit `j` of `k`, least significant first, as a field element.
pub open spec fn bit_of(k: nat, j: nat) -> GF2 {
    gf_of_int((k / pow2(j)) as int)
}

/// The low `n` bits of `k`, least significant first.
pub open spec fn bits_spec(n: nat, k: nat) -> Seq<GF2> {
    Seq::new(n, |j: int| bit_of(k, j as nat))
}

/// The parity of the number of one bits of `k`.
pub open spec fn ones_parity(k: nat) -> GF2
    decreases k,
{
    if k == 0 {
        GF2::Zero
    } else {
        gf_add(gf_of_int(k as int), ones_parity(k / 2))
    }
}

/// The low bit that gives `2 * i + c` an odd number of one bits.
pub open spec fn odd_completion(i: nat) -> GF2 {
    gf_add(GF2::One, ones_parity(i))
}

/// The odd-parity vector of length `n` with index `i`: the bits of `2 * i + c`,
/// where `c` is one exactly when `i` has an even number of one bits.
pub open spec fn odd_index_spec(n: nat, i: nat) -> Seq<GF2> {
    bits_spec(n, 2 * i + (if odd_completion(i) == GF2::One { 1nat } else { 0nat }))
}

/// The number whose binary digits, least significant first, are `s`.
pub open spec fn from_bits(s: Seq<GF2>) -> nat
    decreases s.len(),
{
    if s.len() == 0 {
        0
    } else {
        (if s[0] == GF2::One { 1nat } else { 0nat }) + 2 * from_bits(s.subrange(1, s.len() as int))
    }
}

/// Dividing by `2^j` and then by two is dividing by `2^(j+1)`.
proof fn lemma_pow2_div_step(k: nat, j: nat)
    ensures
        k / pow2(j) / 2 == k / pow2(j + 1),
        (k / 2) / pow2(j) == k / pow2(j + 1),
{
    lemma_pow2_pos(j);
    lemma_pow2_unfold(j + 1);
    lemma_div_denominator(k as int, pow2(j) as int, 2);
    lemma_div_denominator(k as int, 2, pow2(j) as int);
    assert(pow2(j) * 2 == 2 * pow2(j)) by (nonlinear_arith);
}

/// The bits of `k` are its lowest bit followed by the bits of `k / 2`.
pub proof fn lemma_bits_split(n: nat, k: nat)
    requires
        n > 0,
    ensures
        bits_spec(n, k) =~= seq![gf_of_int(k as int)] + bits_spec((n - 1) as nat, k / 2),
{
    assert forall|j: int| 1 <= j < n implies #[trigger] bits_spec(n, k)[j] == bits_spec(
        (n - 1) as nat,
        k / 2,
    )[j - 1] by {
        lemma_pow2_div_step(k, (j - 1) as nat);
    }
    assert(pow2(0) == 1) by {
        vstd::arithmetic::power2::lemma2_to64();
    }
    assert(k / 1 == k);
    assert(bits_spec(n, k)[0] == gf_of_int(k as int));
}

/// Below `2^n`, the parity of the bits is the parity of the number of ones.
pub proof fn lemma_bits_parity(n: nat, k: nat)
    ensures
        xor_fold(bits_spec(n, k)) == ones_parity(k) || k >= pow2(n),
    decreases n,
{
    if k < pow2(n) {
        if n == 0 {
            vstd::arithmetic::power2::lemma2_to64();
            assert(bits_spec(0, k) =~= Seq::<GF2>::empty());
        } else {
            lemma_bits_split(n, k);
            lemma_pow2_unfold(n);
            lemma_bits_parity((n - 1) as nat, k / 2);
            lemma_xor_fold_concat(seq![gf_of_int(k as int)], bits_spec((n - 1) as nat, k / 2));
            assert(xor_fold(seq![gf_of_int(k as int)]) == gf_of_int(k as int)) by {
                assert(seq![gf_of_int(k as int)].drop_last() =~= Seq::<GF2>::empty());
                assert(xor_fold(Seq::<GF2>::empty()) == GF2::Zero);
            }
            if k == 0 {
                assert(k / 2 == 0);
            }
        }
    }
}

/// The odd-parity vector with index `i` has length `n` and parity one.
pub proof fn lemma_odd_index_parity(n: nat, i: nat)
    requires
        n >= 1,
        i < pow2((n - 1) as nat),
    ensures
        odd_index_spec(n, i).len() == n,
        xor_fold(odd_index_spec(n, i)) == GF2::One,
{
    let c: nat = if odd_completion(i) == GF2::One { 1nat } else { 0nat };
    let k = 2 * i + c;
    lemma_pow2_unfold(n);
    lemma_bits_parity(n, k);
    assert(k / 2 == i);
    assert(gf_of_int(k as int) == odd_completion(i));
    if i == 0 {
        assert(ones_parity(0) == GF2::Zero);
    }
    assert(k != 0);
    assert(ones_parity(k) == gf_add(gf_of_int(k as int), ones_parity(k / 2)));
}

/// Past its first entry, the odd-parity vector with index `i` holds the bits
/// of `i`.
pub proof fn lemma_odd_index_high(n: nat, i: nat)
    requires
        n >= 1,
    ensures
        forall|j: int| 1 <= j < n ==> #[trigger] odd_index_spec(n, i)[j] == bit_of(i, (j - 1) as nat),
        odd_index_spec(n, i)[0] == odd_completion(i),
{
    let c: nat = if odd_completion(i) == GF2::One { 1nat } else { 0nat };
    let k = 2 * i + c;
    lemma_bits_split(n, k);
    assert(k / 2 == i);
    assert(gf_of_int(k as int) == odd_completion(i));
}

/// A number below `2^m` whose `m` low bits are all one is `2^m - 1`.
pub proof fn lemma_all_ones(m: nat, x: nat)
    requires
        x < pow2(m),
        forall|j: nat| j < m ==> #[trigger] bit_of(x, j) == GF2::One,
    ensures
        x == pow2(m) - 1,
    decreases m,
{
    vstd::arithmetic::power2::lemma2_to64();
    if m > 0 {
        lemma_pow2_unfold(m);
        assert forall|j: nat| j < (m - 1) as nat implies #[trigger] bit_of(x / 2, j) == GF2::One by {
            lemma_pow2_div_step(x, j);
            assert(bit_of(x, j + 1) == GF2::One);
        }
        lemma_all_ones((m - 1) as nat, x / 2);
        assert(bit_of(x, 0) == GF2::One);
        assert(x / 1 == x);
    }
}

/// Reading back the bits of a sequence gives a number below `2^len` whose
/// bits are that sequence.
pub proof fn lemma_from_bits(s: Seq<GF2>)
    ensures
        from_bits(s) < pow2(s.len()),
        bits_spec(s.len(), from_bits(s)) == s,
    decreases s.len(),
{
    vstd::arithmetic::power2::lemma2_to64();
    if s.len() == 0 {
        assert(bits_spec(0, from_bits(s)) =~= s);
    } else {
        let m = s.len();
        let rest = s.subrange(1, m as int);
        lemma_from_bits(rest);
        let x = from_bits(s);
        lemma_pow2_unfold(m);
        lemma_bits_split(m, x);
        assert(x / 2 == from_bits(rest));
        assert(gf_of_int(x as int) == s[0]);
        assert(bits_spec(m, x) =~= s);
    }
}

/// The bits of a number below `2^m` read back to that number.
pub proof fn lemma_bits_from(m: nat, x: nat)
    requires
        x < pow2(m),
    ensures
        from_bits(bits_spec(m, x)) == x,
    decreases m,
{
    vstd::arithmetic::power2::lemma2_to64();
    if m > 0 {
        lemma_pow2_unfold(m);
        lemma_bits_split(m, x);
        let b = bits_spec(m, x);
        assert(b.subrange(1, m as int) =~= bits_spec((m - 1) as nat, x / 2));
        lemma_bits_from((m - 1) as nat, x / 2);
    }
}

/// Distinct indices below `2^(n-1)` give distinct odd-parity vectors.
pub proof fn lemma_odd_index_injective(n: nat, i: nat, j: nat)
    requires
        n >= 1,
        i < pow2((n - 1) as nat),
        j < pow2((n - 1) as nat),
        odd_index_spec(n, i) == odd_index_spec(n, j),
    ensures
        i == j,
{
    lemma_odd_index_high(n, i);
    lemma_odd_index_high(n, j);
    let m = (n - 1) as nat;
    assert(bits_spec(m, i) =~= bits_spec(m, j)) by {
        assert forall|t: int| 0 <= t < m implies bits_spec(m, i)[t] == bits_spec(m, j)[t] by {
            assert(odd_index_spec(n, i)[t + 1] == odd_index_spec(n, j)[t + 1]);
            assert(odd_index_spec(n, i)[t + 1] == bit_of(i, t as nat));
            assert(odd_index_spec(n, j)[t + 1] == bit_of(j, t as nat));
        }
    }
    lemma_bits_from(m, i);
    lemma_bits_from(m, j);
}

/// Every odd-parity vector of length `n` has an index below `2^(n-1)`.
pub proof fn lemma_odd_index_surjective(n: nat, v: Seq<GF2>)
    requires
        n >= 1,
        v.len() == n,
        xor_fold(v) == GF2::One,
    ensures
        exists|i: nat| i < pow2((n - 1) as nat) && #[trigger] odd_index_spec(n, i) == v,
{
    let rest = v.subrange(1, n as int);
    let i = from_bits(rest);
    lemma_from_bits(rest);
    lemma_odd_index_high(n, i);
    lemma_odd_index_parity(n, i);
    let w = odd_index_spec(n, i);
    assert(v =~= seq![v[0]] + rest);
    assert(w =~= seq![w[0]] + rest);
    lemma_xor_fold_concat(seq![v[0]], rest);
    lemma_xor_fold_concat(seq![w[0]], rest);
    assert(seq![v[0]].drop_last() =~= Seq::<GF2>::empty());
    assert(seq![w[0]].drop_last() =~= Seq::<GF2>::empty());
    assert(xor_fold(Seq::<GF2>::empty()) == GF2::Zero);
    assert(w =~= v);
}

/// The low `n` bits of `k`, least significant first.
pub fn bit_iter(n: usize, k: usize) -> (r: Vec<GF2>)
    ensures
        r@ == bits_spec(n as nat, k as nat),
{
    let mut out: Vec<GF2> = Vec::new();
    let mut rest: usize = k;
    let mut j: usize = 0;
    proof {
        vstd::arithmetic::power2::lemma2_to64();
    }
    while j < n
        invariant
            j <= n,
            out@ =~= bits_spec(j as nat, k as nat),
            rest as nat == k as nat / pow2(j as nat),
        decreases n - j,
    {
        let b = if rest % 2 == 0 { GF2::Zero } else { GF2::One };
        out.push(b);
        proof {
            lemma_pow2_div_step(k as nat, j as nat);
            assert(out@ =~= bits_spec((j + 1) as nat, k as nat));
        }
        rest = rest / 2;
        j = j + 1;
    }
    out
}

/// `2^e`, or `None` where it exceeds the largest `usize`.
pub fn checked_pow2(e: usize) -> (r: Option<usize>)
    ensures
        r matches Some(v) ==> v as nat == pow2(e as nat),
        r is None <==> pow2(e as nat) > usize::MAX,
{
    let mut r: usize = 1;
    let mut t: usize = 0;
    proof {
        vstd::arithmetic::power2::lemma2_to64();
    }
    while t < e
        invariant
            t <= e,
            r as nat == pow2(t as nat),
        decreases e - t,
    {
        proof {
            lemma_pow2_unfold((t + 1) as nat);
        }
        match r.checked_mul(2) {
            Some(d) => {
                r = d;
            },
            None => {
                proof {
                    if t + 1 < e {
                        vstd::arithmetic::power2::lemma_pow2_strictly_increases((t + 1) as nat, e as nat);
                    }
                }
                return None;
            },
        }
        t = t + 1;
    }
    Some(r)
}

/// The parity of the number of one bits of `k`, computed bit by bit.
fn ones_parity_of(k: usize) -> (r: GF2)
    ensures
        r == ones_parity(k as nat),
{
    let mut acc = GF2::Zero;
    let mut rest: usize = k;
    while rest > 0
        invariant
            gf_add(acc, ones_parity(rest as nat)) == ones_parity(k as nat),
        decreases rest,
    {
        let b = if rest % 2 == 0 { GF2::Zero } else { GF2::One };
        acc = acc.add(b);
        rest = rest / 2;
    }
    acc
}

/// The odd-parity vector of length `n` with index `i`. The index ranges over
/// `[0, 2^(n-1))`; past its end the result is `IndexOutOfRange`.
pub fn indexed_odd_bit_iter(n: usize, i: usize) -> (r: Result<Vec<GF2>, OrthoError>)
    requires
        n > 0,
    ensures
        i >= pow2((n - 1) as nat) <==> r is Err,
        r is Err ==> r == Err::<Vec<GF2>, OrthoError>(OrthoError::IndexOutOfRange),
        r matches Ok(v) ==> v@ == odd_index_spec(n as nat, i as nat),
        r matches Ok(v) ==> v@.len() == n && xor_fold(v@) == GF2::One,
{
    proof {
        vstd::arithmetic::power2::lemma2_to64();
        lemma_pow2_pos((n - 1) as nat);
    }
    match checked_pow2(n - 1) {
        Some(bound) => {
            if i >= bound {
                return Err(OrthoError::IndexOutOfRange);
            }
        },
        None => {},
    }
    let c = GF2::One.add(ones_parity_of(i));
    let high = bit_iter(n - 1, i);
    let mut out: Vec<GF2> = Vec::new();
    out.push(c);
    let mut j: usize = 0;
    while j < high.len()
        invariant
            out@ =~= seq![c] + high@.take(j as int),
            j <= high.len(),
        decreases high.len() - j,
    {
        out.push(high[j]);
        j = j + 1;
    }
    proof {
        let k: nat = 2 * (i as nat) + (if c == GF2::One { 1nat } else { 0nat });
        lemma_bits_split(n as nat, k);
        assert(k / 2 == i as nat);
        assert(gf_of_int(k as int) == c);
        assert(high@.take(high@.len() as int) =~= high@);
        lemma_odd_index_parity(n as nat, i as nat);
    }
    Ok(out)
}

} // verus!
