//! Lagrange interpolation at zero over GF(2^8): the coefficients that depend on the share
//! indexes alone, and the recovery of each secret word from them.

use crate::error::ShareError;
use crate::gf256::{
    gf_div, gf_inv, gf_mul, lemma_add, lemma_mul_associates, lemma_mul_inverse, lemma_mul_nonzero,
    Field,
};
use crate::record::word_offset;
use vstd::prelude::*;

verus! {

/// The product of `xs[l] / (xs[j] + xs[l])` over every `l` below `n` other than `j`: the
/// Lagrange basis polynomial of the point `xs[j]` among the first `n` points, taken at zero.
pub open spec fn coefficient(xs: Seq<u8>, j: int, n: int) -> u8
    decreases n,
{
    if n <= 0 {
        1
    } else if n - 1 == j {
        coefficient(xs, j, n - 1)
    } else {
        gf_mul(coefficient(xs, j, n - 1), gf_div(xs[n - 1], xs[j] ^ xs[n - 1]))
    }
}

/// The Lagrange coefficients of all the points.
pub open spec fn coefficients(xs: Seq<u8>) -> Seq<u8> {
    Seq::new(xs.len(), |j: int| coefficient(xs, j, xs.len() as int))
}

/// Whether the point `xs[j]` occurs at another place too.
pub open spec fn repeats(xs: Seq<u8>, j: int) -> bool {
    exists|l: int| 0 <= l < xs.len() && l != j && #[trigger] xs[l] == xs[j]
}

/// What goes wrong in computing the coefficient of the point `xs[j]`, if anything: a division
/// by zero where the point occurs twice, a violation where the coefficient is zero.
pub open spec fn row_fault(xs: Seq<u8>, j: int) -> Option<ShareError> {
    if repeats(xs, j) {
        Some(ShareError::DivisionByZero)
    } else if coefficient(xs, j, xs.len() as int) == 0 {
        Some(ShareError::LinearIndependenceViolation)
    } else {
        None
    }
}

/// The fault of the first of the points below `n` that has one.
pub open spec fn first_fault(xs: Seq<u8>, n: int) -> Option<ShareError>
    decreases n,
{
    if n <= 0 {
        None
    } else if first_fault(xs, n - 1) is Some {
        first_fault(xs, n - 1)
    } else {
        row_fault(xs, n - 1)
    }
}

/// The sum of the products `ys[j] * cs[j]` over every `j` below `n`.
pub open spec fn dot(ys: Seq<u8>, cs: Seq<u8>, n: int) -> u8
    decreases n,
{
    if n <= 0 {
        0
    } else {
        dot(ys, cs, n - 1) ^ gf_mul(ys[n - 1], cs[n - 1])
    }
}

/// The value at zero of the polynomial of degree below `xs.len()` that takes the value `ys[j]`
/// at the point `xs[j]`, for distinct points.
pub open spec fn interpolate(xs: Seq<u8>, ys: Seq<u8>) -> u8 {
    dot(ys, coefficients(xs), xs.len() as int)
}

/// Word `i` of each of `k` shares that lie one after the other, `share_len` bytes each.
pub open spec fn column(shares: Seq<u8>, share_len: int, i: int, k: int) -> Seq<u8> {
    Seq::new(k as nat, |j: int| shares[j * share_len + i])
}

/// The first fault stays the first.
proof fn lemma_first_fault(xs: Seq<u8>, j: int, n: int)
    requires
        0 <= j < n,
        first_fault(xs, j) is None,
        row_fault(xs, j) is Some,
    ensures
        first_fault(xs, n) == row_fault(xs, j),
    decreases n,
{
    if n > j + 1 {
        lemma_first_fault(xs, j, n - 1);
    }
}

/// No coefficient of distinct points other than zero is zero.
pub proof fn lemma_coefficient_nonzero(xs: Seq<u8>, j: int, n: int)
    requires
        0 <= j < xs.len(),
        0 <= n <= xs.len(),
        forall|a: int, b: int| 0 <= a < b < xs.len() ==> xs[a] != xs[b],
        forall|a: int| 0 <= a < xs.len() ==> #[trigger] xs[a] != 0,
    ensures
        coefficient(xs, j, n) != 0,
    decreases n,
{
    if n > 0 {
        lemma_coefficient_nonzero(xs, j, n - 1);
        if n - 1 != j {
            let d = xs[j] ^ xs[n - 1];
            lemma_add(xs[j], xs[n - 1], 0);
            lemma_mul_inverse(d);
            lemma_mul_nonzero(xs[n - 1], gf_inv(d));
            lemma_mul_nonzero(coefficient(xs, j, n - 1), gf_div(xs[n - 1], d));
        }
    }
}

/// For distinct points other than zero every coefficient exists: the computation meets no
/// division by zero and no coefficient that is zero.
pub proof fn lemma_coefficients_exist(xs: Seq<u8>)
    requires
        forall|a: int, b: int| 0 <= a < b < xs.len() ==> xs[a] != xs[b],
        forall|a: int| 0 <= a < xs.len() ==> #[trigger] xs[a] != 0,
    ensures
        first_fault(xs, xs.len() as int) is None,
{
    lemma_no_fault(xs, xs.len() as int);
}

proof fn lemma_no_fault(xs: Seq<u8>, n: int)
    requires
        0 <= n <= xs.len(),
        forall|a: int, b: int| 0 <= a < b < xs.len() ==> xs[a] != xs[b],
        forall|a: int| 0 <= a < xs.len() ==> #[trigger] xs[a] != 0,
    ensures
        first_fault(xs, n) is None,
    decreases n,
{
    if n > 0 {
        lemma_no_fault(xs, n - 1);
        lemma_coefficient_nonzero(xs, n - 1, xs.len() as int);
        assert(!repeats(xs, n - 1)) by {
            if repeats(xs, n - 1) {
                let l = choose|l: int| 0 <= l < xs.len() && l != n - 1 && #[trigger] xs[l] == xs[n - 1];
                if l < n - 1 {
                    assert(xs[l] != xs[n - 1]);
                } else {
                    assert(xs[n - 1] != xs[l]);
                }
            }
        }
    }
}

/// Computes the Lagrange coefficient of every point, in the order of the points. It fails at
/// the first point that occurs twice or whose coefficient is zero.
pub fn lagrange_coefficients(field: &Field, xs: &[u8]) -> (r: Result<Vec<u8>, ShareError>)
    ensures
        match first_fault(xs@, xs@.len() as int) {
            Some(e) => r == Err::<Vec<u8>, ShareError>(e),
            None => r is Ok && r->Ok_0@ == coefficients(xs@),
        },
{
    let k = xs.len();
    let mut out: Vec<u8> = Vec::new();
    let mut j: usize = 0;
    while j < k
        invariant
            j <= k,
            k == xs@.len(),
            out@.len() == j,
            forall|m: int| 0 <= m < j ==> #[trigger] out@[m] == coefficient(xs@, m, k as int),
            first_fault(xs@, j as int) is None,
        decreases k - j,
    {
        let mut temp: u8 = field.one();
        let mut l: usize = 0;
        while l < k
            invariant
                l <= k,
                j < k,
                k == xs@.len(),
                temp == coefficient(xs@, j as int, l as int),
                forall|m: int| 0 <= m < l && m != j ==> #[trigger] xs@[m] != xs@[j as int],
                first_fault(xs@, j as int) is None,
            decreases k - l,
        {
            if l != j {
                let num = field.mul(temp, xs[l]);
                match field.div(num, xs[j] ^ xs[l]) {
                    Ok(q) => {
                        proof {
                            lemma_mul_associates(
                                temp,
                                xs@[l as int],
                                gf_inv(xs@[j as int] ^ xs@[l as int]),
                            );
                            lemma_add(xs@[j as int], xs@[l as int], 0);
                        }
                        temp = q;
                    },
                    Err(e) => {
                        proof {
                            lemma_add(xs@[j as int], xs@[l as int], 0);
                            assert(repeats(xs@, j as int));
                            lemma_first_fault(xs@, j as int, k as int);
                        }
                        return Err(e);
                    },
                }
            }
            l = l + 1;
        }
        assert(!repeats(xs@, j as int));
        if temp == field.zero() {
            proof {
                lemma_first_fault(xs@, j as int, k as int);
            }
            return Err(ShareError::LinearIndependenceViolation);
        }
        out.push(temp);
        j = j + 1;
    }
    assert(out@ =~= coefficients(xs@));
    Ok(out)
}

/// Recovers every word of the secret: word `i` is the sum over the shares of the share's word
/// `i` times the share's coefficient. The shares lie one after the other in `shares`,
/// `share_len` words each, in the order of the coefficients.
pub fn recover_words(field: &Field, shares: &[u8], share_len: usize, coeffs: &[u8]) -> (r: Vec<u8>)
    requires
        shares@.len() == coeffs@.len() * share_len,
    ensures
        r@.len() == share_len,
        forall|i: int|
            0 <= i < share_len ==> #[trigger] r@[i] == dot(
                column(shares@, share_len as int, i, coeffs@.len() as int),
                coeffs@,
                coeffs@.len() as int,
            ),
{
    let k = coeffs.len();
    let total = shares.len();
    let mut out: Vec<u8> = Vec::new();
    let mut i: usize = 0;
    while i < share_len
        invariant
            i <= share_len,
            k == coeffs@.len(),
            total == k * share_len,
            shares@.len() == k * share_len,
            out@.len() == i,
            forall|m: int|
                0 <= m < i ==> #[trigger] out@[m] == dot(
                    column(shares@, share_len as int, m, k as int),
                    coeffs@,
                    k as int,
                ),
        decreases share_len - i,
    {
        let ghost col = column(shares@, share_len as int, i as int, k as int);
        let mut temp: u8 = field.zero();
        let mut j: usize = 0;
        while j < k
            invariant
                j <= k,
                i < share_len,
                k == coeffs@.len(),
                total == k * share_len,
                shares@.len() == k * share_len,
                col == column(shares@, share_len as int, i as int, k as int),
                temp == dot(col, coeffs@, j as int),
            decreases k - j,
        {
            assert(0 <= j * share_len && j * share_len + share_len <= k * share_len)
                by (nonlinear_arith)
                requires
                    j < k,
            ;
            let (first, _) = word_offset(8, i);
            let at: usize = j * share_len + first;
            temp = temp ^ field.mul(shares[at], coeffs[j]);
            j = j + 1;
        }
        out.push(temp);
        i = i + 1;
    }
    out
}

} // verus!
