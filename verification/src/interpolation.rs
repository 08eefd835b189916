//! Why the reconstruction is right: the shares of a word are the values of a polynomial whose
//! constant term is the word, and interpolation at zero gives that term back, whichever
//! quorum of shares is used and in whatever order.

use crate::gf256::{
    gf_div, gf_inv, gf_mul, lemma_add, lemma_div_cancels, lemma_mul_associates,
    lemma_mul_commutes, lemma_mul_distributes, lemma_mul_inverse, lemma_mul_nonzero,
    lemma_mul_one, lemma_mul_zero,
};
use crate::lagrange::{coefficient, coefficients, dot, interpolate};
use vstd::prelude::*;

verus! {

/// The value at `x` of the polynomial with the coefficients `p`, the constant term first.
pub open spec fn eval(p: Seq<u8>, x: u8) -> u8
    decreases p.len(),
{
    if p.len() == 0 {
        0
    } else {
        p[0] ^ gf_mul(x, eval(p.drop_first(), x))
    }
}

/// The values of the polynomial `p` at the points `xs`: the words that the shares with these
/// indexes hold for a secret word `p[0]`.
pub open spec fn share_values(p: Seq<u8>, xs: Seq<u8>) -> Seq<u8> {
    Seq::new(xs.len(), |j: int| eval(p, xs[j]))
}

/// Whether no point occurs twice.
pub open spec fn distinct(xs: Seq<u8>) -> bool {
    forall|a: int, b: int| 0 <= a < b < xs.len() ==> xs[a] != xs[b]
}

/// Whether the share with the index `x` and the word `y` is among the shares `(xs[j], ys[j])`.
pub open spec fn holds_point(xs: Seq<u8>, ys: Seq<u8>, x: u8, y: u8) -> bool {
    exists|j: int| 0 <= j < xs.len() && #[trigger] xs[j] == x && ys[j] == y
}

/// The quotient of the polynomial `p` by `x + a`.
spec fn quot(p: Seq<u8>, a: u8) -> Seq<u8>
    decreases p.len(),
{
    if p.len() <= 1 {
        Seq::empty()
    } else {
        seq![eval(p.drop_first(), a)] + quot(p.drop_first(), a)
    }
}

/// The sum of two polynomials with the same number of coefficients.
spec fn padd(p: Seq<u8>, q: Seq<u8>) -> Seq<u8> {
    Seq::new(p.len(), |i: int| p[i] ^ q[i])
}

/// The polynomial `p` times the constant `c`.
spec fn scale(c: u8, p: Seq<u8>) -> Seq<u8> {
    Seq::new(p.len(), |i: int| gf_mul(c, p[i]))
}

/// The polynomial `p` times `x + a`.
spec fn lin_mul(p: Seq<u8>, a: u8) -> Seq<u8> {
    padd(seq![0u8] + p, scale(a, p).push(0))
}

/// The polynomial with `n` coefficients, all of them zero.
spec fn zeros(n: nat) -> Seq<u8> {
    Seq::new(n, |i: int| 0u8)
}

/// The product of `x + xs[l]` over every `l` below `n` other than `j`, as a polynomial.
spec fn numer(xs: Seq<u8>, j: int, n: int) -> Seq<u8>
    decreases n,
{
    if n <= 0 {
        seq![1u8]
    } else if n - 1 == j {
        numer(xs, j, n - 1)
    } else {
        lin_mul(numer(xs, j, n - 1), xs[n - 1])
    }
}

/// The product of `x + xs[l]` over every `l` below `n` other than `j`, as a value.
spec fn nprod(xs: Seq<u8>, j: int, n: int, x: u8) -> u8
    decreases n,
{
    if n <= 0 {
        1
    } else if n - 1 == j {
        nprod(xs, j, n - 1, x)
    } else {
        gf_mul(x ^ xs[n - 1], nprod(xs, j, n - 1, x))
    }
}

/// The weight of the point `xs[j]` in the interpolating polynomial.
spec fn weight(xs: Seq<u8>, ys: Seq<u8>, j: int) -> u8 {
    gf_div(ys[j], nprod(xs, j, xs.len() as int, xs[j]))
}

/// The sum of the first `m` terms of the interpolating polynomial through the points
/// `(xs[j], ys[j])`.
spec fn interp(xs: Seq<u8>, ys: Seq<u8>, m: int) -> Seq<u8>
    decreases m,
{
    if m <= 0 {
        zeros(xs.len())
    } else {
        padd(
            interp(xs, ys, m - 1),
            scale(weight(xs, ys, m - 1), numer(xs, m - 1, xs.len() as int)),
        )
    }
}

/// The value at `x` of the sum of the first `m` terms of the interpolating polynomial.
spec fn isum(xs: Seq<u8>, ys: Seq<u8>, m: int, x: u8) -> u8
    decreases m,
{
    if m <= 0 {
        0
    } else {
        isum(xs, ys, m - 1, x) ^ gf_mul(weight(xs, ys, m - 1), nprod(xs, m - 1, xs.len() as int, x))
    }
}

proof fn lemma_mul_swap(a: u8, b: u8, c: u8)
    ensures
        gf_mul(a, gf_mul(b, c)) == gf_mul(b, gf_mul(a, c)),
{
    lemma_mul_associates(a, b, c);
    lemma_mul_commutes(a, b);
    lemma_mul_associates(b, a, c);
}

proof fn lemma_mul_four(a: u8, b: u8, c: u8, d: u8)
    ensures
        gf_mul(gf_mul(a, b), gf_mul(c, d)) == gf_mul(gf_mul(c, a), gf_mul(d, b)),
{
    lemma_mul_associates(a, b, gf_mul(c, d));
    lemma_mul_swap(b, c, d);
    lemma_mul_swap(a, c, gf_mul(b, d));
    lemma_mul_associates(c, a, gf_mul(b, d));
    lemma_mul_commutes(b, d);
}

/// The inverse of a product is the product of the inverses.
proof fn lemma_inv_mul(a: u8, b: u8)
    requires
        a != 0,
        b != 0,
    ensures
        gf_inv(gf_mul(a, b)) == gf_mul(gf_inv(a), gf_inv(b)),
{
    let c = gf_mul(a, b);
    let u = gf_inv(c);
    let v = gf_mul(gf_inv(a), gf_inv(b));
    lemma_mul_nonzero(a, b);
    lemma_mul_inverse(a);
    lemma_mul_inverse(b);
    lemma_mul_inverse(c);
    lemma_mul_four(a, b, gf_inv(a), gf_inv(b));
    lemma_mul_one(1);
    assert(gf_mul(c, v) == 1);
    lemma_mul_associates(u, c, v);
    lemma_mul_one(u);
    lemma_mul_one(v);
}

/// A polynomial is its value at `a` plus `x + a` times its quotient by `x + a`.
proof fn lemma_division(p: Seq<u8>, a: u8, y: u8)
    ensures
        eval(p, y) == eval(p, a) ^ gf_mul(y ^ a, eval(quot(p, a), y)),
        quot(p, a).len() == if p.len() == 0 { 0 } else { p.len() - 1 },
    decreases p.len(),
{
    lemma_mul_zero(y ^ a);
    lemma_mul_zero(y);
    lemma_mul_zero(a);
    if p.len() == 0 {
        lemma_add(0, 0, 0);
    } else if p.len() == 1 {
        lemma_add(p[0], 0, 0);
        assert(eval(p.drop_first(), y) == 0);
        assert(eval(p.drop_first(), a) == 0);
    } else {
        let rest = p.drop_first();
        let e = eval(rest, a);
        let inner = quot(rest, a);
        let big = eval(inner, y);
        lemma_division(rest, a, y);
        let q = quot(p, a);
        assert(q.drop_first() =~= inner);
        assert(eval(q, y) == e ^ gf_mul(y, big));
        lemma_mul_distributes(y, e, gf_mul(y ^ a, big));
        lemma_mul_distributes(y ^ a, e, gf_mul(y, big));
        lemma_mul_distributes(e, y, a);
        lemma_mul_swap(y ^ a, y, big);
        let lead_p = p[0];
        let ta = gf_mul(a, e);
        let tb = gf_mul(y, e);
        let tc = gf_mul(y, gf_mul(y ^ a, big));
        assert((lead_p ^ (tb ^ tc)) == ((lead_p ^ ta) ^ ((tb ^ ta) ^ tc))) by (bit_vector);
    }
}

/// A polynomial with no more coefficients than it has distinct roots is zero everywhere.
proof fn lemma_roots(p: Seq<u8>, xs: Seq<u8>, x: u8)
    requires
        p.len() <= xs.len(),
        distinct(xs),
        forall|i: int| 0 <= i < xs.len() ==> eval(p, #[trigger] xs[i]) == 0,
    ensures
        eval(p, x) == 0,
    decreases p.len(),
{
    if p.len() > 0 {
        let a = xs.last();
        let q = quot(p, a);
        let front = xs.drop_last();
        assert(eval(p, a) == 0);
        assert forall|i: int| 0 <= i < front.len() implies eval(q, #[trigger] front[i]) == 0 by {
            let y = xs[i];
            assert(front[i] == y);
            lemma_division(p, a, y);
            assert(eval(p, y) == 0);
            lemma_add(gf_mul(y ^ a, eval(q, y)), 0, 0);
            lemma_add(y, a, 0);
            lemma_mul_nonzero(y ^ a, eval(q, y));
        }
        lemma_division(p, a, x);
        lemma_roots(q, front, x);
        lemma_mul_zero(x ^ a);
        lemma_add(0, 0, 0);
    }
}

proof fn lemma_eval_padd(p: Seq<u8>, q: Seq<u8>, x: u8)
    requires
        p.len() == q.len(),
    ensures
        eval(padd(p, q), x) == eval(p, x) ^ eval(q, x),
    decreases p.len(),
{
    if p.len() == 0 {
        lemma_add(0, 0, 0);
    } else {
        let s = padd(p, q);
        assert(s.drop_first() =~= padd(p.drop_first(), q.drop_first()));
        lemma_eval_padd(p.drop_first(), q.drop_first(), x);
        let ep = eval(p.drop_first(), x);
        let eq = eval(q.drop_first(), x);
        lemma_mul_distributes(x, ep, eq);
        let lead_p = p[0];
        let lead_q = q[0];
        let tp = gf_mul(x, ep);
        let tq = gf_mul(x, eq);
        assert(((lead_p ^ lead_q) ^ (tp ^ tq)) == ((lead_p ^ tp) ^ (lead_q ^ tq))) by (bit_vector);
    }
}

proof fn lemma_eval_scale(c: u8, p: Seq<u8>, x: u8)
    ensures
        eval(scale(c, p), x) == gf_mul(c, eval(p, x)),
    decreases p.len(),
{
    if p.len() == 0 {
        lemma_mul_zero(c);
    } else {
        let s = scale(c, p);
        assert(s.drop_first() =~= scale(c, p.drop_first()));
        lemma_eval_scale(c, p.drop_first(), x);
        let e = eval(p.drop_first(), x);
        lemma_mul_distributes(c, p[0], gf_mul(x, e));
        lemma_mul_swap(x, c, e);
    }
}

proof fn lemma_eval_pad(p: Seq<u8>, x: u8)
    ensures
        eval(p.push(0), x) == eval(p, x),
    decreases p.len(),
{
    let s = p.push(0);
    if p.len() == 0 {
        assert(s.drop_first() =~= Seq::<u8>::empty());
        assert(eval(s.drop_first(), x) == 0);
        lemma_mul_zero(x);
        lemma_add(0, 0, 0);
    } else {
        assert(s.drop_first() =~= p.drop_first().push(0));
        lemma_eval_pad(p.drop_first(), x);
    }
}

proof fn lemma_eval_lin(p: Seq<u8>, a: u8, x: u8)
    ensures
        eval(lin_mul(p, a), x) == gf_mul(x ^ a, eval(p, x)),
        lin_mul(p, a).len() == p.len() + 1,
{
    let shifted = seq![0u8] + p;
    let scaled = scale(a, p).push(0);
    assert(shifted.drop_first() =~= p);
    lemma_add(gf_mul(x, eval(p, x)), 0, 0);
    lemma_eval_pad(scale(a, p), x);
    lemma_eval_scale(a, p, x);
    lemma_eval_padd(shifted, scaled, x);
    lemma_mul_distributes(eval(p, x), x, a);
}

proof fn lemma_eval_zeros(n: nat, x: u8)
    ensures
        eval(zeros(n), x) == 0,
    decreases n,
{
    if n > 0 {
        assert(zeros(n).drop_first() =~= zeros((n - 1) as nat));
        lemma_eval_zeros((n - 1) as nat, x);
        lemma_mul_zero(x);
        lemma_add(0, 0, 0);
    }
}

proof fn lemma_eval_numer(xs: Seq<u8>, j: int, n: int, x: u8)
    requires
        0 <= n <= xs.len(),
    ensures
        eval(numer(xs, j, n), x) == nprod(xs, j, n, x),
        numer(xs, j, n).len() == if 0 <= j < n { n } else { n + 1 },
    decreases n,
{
    if n <= 0 {
        let one = seq![1u8];
        assert(one.drop_first() =~= Seq::<u8>::empty());
        assert(eval(one.drop_first(), x) == 0);
        lemma_mul_zero(x);
        lemma_add(1, 0, 0);
    } else {
        lemma_eval_numer(xs, j, n - 1, x);
        if n - 1 != j {
            lemma_eval_lin(numer(xs, j, n - 1), xs[n - 1], x);
        }
    }
}

proof fn lemma_eval_interp(xs: Seq<u8>, ys: Seq<u8>, m: int, x: u8)
    requires
        0 <= m <= xs.len(),
    ensures
        eval(interp(xs, ys, m), x) == isum(xs, ys, m, x),
        interp(xs, ys, m).len() == xs.len(),
    decreases m,
{
    if m <= 0 {
        lemma_eval_zeros(xs.len(), x);
    } else {
        let k = xs.len() as int;
        lemma_eval_interp(xs, ys, m - 1, x);
        lemma_eval_numer(xs, m - 1, k, x);
        let term = scale(weight(xs, ys, m - 1), numer(xs, m - 1, k));
        lemma_eval_scale(weight(xs, ys, m - 1), numer(xs, m - 1, k), x);
        lemma_eval_padd(interp(xs, ys, m - 1), term, x);
    }
}

proof fn lemma_nprod_zero(xs: Seq<u8>, j: int, n: int, l: int)
    requires
        0 <= l < n <= xs.len(),
        l != j,
    ensures
        nprod(xs, j, n, xs[l]) == 0,
    decreases n,
{
    let x = xs[l];
    if n - 1 == l {
        lemma_add(x, x, 0);
        lemma_mul_zero(nprod(xs, j, n - 1, x));
    } else {
        lemma_nprod_zero(xs, j, n - 1, l);
        lemma_mul_zero(x ^ xs[n - 1]);
    }
}

proof fn lemma_nprod_nonzero(xs: Seq<u8>, j: int, n: int)
    requires
        0 <= j < xs.len(),
        0 <= n <= xs.len(),
        distinct(xs),
    ensures
        nprod(xs, j, n, xs[j]) != 0,
    decreases n,
{
    if n > 0 {
        lemma_nprod_nonzero(xs, j, n - 1);
        if n - 1 != j {
            lemma_add(xs[j], xs[n - 1], 0);
            lemma_mul_nonzero(xs[j] ^ xs[n - 1], nprod(xs, j, n - 1, xs[j]));
        }
    }
}

/// The interpolating polynomial takes the value `ys[i]` at the point `xs[i]`.
proof fn lemma_isum_at_point(xs: Seq<u8>, ys: Seq<u8>, m: int, i: int)
    requires
        0 <= m <= xs.len(),
        0 <= i < xs.len(),
        distinct(xs),
    ensures
        isum(xs, ys, m, xs[i]) == if i < m { ys[i] } else { 0 },
    decreases m,
{
    if m > 0 {
        let k = xs.len() as int;
        lemma_isum_at_point(xs, ys, m - 1, i);
        let w = weight(xs, ys, m - 1);
        if m - 1 == i {
            lemma_nprod_nonzero(xs, i, k);
            lemma_div_cancels(nprod(xs, i, k, xs[i]), ys[i]);
            lemma_add(ys[i], 0, 0);
        } else {
            lemma_nprod_zero(xs, m - 1, k, i);
            lemma_mul_zero(w);
            lemma_add(isum(xs, ys, m - 1, xs[i]), 0, 0);
        }
    }
}

/// A Lagrange coefficient is the quotient of the two products that define it.
proof fn lemma_coefficient_quotient(xs: Seq<u8>, j: int, n: int)
    requires
        0 <= j < xs.len(),
        0 <= n <= xs.len(),
        distinct(xs),
    ensures
        coefficient(xs, j, n) == gf_div(nprod(xs, j, n, 0), nprod(xs, j, n, xs[j])),
    decreases n,
{
    if n <= 0 {
        lemma_mul_inverse(1);
        lemma_mul_one(gf_inv(1));
    } else {
        lemma_coefficient_quotient(xs, j, n - 1);
        if n - 1 != j {
            let x = xs[n - 1];
            let d = xs[j] ^ x;
            let top = nprod(xs, j, n - 1, 0);
            let bottom = nprod(xs, j, n - 1, xs[j]);
            lemma_add(xs[j], x, 0);
            lemma_add(x, 0, 0);
            lemma_nprod_nonzero(xs, j, n - 1);
            lemma_inv_mul(d, bottom);
            lemma_mul_four(top, gf_inv(bottom), x, gf_inv(d));
        }
    }
}

/// The value of the interpolating polynomial at zero is the sum that the second pass forms.
proof fn lemma_isum_at_zero(xs: Seq<u8>, ys: Seq<u8>, m: int)
    requires
        0 <= m <= xs.len(),
        distinct(xs),
    ensures
        isum(xs, ys, m, 0) == dot(ys, coefficients(xs), m),
    decreases m,
{
    if m > 0 {
        let k = xs.len() as int;
        let j = m - 1;
        lemma_isum_at_zero(xs, ys, m - 1);
        lemma_coefficient_quotient(xs, j, k);
        let top = nprod(xs, j, k, 0);
        let inv = gf_inv(nprod(xs, j, k, xs[j]));
        lemma_mul_associates(ys[j], inv, top);
        lemma_mul_commutes(inv, top);
        assert(coefficients(xs)[j] == coefficient(xs, j, k));
    }
}

/// Interpolation at zero gives the value at zero of any polynomial that has no more
/// coefficients than there are points, from its values at distinct points.
pub proof fn lemma_interpolation(p: Seq<u8>, xs: Seq<u8>, ys: Seq<u8>)
    requires
        p.len() == xs.len(),
        ys.len() == xs.len(),
        distinct(xs),
        forall|j: int| 0 <= j < xs.len() ==> #[trigger] ys[j] == eval(p, xs[j]),
    ensures
        interpolate(xs, ys) == eval(p, 0),
{
    let k = xs.len() as int;
    let through = interp(xs, ys, k);
    let diff = padd(through, p);
    lemma_eval_interp(xs, ys, k, 0);
    assert forall|i: int| 0 <= i < xs.len() implies eval(diff, #[trigger] xs[i]) == 0 by {
        lemma_eval_interp(xs, ys, k, xs[i]);
        lemma_eval_padd(through, p, xs[i]);
        lemma_isum_at_point(xs, ys, k, i);
        lemma_add(ys[i], ys[i], 0);
    }
    lemma_roots(diff, xs, 0);
    lemma_eval_padd(through, p, 0);
    lemma_add(eval(through, 0), eval(p, 0), 0);
    lemma_isum_at_zero(xs, ys, k);
}

/// A secret word comes back from the words of any quorum of its shares: where the shares hold
/// the values of a polynomial with as many coefficients as the quorum counts, at distinct
/// points, interpolation at zero gives the constant term of the polynomial, which is the
/// secret word.
pub proof fn lemma_round_trip(p: Seq<u8>, xs: Seq<u8>)
    requires
        p.len() == xs.len(),
        xs.len() >= 1,
        distinct(xs),
    ensures
        interpolate(xs, share_values(p, xs)) == p[0],
{
    lemma_interpolation(p, xs, share_values(p, xs));
    lemma_mul_zero(eval(p.drop_first(), 0));
    lemma_add(p[0], 0, 0);
}

/// The order of the shares does not matter: two arrangements of the same points with the same
/// values give the same word.
pub proof fn lemma_order_independent(xs: Seq<u8>, ys: Seq<u8>, xs2: Seq<u8>, ys2: Seq<u8>)
    requires
        ys.len() == xs.len(),
        xs2.len() == xs.len(),
        ys2.len() == xs.len(),
        distinct(xs),
        distinct(xs2),
        forall|i: int| 0 <= i < xs.len() ==> #[trigger] holds_point(xs2, ys2, xs[i], ys[i]),
    ensures
        interpolate(xs, ys) == interpolate(xs2, ys2),
{
    let k = xs.len() as int;
    let first = interp(xs, ys, k);
    let second = interp(xs2, ys2, k);
    let diff = padd(first, second);
    lemma_eval_interp(xs, ys, k, 0);
    lemma_eval_interp(xs2, ys2, k, 0);
    assert forall|i: int| 0 <= i < xs.len() implies eval(diff, #[trigger] xs[i]) == 0 by {
        assert(holds_point(xs2, ys2, xs[i], ys[i]));
        let j = choose|j: int| 0 <= j < xs2.len() && #[trigger] xs2[j] == xs[i] && ys2[j] == ys[i];
        lemma_eval_interp(xs, ys, k, xs[i]);
        lemma_eval_interp(xs2, ys2, k, xs[i]);
        lemma_eval_padd(first, second, xs[i]);
        lemma_isum_at_point(xs, ys, k, i);
        lemma_isum_at_point(xs2, ys2, k, j);
        lemma_add(ys[i], ys[i], 0);
    }
    lemma_roots(diff, xs, 0);
    lemma_eval_padd(first, second, 0);
    lemma_add(eval(first, 0), eval(second, 0), 0);
    lemma_isum_at_zero(xs, ys, k);
    lemma_isum_at_zero(xs2, ys2, k);
}

} // verus!
