//! The radix-2 transform as polynomial evaluation. With a root of unity of
//! order `2^k`, `fft_spec` evaluates the polynomial with coefficients `a` at
//! every power of that root; from this follow the laws that `ifft_spec`
//! undoes `fft_spec`, and that the inverse transform of an entrywise
//! product of transforms is the product polynomial.
use crate::fft::{
    bit_reverse, bit_reversed, butterfly, fft_spec, ifft_spec, padded, pointwise_mul, squared,
    stages, vals,
};
use crate::field::{add_mod, inv_mod, modulus, mul_mod, pow_mod, sub_mod, Fr};
use vstd::arithmetic::div_mod::{
    lemma_add_mod_noop, lemma_mod_bound, lemma_mod_multiples_vanish, lemma_mod_twice,
    lemma_mul_mod_noop_left, lemma_mul_mod_noop_right, lemma_sub_mod_noop,
};
use vstd::arithmetic::power::{lemma_pow_adds, lemma_pow_mod_noop, lemma_pow_multiplies, pow};
use vstd::arithmetic::power2::pow2;
use vstd::prelude::*;

verus! {

/// `c[0] + c[1]·x + ... + c[n-1]·x^(n-1)` in the field.
pub open spec fn poly_eval(c: Seq<int>, x: int, n: nat) -> int
    decreases n,
{
    if n == 0 {
        0
    } else {
        add_mod(poly_eval(c, x, (n - 1) as nat), mul_mod(c[n - 1], pow_mod(x, (n - 1) as nat)))
    }
}

/// The polynomial with coefficients `a` evaluated at `w^i` for every index `i`.
pub open spec fn dft(a: Seq<int>, w: int) -> Seq<int> {
    Seq::new(a.len(), |i: int| poly_eval(a, pow_mod(w, i as nat), a.len()))
}

/// The same sum over the integers.
spec fn psum(c: Seq<int>, x: int, n: nat) -> int
    decreases n,
{
    if n == 0 {
        0
    } else {
        psum(c, x, (n - 1) as nat) + c[n - 1] * pow(x, (n - 1) as nat)
    }
}

spec fn evens(c: Seq<int>, m: nat) -> Seq<int> {
    Seq::new(m, |u: int| c[2 * u])
}

spec fn odds(c: Seq<int>, m: nat) -> Seq<int> {
    Seq::new(m, |u: int| c[2 * u + 1])
}

proof fn lemma_pow_mod_is_pow(x: int, e: nat)
    ensures
        pow_mod(x, e) == pow(x, e) % (modulus() as int),
    decreases e,
{
    let p = modulus() as int;
    reveal(pow);
    if e == 0 {
        vstd::arithmetic::div_mod::lemma_small_mod(1, p as nat);
    } else {
        lemma_pow_mod_is_pow(x, (e - 1) as nat);
        lemma_mul_mod_noop_left(pow(x, (e - 1) as nat), x, p);
        assert(pow(x, e) == x * pow(x, (e - 1) as nat));
        assert(pow(x, (e - 1) as nat) * x == x * pow(x, (e - 1) as nat)) by (nonlinear_arith);
    }
}

proof fn lemma_poly_eval_is_psum(c: Seq<int>, x: int, n: nat)
    ensures
        poly_eval(c, x, n) == psum(c, x, n) % (modulus() as int),
    decreases n,
{
    let p = modulus() as int;
    if n > 0 {
        let e = (n - 1) as nat;
        lemma_poly_eval_is_psum(c, x, e);
        lemma_pow_mod_is_pow(x, e);
        lemma_mul_mod_noop_right(c[n - 1], pow(x, e), p);
        lemma_add_mod_noop(psum(c, x, e), c[n - 1] * pow(x, e), p);
        lemma_mod_twice(c[n - 1] * pow(x, e), p);
    } else {
        assert(0int % p == 0);
    }
}

proof fn lemma_psum_point_mod(c: Seq<int>, x: int, n: nat)
    ensures
        psum(c, x % (modulus() as int), n) % (modulus() as int) == psum(c, x, n) % (
        modulus() as int),
    decreases n,
{
    let p = modulus() as int;
    if n > 0 {
        let e = (n - 1) as nat;
        let y = x % p;
        lemma_psum_point_mod(c, x, e);
        lemma_pow_mod_noop(x, e, p);
        lemma_mul_mod_noop_right(c[n - 1], pow(y, e), p);
        lemma_mul_mod_noop_right(c[n - 1], pow(x, e), p);
        lemma_add_mod_noop(psum(c, y, e), c[n - 1] * pow(y, e), p);
        lemma_add_mod_noop(psum(c, x, e), c[n - 1] * pow(x, e), p);
    }
}

/// Splitting a sum of `2m` terms into its even and odd terms.
proof fn lemma_psum_split(c: Seq<int>, x: int, m: nat)
    requires
        c.len() >= 2 * m,
    ensures
        psum(c, x, 2 * m) == psum(evens(c, m), x * x, m) + x * psum(odds(c, m), x * x, m),
    decreases m,
{
    if m > 0 {
        let m1 = (m - 1) as nat;
        lemma_psum_split(c, x, m1);
        reveal(pow);
        let e = 2 * m1;
        let c0 = c[e as int];
        let c1 = c[e as int + 1];
        assert(psum(c, x, 2 * m) == psum(c, x, e) + c0 * pow(x, e) + c1 * pow(x, (e + 1) as nat))
            by {
            assert(psum(c, x, 2 * m) == psum(c, x, (e + 1) as nat) + c1 * pow(x, (e + 1) as nat));
            assert(psum(c, x, (e + 1) as nat) == psum(c, x, e) + c0 * pow(x, e));
        }
        lemma_pow_multiplies(x, 2, m1);
        assert(pow(x, 2) == x * x) by {
            assert(pow(x, 1) == x * pow(x, 0));
        }
        lemma_pow_adds(x, e, 1);
        assert(pow(x, 1) == x);
        let a = psum(evens(c, m1), x * x, m1);
        let b = psum(odds(c, m1), x * x, m1);
        assert(psum(evens(c, m), x * x, m1) == a) by {
            lemma_psum_prefix(evens(c, m), evens(c, m1), x * x, m1);
        }
        assert(psum(odds(c, m), x * x, m1) == b) by {
            lemma_psum_prefix(odds(c, m), odds(c, m1), x * x, m1);
        }
        let q = pow(x * x, m1);
        assert(pow(x, e) == q);
        assert(pow(x, (e + 1) as nat) == q * x);
        assert(psum(c, x, 2 * m) == a + x * b + c0 * q + c1 * (q * x));
        assert(psum(evens(c, m), x * x, m) == a + c0 * q);
        assert(psum(odds(c, m), x * x, m) == b + c1 * q);
        assert(a + x * b + c0 * q + c1 * (q * x) == (a + c0 * q) + x * (b + c1 * q))
            by (nonlinear_arith);
    }
}

/// Sums of `n` terms only read the first `n` coefficients.
proof fn lemma_psum_prefix(c: Seq<int>, d: Seq<int>, x: int, n: nat)
    requires
        c.len() >= n,
        d.len() >= n,
        forall|i: int| 0 <= i < n ==> c[i] == d[i],
    ensures
        psum(c, x, n) == psum(d, x, n),
    decreases n,
{
    if n > 0 {
        lemma_psum_prefix(c, d, x, (n - 1) as nat);
    }
}

proof fn lemma_eval_split(c: Seq<int>, x: int, m: nat)
    requires
        c.len() >= 2 * m,
    ensures
        poly_eval(c, x, 2 * m) == add_mod(
            poly_eval(evens(c, m), mul_mod(x, x), m),
            mul_mod(x, poly_eval(odds(c, m), mul_mod(x, x), m)),
        ),
{
    let p = modulus() as int;
    let ev = psum(evens(c, m), x * x, m);
    let od = psum(odds(c, m), x * x, m);
    lemma_psum_split(c, x, m);
    lemma_poly_eval_is_psum(c, x, 2 * m);
    lemma_poly_eval_is_psum(evens(c, m), mul_mod(x, x), m);
    lemma_poly_eval_is_psum(odds(c, m), mul_mod(x, x), m);
    lemma_psum_point_mod(evens(c, m), x * x, m);
    lemma_psum_point_mod(odds(c, m), x * x, m);
    lemma_mul_mod_noop_right(x, od, p);
    lemma_add_mod_noop(ev, x * od, p);
    lemma_mod_twice(x * od, p);
}

pub(crate) proof fn lemma_pow_mod_mul(w: int, a: nat, b: nat)
    ensures
        pow_mod(pow_mod(w, a), b) == pow_mod(w, a * b),
{
    let p = modulus() as int;
    lemma_pow_mod_is_pow(w, a);
    lemma_pow_mod_is_pow(pow_mod(w, a), b);
    lemma_pow_mod_is_pow(w, a * b);
    lemma_pow_mod_noop(pow(w, a), b, p);
    lemma_pow_multiplies(w, a, b);
}

pub(crate) proof fn lemma_pow_mod_add(w: int, a: nat, b: nat)
    ensures
        pow_mod(w, a + b) == mul_mod(pow_mod(w, a), pow_mod(w, b)),
{
    let p = modulus() as int;
    lemma_pow_mod_is_pow(w, a);
    lemma_pow_mod_is_pow(w, b);
    lemma_pow_mod_is_pow(w, a + b);
    lemma_pow_adds(w, a, b);
    lemma_mul_mod_noop_left(pow(w, a), pow(w, b) % p, p);
    lemma_mul_mod_noop_right(pow(w, a), pow(w, b), p);
}

proof fn lemma_bit_reverse_even(q: nat, j: nat)
    ensures
        bit_reverse(2 * q, j + 1) == bit_reverse(q, j),
        bit_reverse(2 * q + 1, j + 1) == pow2(j) + bit_reverse(q, j),
{
    assert((2 * q) % 2 == 0 && (2 * q) / 2 == q) by (nonlinear_arith);
    assert((2 * q + 1) % 2 == 1 && (2 * q + 1) / 2 == q) by (nonlinear_arith);
    assert(bit_reverse(2 * q, j + 1) == ((2 * q) % 2) * pow2(j) + bit_reverse((2 * q) / 2, j));
    assert(bit_reverse(2 * q + 1, j + 1) == ((2 * q + 1) % 2) * pow2(j) + bit_reverse(
        (2 * q + 1) / 2,
        j,
    ));
}

/// `(e + z % p) % p == (e + z) % p`, and likewise for subtraction.
proof fn lemma_mod_inner(e: int, z: int)
    ensures
        (e + z % (modulus() as int)) % (modulus() as int) == (e + z) % (modulus() as int),
        (e - z % (modulus() as int)) % (modulus() as int) == (e - z) % (modulus() as int),
{
    let p = modulus() as int;
    lemma_add_mod_noop(e, z % p, p);
    lemma_add_mod_noop(e, z, p);
    lemma_sub_mod_noop(e, z % p, p);
    lemma_sub_mod_noop(e, z, p);
    lemma_mod_twice(z, p);
}

/// With `y = -x`: `y·y == x·x` and `e + y·o == e - o·x`.
proof fn lemma_negated(e: int, x: int, o: int)
    ensures
        ({
            let y = mul_mod(x, modulus() - 1);
            &&& mul_mod(y, y) == mul_mod(x, x)
            &&& add_mod(e, mul_mod(y, o)) == sub_mod(e, mul_mod(o, x))
        }),
{
    let p = modulus() as int;
    let z = x * (p - 1);
    let y = z % p;
    // y·y
    lemma_mul_mod_noop_left(z, y, p);
    lemma_mul_mod_noop_right(z, z, p);
    assert(z * z == p * (x * x * (p - 2)) + x * x) by (nonlinear_arith)
        requires
            z == x * (p - 1),
    ;
    lemma_mod_multiples_vanish(x * x * (p - 2), x * x, p);
    // e + y·o
    lemma_mul_mod_noop_left(z, o, p);
    lemma_mod_inner(e, y * o);
    lemma_mod_inner(e, z * o);
    lemma_mod_inner(e, o * x);
    assert(e + z * o == p * (x * o) + (e - o * x)) by (nonlinear_arith)
        requires
            z == x * (p - 1),
    ;
    lemma_mod_multiples_vanish(x * o, e - o * x, p);
}

/// Block `q` of the bit-reversed input after `s` stages holds the values at
/// indices `bit_reverse(q, k - s) + u·2^(k-s)`, `u < 2^s`.
spec fn block(a: Seq<int>, k: nat, s: nat, q: nat) -> Seq<int> {
    Seq::new(
        pow2(s),
        |u: int| a[bit_reverse(q, (k - s) as nat) + u * pow2((k - s) as nat)],
    )
}

proof fn lemma_block_halves(a: Seq<int>, k: nat, s: nat, q: nat)
    requires
        s < k,
    ensures
        evens(block(a, k, s + 1, q), pow2(s)) == block(a, k, s, 2 * q),
        odds(block(a, k, s + 1, q), pow2(s)) == block(a, k, s, 2 * q + 1),
{
    let j = (k - s - 1) as nat;
    let d1 = pow2(j);
    let c = block(a, k, s + 1, q);
    let m = pow2(s);
    vstd::arithmetic::power2::lemma_pow2_unfold(s + 1);
    vstd::arithmetic::power2::lemma_pow2_unfold(j + 1);
    assert((k - s) as nat == j + 1);
    assert((k - (s + 1)) as nat == j);
    lemma_bit_reverse_even(q, j);
    let r = bit_reverse(q, j);
    assert forall|u: int| 0 <= u < m implies #[trigger] evens(c, m)[u] == block(a, k, s, 2 * q)[u] by {
        assert(r + (2 * u) * d1 == r + u * (2 * d1)) by (nonlinear_arith);
    }
    assert forall|u: int| 0 <= u < m implies #[trigger] odds(c, m)[u] == block(a, k, s, 2 * q + 1)[u] by {
        assert(r + (2 * u + 1) * d1 == d1 + r + u * (2 * d1)) by (nonlinear_arith);
    }
    assert(evens(c, m) =~= block(a, k, s, 2 * q));
    assert(odds(c, m) =~= block(a, k, s, 2 * q + 1));
}

proof fn lemma_stages_len(b: Seq<int>, w: int, s: nat)
    ensures
        stages(b, w, s).len() == b.len(),
    decreases s,
{
    if s > 0 {
        lemma_stages_len(b, w, (s - 1) as nat);
    }
}

/// What `s` stages on the bit-reversed input hold: at index `i`, block
/// `i / 2^s` evaluated at `w^(2^(k-s) · (i % 2^s))`.
spec fn blocks_hold(a: Seq<int>, w: int, k: nat, s: nat) -> bool {
    forall|i: int|
        0 <= i < pow2(k) ==> #[trigger] stages(bit_reversed(a, k), w, s)[i] == poly_eval(
            block(a, k, s, (i / pow2(s) as int) as nat),
            pow_mod(w, (pow2((k - s) as nat) * (i % pow2(s) as int)) as nat),
            pow2(s),
        )
}

/// `i == q·d + r` with `0 <= r < d` fixes `i / d` and `i % d`.
proof fn lemma_div_mod_of(i: int, d: int, q: int, r: int)
    requires
        d > 0,
        0 <= r < d,
        i == q * d + r,
    ensures
        i / d == q,
        i % d == r,
{
    vstd::arithmetic::div_mod::lemma_fundamental_div_mod_converse(i, d, q, r);
}

proof fn lemma_stage_step_at(a: Seq<int>, w: int, k: nat, s: nat, i: int)
    requires
        a.len() == pow2(k),
        s < k,
        pow_mod(w, pow2((k - 1) as nat)) == modulus() - 1,
        blocks_hold(a, w, k, s),
        0 <= i < pow2(k),
    ensures
        stages(bit_reversed(a, k), w, s + 1)[i] == poly_eval(
            block(a, k, s + 1, (i / pow2(s + 1) as int) as nat),
            pow_mod(w, (pow2((k - (s + 1)) as nat) * (i % pow2(s + 1) as int)) as nat),
            pow2(s + 1),
        ),
{
    let b = bit_reversed(a, k);
    let n = pow2(k) as int;
    let m = pow2(s) as int;
    let j1 = (k - s - 1) as nat;
    let d1 = pow2(j1) as int;
    let d = pow2((k - s) as nat) as int;
    vstd::arithmetic::power2::lemma_pow2_unfold(s + 1);
    vstd::arithmetic::power2::lemma_pow2_unfold((k - s) as nat);
    vstd::arithmetic::power2::lemma_pow2_pos(s);
    vstd::arithmetic::power2::lemma_pow2_pos(j1);
    vstd::arithmetic::power2::lemma_pow2_adds(j1, s + 1);
    vstd::arithmetic::power2::lemma_pow2_adds(j1, s);
    assert(j1 + (s + 1) == k);
    assert((k - (s + 1)) as nat == j1);
    assert(d == 2 * d1);
    assert(n == d1 * (2 * m));
    assert(d1 * m == pow2((k - 1) as nat)) by {
        assert(j1 + s == (k - 1) as nat);
    }
    let sv = stages(b, w, s);
    lemma_stages_len(b, w, s);
    let wm = pow_mod(w, (n / (2 * m)) as nat);
    lemma_div_mod_of(n, 2 * m, d1, 0);
    assert(stages(b, w, s + 1) == butterfly(sv, wm, m as nat));
    let q = i / (2 * m);
    let j = i % (2 * m);
    vstd::arithmetic::div_mod::lemma_fundamental_div_mod(i, 2 * m);
    assert(i == q * (2 * m) + j) by (nonlinear_arith)
        requires
            i == (2 * m) * (i / (2 * m)) + i % (2 * m),
            q == i / (2 * m),
            j == i % (2 * m),
    ;
    assert(0 <= q < d1) by (nonlinear_arith)
        requires
            i == q * (2 * m) + j,
            0 <= j < 2 * m,
            0 <= i < d1 * (2 * m),
            m > 0,
    ;
    let c = block(a, k, s + 1, q as nat);
    lemma_block_halves(a, k, s, q as nat);
    let ev = block(a, k, s, 2 * q as nat);
    let od = block(a, k, s, (2 * q + 1) as nat);
    if j < m {
        let x = pow_mod(w, (d1 * j) as nat);
        assert(i == (2 * q) * m + j && i + m == (2 * q + 1) * m + j) by (nonlinear_arith)
            requires
                i == q * (2 * m) + j,
        ;
        lemma_div_mod_of(i, m, 2 * q, j);
        lemma_div_mod_of(i + m, m, 2 * q + 1, j);
        assert((q + 1) * (2 * m) <= d1 * (2 * m)) by (nonlinear_arith)
            requires
                q + 1 <= d1,
                m > 0,
        ;
        assert(i + m < n) by (nonlinear_arith)
            requires
                i == q * (2 * m) + j,
                j < m,
                (q + 1) * (2 * m) <= d1 * (2 * m),
                n == d1 * (2 * m),
        ;
        assert(sv[i] == poly_eval(ev, pow_mod(w, (d * j) as nat), m as nat));
        assert(sv[i + m] == poly_eval(od, pow_mod(w, (d * j) as nat), m as nat));
        lemma_pow_mod_mul(w, d1 as nat, j as nat);
        lemma_pow_mod_add(w, (d1 * j) as nat, (d1 * j) as nat);
        assert((d1 * j) as nat + (d1 * j) as nat == (d * j) as nat) by (nonlinear_arith)
            requires
                d == 2 * d1,
                j >= 0,
                d1 > 0,
        ;
        lemma_eval_split(c, x, m as nat);
        let pe = poly_eval(ev, mul_mod(x, x), m as nat);
        let po = poly_eval(od, mul_mod(x, x), m as nat);
        assert(po * x == x * po) by (nonlinear_arith);
        assert(stages(b, w, s + 1)[i] == add_mod(sv[i], mul_mod(sv[i + m], pow_mod(wm, j as nat))));
        assert(stages(b, w, s + 1)[i] == add_mod(pe, mul_mod(x, po)));
        assert(i / pow2(s + 1) as int == q && i % pow2(s + 1) as int == j);
    } else {
        let j2 = j - m;
        let x = pow_mod(w, (d1 * j2) as nat);
        assert(i - m == (2 * q) * m + j2 && i == (2 * q + 1) * m + j2) by (nonlinear_arith)
            requires
                i == q * (2 * m) + j,
                j2 == j - m,
        ;
        lemma_div_mod_of(i - m, m, 2 * q, j2);
        lemma_div_mod_of(i, m, 2 * q + 1, j2);
        assert(sv[i - m] == poly_eval(ev, pow_mod(w, (d * j2) as nat), m as nat));
        assert(sv[i] == poly_eval(od, pow_mod(w, (d * j2) as nat), m as nat));
        lemma_pow_mod_mul(w, d1 as nat, j2 as nat);
        lemma_pow_mod_add(w, (d1 * j2) as nat, (d1 * j2) as nat);
        assert((d1 * j2) as nat + (d1 * j2) as nat == (d * j2) as nat) by (nonlinear_arith)
            requires
                d == 2 * d1,
                j2 >= 0,
                d1 > 0,
        ;
        lemma_pow_mod_add(w, (d1 * j2) as nat, (d1 * m) as nat);
        assert((d1 * j2) as nat + (d1 * m) as nat == (d1 * j) as nat) by (nonlinear_arith)
            requires
                j2 == j - m,
                j2 >= 0,
                d1 > 0,
                m > 0,
        ;
        let y = pow_mod(w, (d1 * j) as nat);
        assert(y == mul_mod(x, modulus() - 1));
        lemma_negated(
            poly_eval(ev, mul_mod(x, x), m as nat),
            x,
            poly_eval(od, mul_mod(x, x), m as nat),
        );
        lemma_eval_split(c, y, m as nat);
        let pe = poly_eval(ev, mul_mod(x, x), m as nat);
        let po = poly_eval(od, mul_mod(x, x), m as nat);
        assert(stages(b, w, s + 1)[i] == sub_mod(sv[i - m], mul_mod(sv[i], pow_mod(wm, j2 as nat))));
        assert(stages(b, w, s + 1)[i] == sub_mod(pe, mul_mod(po, x)));
        assert(i / pow2(s + 1) as int == q && i % pow2(s + 1) as int == j);
    }
}

proof fn lemma_blocks_base(a: Seq<int>, w: int, k: nat)
    requires
        a.len() == pow2(k),
        forall|j: int| 0 <= j < a.len() ==> 0 <= #[trigger] a[j] < modulus(),
    ensures
        blocks_hold(a, w, k, 0),
{
    let p = modulus() as int;
    vstd::arithmetic::power2::lemma2_to64();
    assert forall|i: int| 0 <= i < pow2(k) implies #[trigger] stages(bit_reversed(a, k), w, 0)[i]
        == poly_eval(
        block(a, k, 0, (i / pow2(0) as int) as nat),
        pow_mod(w, (pow2((k - 0) as nat) * (i % pow2(0) as int)) as nat),
        pow2(0),
    ) by {
        crate::fft::lemma_bit_reverse_bound(i as nat, k);
        let v = a[bit_reverse(i as nat, k) as int];
        let c = block(a, k, 0, (i / pow2(0) as int) as nat);
        assert(i / 1 == i);
        assert(c[0] == v);
        let pt = pow_mod(w, (pow2((k - 0) as nat) * (i % pow2(0) as int)) as nat);
        assert(pow_mod(pt, 0) == 1);
        vstd::arithmetic::div_mod::lemma_small_mod(v as nat, p as nat);
        vstd::arithmetic::div_mod::lemma_small_mod(0, p as nat);
        assert(poly_eval(c, pt, 0) == 0);
        assert(poly_eval(c, pt, 1) == add_mod(0, mul_mod(v, 1)));
    }
}

proof fn lemma_blocks_all(a: Seq<int>, w: int, k: nat, s: nat)
    requires
        a.len() == pow2(k),
        forall|j: int| 0 <= j < a.len() ==> 0 <= #[trigger] a[j] < modulus(),
        k > 0 ==> pow_mod(w, pow2((k - 1) as nat)) == modulus() - 1,
        s <= k,
    ensures
        blocks_hold(a, w, k, s),
    decreases s,
{
    if s == 0 {
        lemma_blocks_base(a, w, k);
    } else {
        let s1 = (s - 1) as nat;
        lemma_blocks_all(a, w, k, s1);
        assert forall|i: int| 0 <= i < pow2(k) implies #[trigger] stages(bit_reversed(a, k), w, s)[i]
            == poly_eval(
            block(a, k, s, (i / pow2(s) as int) as nat),
            pow_mod(w, (pow2((k - s) as nat) * (i % pow2(s) as int)) as nat),
            pow2(s),
        ) by {
            lemma_stage_step_at(a, w, k, s1, i);
        }
    }
}

/// The transform evaluates: when `w^(2^(k-1)) == -1` (so `w` has order
/// `2^k`), `fft` of coefficients `a` (field values, `2^k` of them) is the
/// polynomial they define evaluated at `w^0, w^1, ..., w^(2^k - 1)`.
pub proof fn lemma_fft_evaluates(a: Seq<int>, w: int, k: nat)
    requires
        a.len() == pow2(k),
        forall|j: int| 0 <= j < a.len() ==> 0 <= #[trigger] a[j] < modulus(),
        k > 0 ==> pow_mod(w, pow2((k - 1) as nat)) == modulus() - 1,
    ensures
        fft_spec(a, w, k) == dft(a, w),
{
    lemma_blocks_all(a, w, k, k);
    let n = pow2(k) as int;
    vstd::arithmetic::power2::lemma2_to64();
    vstd::arithmetic::power2::lemma_pow2_pos(k);
    lemma_stages_len(bit_reversed(a, k), w, k);
    assert(block(a, k, k, 0) =~= a) by {
        assert((k - k) as nat == 0);
        assert(bit_reverse(0, 0) == 0);
        assert forall|u: int| 0 <= u < n implies #[trigger] block(a, k, k, 0)[u] == a[u] by {
            assert(u * 1 == u);
        }
    }
    assert forall|i: int| 0 <= i < n implies #[trigger] fft_spec(a, w, k)[i] == dft(a, w)[i] by {
        lemma_div_mod_of(i, n, 0, i);
        assert(pow2((k - k) as nat) * (i % n) == i);
    }
    assert(fft_spec(a, w, k) =~= dft(a, w));
}

/// The values of field elements lie in `0..modulus()`.
pub proof fn lemma_vals_in_field(a: Seq<Fr>)
    ensures
        forall|j: int| 0 <= j < a.len() ==> 0 <= #[trigger] vals(a)[j] < modulus(),
{
    assert forall|j: int| 0 <= j < a.len() implies 0 <= #[trigger] vals(a)[j] < modulus() by {
        a[j].lemma_val_range();
    }
}

/// `f(0) + ... + f(n-1)` over the integers.
pub open spec fn sum(f: spec_fn(int) -> int, n: nat) -> int
    decreases n,
{
    if n == 0 {
        0
    } else {
        sum(f, (n - 1) as nat) + f(n - 1)
    }
}

proof fn lemma_sum_congruent(f: spec_fn(int) -> int, g: spec_fn(int) -> int, n: nat)
    requires
        forall|i: int| 0 <= i < n ==> #[trigger] f(i) % (modulus() as int) == g(i) % (
        modulus() as int),
    ensures
        sum(f, n) % (modulus() as int) == sum(g, n) % (modulus() as int),
    decreases n,
{
    let p = modulus() as int;
    if n > 0 {
        let n1 = (n - 1) as nat;
        lemma_sum_congruent(f, g, n1);
        lemma_add_mod_noop(sum(f, n1), f(n1 as int), p);
        lemma_add_mod_noop(sum(g, n1), g(n1 as int), p);
    }
}

proof fn lemma_sum_equal(f: spec_fn(int) -> int, g: spec_fn(int) -> int, n: nat)
    requires
        forall|i: int| 0 <= i < n ==> #[trigger] f(i) == g(i),
    ensures
        sum(f, n) == sum(g, n),
    decreases n,
{
    if n > 0 {
        lemma_sum_equal(f, g, (n - 1) as nat);
    }
}

proof fn lemma_sum_scale(f: spec_fn(int) -> int, c: int, n: nat)
    ensures
        sum(|i: int| c * f(i), n) == c * sum(f, n),
    decreases n,
{
    if n > 0 {
        let n1 = (n - 1) as nat;
        lemma_sum_scale(f, c, n1);
        assert(c * sum(f, n1) + c * f(n1 as int) == c * (sum(f, n1) + f(n1 as int)))
            by (nonlinear_arith);
    }
}

proof fn lemma_sum_swap(f: spec_fn(int, int) -> int, n1: nat, n2: nat)
    ensures
        sum(|i: int| sum(|j: int| f(i, j), n2), n1) == sum(|j: int| sum(|i: int| f(i, j), n1), n2),
    decreases n1,
{
    if n1 > 0 {
        let m = (n1 - 1) as nat;
        lemma_sum_swap(f, m, n2);
        let cols = |j: int| sum(|i: int| f(i, j), m);
        let last = |j: int| f(m as int, j);
        lemma_sum_add(cols, last, n2);
        lemma_sum_equal(|j: int| sum(|i: int| f(i, j), n1), |j: int| cols(j) + last(j), n2);
        lemma_sum_equal(|j: int| f(m as int, j), last, n2);
    } else {
        lemma_sum_zero(|j: int| sum(|i: int| f(i, j), n1), n2);
    }
}

proof fn lemma_sum_add(f: spec_fn(int) -> int, g: spec_fn(int) -> int, n: nat)
    ensures
        sum(|i: int| f(i) + g(i), n) == sum(f, n) + sum(g, n),
    decreases n,
{
    if n > 0 {
        lemma_sum_add(f, g, (n - 1) as nat);
    }
}

proof fn lemma_sum_single(f: spec_fn(int) -> int, n: nat, l: int)
    requires
        0 <= l < n,
        forall|i: int| 0 <= i < n && i != l ==> #[trigger] f(i) == 0,
    ensures
        sum(f, n) == f(l),
    decreases n,
{
    if n > 0 {
        let n1 = (n - 1) as nat;
        if l < n1 {
            lemma_sum_single(f, n1, l);
        } else {
            lemma_sum_zero(f, n1);
        }
    }
}

proof fn lemma_sum_zero(f: spec_fn(int) -> int, n: nat)
    requires
        forall|i: int| 0 <= i < n ==> #[trigger] f(i) == 0,
    ensures
        sum(f, n) == 0,
    decreases n,
{
    if n > 0 {
        lemma_sum_zero(f, (n - 1) as nat);
    }
}

proof fn lemma_sum_shift(f: spec_fn(int) -> int, h: nat, h2: nat)
    ensures
        sum(f, h + h2) == sum(f, h) + sum(|i: int| f(h + i), h2),
    decreases h2,
{
    if h2 > 0 {
        lemma_sum_shift(f, h, (h2 - 1) as nat);
        assert((h + h2 - 1) as nat == h + (h2 - 1) as nat);
    }
}

proof fn lemma_psum_is_sum(c: Seq<int>, x: int, n: nat)
    ensures
        psum(c, x, n) == sum(|j: int| c[j] * pow(x, j as nat), n),
    decreases n,
{
    if n > 0 {
        lemma_psum_is_sum(c, x, (n - 1) as nat);
    }
}

pub(crate) proof fn lemma_pow_mod_range(x: int, e: nat)
    ensures
        0 <= pow_mod(x, e) < modulus(),
{
    if e > 0 {
        lemma_mod_bound(pow_mod(x, (e - 1) as nat) * x, modulus() as int);
    }
}

pub(crate) proof fn lemma_pow_mod_of_one(c: nat)
    ensures
        pow_mod(1, c) == 1,
    decreases c,
{
    if c > 0 {
        lemma_pow_mod_of_one((c - 1) as nat);
        vstd::arithmetic::div_mod::lemma_small_mod(1, modulus());
    }
}

proof fn lemma_pow_minus_one(e: nat)
    ensures
        pow_mod(modulus() - 1, e) == if e % 2 == 1 {
            modulus() - 1
        } else {
            1
        },
    decreases e,
{
    let p = modulus() as int;
    if e > 0 {
        lemma_pow_minus_one((e - 1) as nat);
        if (e - 1) % 2 == 1 {
            assert((p - 1) * (p - 1) == p * (p - 2) + 1) by (nonlinear_arith);
            lemma_mod_multiples_vanish(p - 2, 1, p);
            vstd::arithmetic::div_mod::lemma_small_mod(1, p as nat);
        } else {
            vstd::arithmetic::div_mod::lemma_small_mod((p - 1) as nat, p as nat);
        }
    } else {
        vstd::arithmetic::div_mod::lemma_small_mod(1, p as nat);
    }
}

/// With `w^n == 1`, powers of `w` only depend on the exponent modulo `n`.
proof fn lemma_pow_periodic(w: int, n: nat, a: nat, b: nat)
    requires
        n > 0,
        pow_mod(w, n) == 1,
        a % n == b % n,
    ensures
        pow_mod(w, a) == pow_mod(w, b),
{
    let r = a % n;
    lemma_pow_reduce(w, n, a);
    lemma_pow_reduce(w, n, b);
}

proof fn lemma_pow_reduce(w: int, n: nat, a: nat)
    requires
        n > 0,
        pow_mod(w, n) == 1,
    ensures
        pow_mod(w, a) == pow_mod(w, a % n),
{
    let q = a / n;
    let r = a % n;
    vstd::arithmetic::div_mod::lemma_fundamental_div_mod(a as int, n as int);
    assert(a == n * q + r);
    lemma_pow_mod_add(w, n * q, r);
    lemma_pow_mod_mul(w, n, q);
    lemma_pow_mod_of_one(q);
    lemma_pow_mod_range(w, r);
    vstd::arithmetic::div_mod::lemma_small_mod(pow_mod(w, r) as nat, modulus());
}

/// Powers of a root of unity of order `2^k` sum to zero unless the
/// exponent is a multiple of `2^k`.
proof fn lemma_geometric(w: int, k: nat, e: nat)
    requires
        k >= 1,
        pow_mod(w, pow2((k - 1) as nat)) == modulus() - 1,
        e % pow2(k) != 0,
    ensures
        sum(|i: int| pow_mod(w, (e * i) as nat), pow2(k)) % (modulus() as int) == 0,
    decreases k,
{
    let p = modulus() as int;
    let h = pow2((k - 1) as nat);
    let n = pow2(k);
    vstd::arithmetic::power2::lemma_pow2_unfold(k);
    vstd::arithmetic::power2::lemma_pow2_pos((k - 1) as nat);
    let t = |i: int| pow_mod(w, (e * i) as nat);
    lemma_sum_shift(t, h, h);
    assert(h + h == n);
    let z = pow_mod(w, e * h);
    lemma_pow_mod_mul(w, h, e);
    assert(h * e == e * h) by (nonlinear_arith);
    lemma_pow_minus_one(e);
    assert forall|i: int| 0 <= i < h implies #[trigger] t(h + i) == mul_mod(z, t(i)) by {
        lemma_pow_mod_add(w, e * h, (e * i) as nat);
        assert(e * (h + i) == e * h + e * i) by (nonlinear_arith);
    }
    if e % 2 == 1 {
        assert(z == p - 1);
        assert forall|i: int| 0 <= i < h implies #[trigger] t(h + i) % p == ((p - 1) * t(i)) % p by {
            lemma_mod_twice((p - 1) * t(i), p);
        }
        lemma_sum_congruent(|i: int| t(h + i), |i: int| (p - 1) * t(i), h);
        lemma_sum_scale(t, p - 1, h);
        lemma_add_mod_noop(sum(t, h), sum(|i: int| t(h + i), h), p);
        lemma_add_mod_noop(sum(t, h), (p - 1) * sum(t, h), p);
        assert(sum(t, h) + (p - 1) * sum(t, h) == p * sum(t, h) + 0) by (nonlinear_arith);
        lemma_mod_multiples_vanish(sum(t, h), 0, p);
    } else {
        assert(z == 1);
        assert(k >= 2) by {
            if k == 1 {
                vstd::arithmetic::power2::lemma2_to64();
            }
        }
        let e2 = e / 2;
        assert(e == 2 * e2);
        assert forall|i: int| 0 <= i < h implies #[trigger] t(h + i) == t(i) by {
            lemma_pow_mod_range(w, (e * i) as nat);
            vstd::arithmetic::div_mod::lemma_small_mod(t(i) as nat, p as nat);
        }
        lemma_sum_equal(|i: int| t(h + i), t, h);
        let w2 = pow_mod(w, 2);
        let h2 = pow2((k - 2) as nat);
        vstd::arithmetic::power2::lemma_pow2_unfold((k - 1) as nat);
        lemma_pow_mod_mul(w, 2, h2);
        assert(h == 2 * h2);
        assert(e2 % h != 0) by {
            if e2 % h == 0 {
                vstd::arithmetic::div_mod::lemma_fundamental_div_mod(e2 as int, h as int);
                let q = e2 / h;
                assert(e == q * n + 0) by (nonlinear_arith)
                    requires
                        e == 2 * e2,
                        e2 == h * q,
                        n == 2 * h,
                ;
                lemma_div_mod_of(e as int, n as int, q as int, 0);
            }
        }
        lemma_geometric(w2, (k - 1) as nat, e2);
        assert forall|i: int| 0 <= i < h implies #[trigger] t(i) == pow_mod(w2, (e2 * i) as nat) by {
            lemma_pow_mod_mul(w, 2, (e2 * i) as nat);
            assert(2 * (e2 * i) == e * i) by (nonlinear_arith)
                requires
                    e == 2 * e2,
            ;
        }
        lemma_sum_equal(t, |i: int| pow_mod(w2, (e2 * i) as nat), h);
        let sh = sum(t, h);
        assert(sum(t, n) == 2 * sh);
        vstd::arithmetic::div_mod::lemma_mul_mod_noop_right(2, sh, p);
        assert(sh % p == 0);
        assert(2 * (sh % p) == 0);
        vstd::arithmetic::div_mod::lemma_small_mod(0, p as nat);
    }
}

/// `(a·b) % p · c ≡ a · (b·c) % p`.
proof fn lemma_mul_mod_assoc(a: int, b: int, c: int)
    ensures
        mul_mod(mul_mod(a, b), c) == mul_mod(a, mul_mod(b, c)),
{
    let p = modulus() as int;
    lemma_mul_mod_noop_left(a * b, c, p);
    lemma_mul_mod_noop_right(a, b * c, p);
    assert((a * b) * c == a * (b * c)) by (nonlinear_arith);
}

/// An inverse of a root of unity of order `n` is its power `n - 1`.
proof fn lemma_inverse_of_root(w: int, n: nat, y: int)
    requires
        n > 0,
        pow_mod(w, n) == 1,
        0 <= y < modulus(),
        mul_mod(w, y) == 1,
    ensures
        y == pow_mod(w, (n - 1) as nat),
{
    let p = modulus() as int;
    let a = pow_mod(w, (n - 1) as nat);
    // y = y·w^n = (y·w^(n-1))·w = w·(y·w^(n-1)) = (w·y)·w^(n-1) = w^(n-1)
    vstd::arithmetic::div_mod::lemma_small_mod(y as nat, p as nat);
    lemma_pow_mod_range(w, (n - 1) as nat);
    vstd::arithmetic::div_mod::lemma_small_mod(a as nat, p as nat);
    assert(y == mul_mod(y, 1));
    assert(pow_mod(w, n) == mul_mod(a, w));
    lemma_mul_mod_assoc(y, a, w);
    let ya = mul_mod(y, a);
    assert(mul_mod(ya, w) == mul_mod(w, ya)) by {
        assert(ya * w == w * ya) by (nonlinear_arith);
    }
    lemma_mul_mod_assoc(w, y, a);
    assert(mul_mod(1, a) == a);
}

/// For a root `w` of order `2^k`, `inv_mod(w)` is `w^(2^k - 1)`.
proof fn lemma_inv_of_root(w: int, k: nat)
    requires
        k >= 1,
        pow_mod(w, pow2((k - 1) as nat)) == modulus() - 1,
    ensures
        pow_mod(w, pow2(k)) == 1,
        inv_mod(w) == pow_mod(w, (pow2(k) - 1) as nat),
{
    let p = modulus() as int;
    let n = pow2(k);
    let h = pow2((k - 1) as nat);
    vstd::arithmetic::power2::lemma_pow2_unfold(k);
    lemma_pow_mod_add(w, h, h);
    assert(mul_mod(p - 1, p - 1) == 1) by {
        assert((p - 1) * (p - 1) == p * (p - 2) + 1) by (nonlinear_arith);
        lemma_mod_multiples_vanish(p - 2, 1, p);
        vstd::arithmetic::div_mod::lemma_small_mod(1, p as nat);
    }
    let y = pow_mod(w, (n - 1) as nat);
    lemma_pow_mod_range(w, (n - 1) as nat);
    assert(mul_mod(w, y) == 1) by {
        assert(pow_mod(w, n) == mul_mod(y, w));
        assert(y * w == w * y) by (nonlinear_arith);
    }
    let z = inv_mod(w);
    assert(0 <= z < modulus() && mul_mod(w, z) == 1);
    lemma_inverse_of_root(w, n, z);
}

/// Every power of two up to `2^two_adicity()` has an inverse.
proof fn lemma_inv_of_pow2(k: nat)
    requires
        k <= 32,
    ensures
        mul_mod(pow2(k) as int, inv_mod(pow2(k) as int)) == 1,
        0 <= inv_mod(pow2(k) as int) < modulus(),
{
    let p = modulus() as int;
    let half = (p + 1) / 2;
    lemma_pow2_times_half(k);
    let y = pow_mod(half, k);
    lemma_pow_mod_range(half, k);
    assert(0 <= y < modulus() && mul_mod(pow2(k) as int, y) == 1);
    let z = inv_mod(pow2(k) as int);
    assert(0 <= z < modulus() && mul_mod(pow2(k) as int, z) == 1);
}

proof fn lemma_pow2_times_half(k: nat)
    ensures
        mul_mod(pow2(k) as int, pow_mod((modulus() as int + 1) / 2, k)) == 1,
    decreases k,
{
    let p = modulus() as int;
    let half = (p + 1) / 2;
    vstd::arithmetic::div_mod::lemma_small_mod(1, p as nat);
    if k == 0 {
        vstd::arithmetic::power2::lemma2_to64();
    } else {
        let k1 = (k - 1) as nat;
        lemma_pow2_times_half(k1);
        vstd::arithmetic::power2::lemma_pow2_unfold(k);
        let a = pow2(k1) as int;
        let b = pow_mod(half, k1);
        // 2a · (b·half % p) ≡ (a·b)·(2·half) ≡ 1·(p+1) ≡ 1
        lemma_mul_mod_noop_right(2 * a, b * half, p);
        assert((2 * a) * (b * half) == (a * b) * (2 * half)) by (nonlinear_arith);
        assert(2 * half == p + 1);
        lemma_mul_mod_noop_left(a * b, p + 1, p);
        assert(1 * (p + 1) == p * 1 + 1);
        lemma_mod_multiples_vanish(1, 1, p);
    }
}

proof fn lemma_poly_eval_range(c: Seq<int>, x: int, n: nat)
    ensures
        0 <= poly_eval(c, x, n) < modulus(),
{
    if n > 0 {
        lemma_mod_bound(
            poly_eval(c, x, (n - 1) as nat) + mul_mod(c[n - 1], pow_mod(x, (n - 1) as nat)),
            modulus() as int,
        );
    }
}

/// `c·(a·P) ≡ a·V` when `P ≡ A`, `c ≡ C` and `A·C ≡ V`.
proof fn lemma_term_congruent(a: int, big_p: int, c: int, v: int)
    requires
        mul_mod(big_p % (modulus() as int), c % (modulus() as int)) == v,
    ensures
        (c * (a * big_p)) % (modulus() as int) == (a * v) % (modulus() as int),
{
    let p = modulus() as int;
    let pa = big_p % p;
    let ca = c % p;
    assert(c * (a * big_p) == a * (big_p * c)) by (nonlinear_arith);
    lemma_mul_mod_noop_right(a, big_p * c, p);
    vstd::arithmetic::div_mod::lemma_mul_mod_noop(big_p, c, p);
    lemma_mul_mod_noop_right(a, v, p);
    lemma_mod_twice(pa * ca, p);
}

/// The inner sums of the round trip: `Σ_i w^(i·(j + (n-1)·l))` is `n` for
/// `j == l` and `0` otherwise (modulo `p`).
proof fn lemma_round_trip_inner(w: int, k: nat, j: int, l: int)
    requires
        k >= 1,
        pow_mod(w, pow2((k - 1) as nat)) == modulus() - 1,
        0 <= j < pow2(k),
        0 <= l < pow2(k),
    ensures
        sum(|i: int| pow_mod(w, ((j + (pow2(k) - 1) * l) * i) as nat), pow2(k)) % (
        modulus() as int) == (if j == l {
            pow2(k) as int
        } else {
            0
        }) % (modulus() as int),
{
    let p = modulus() as int;
    let n = pow2(k) as int;
    lemma_inv_of_root(w, k);
    assert(0 <= (n - 1) * l) by (nonlinear_arith)
        requires
            n >= 1,
            l >= 0,
    ;
    let e = j + (n - 1) * l;
    assert(e == (l - 1) * n + (n + j - l)) by (nonlinear_arith)
        requires
            e == j + (n - 1) * l,
    ;
    if j == l {
        assert(e == l * n) by (nonlinear_arith)
            requires
                e == j + (n - 1) * l,
                j == l,
        ;
        let t = |i: int| pow_mod(w, ((j + (n - 1) * l) * i) as nat);
        assert forall|i: int| 0 <= i < n implies #[trigger] t(i) == 1 by {
            assert(e * i == (l * i) * n) by (nonlinear_arith)
                requires
                    e == l * n,
            ;
            assert(0 <= l * i) by (nonlinear_arith)
                requires
                    l >= 0,
                    i >= 0,
            ;
            lemma_div_mod_of(e * i, n, l * i, 0);
            lemma_pow_reduce(w, n as nat, (e * i) as nat);
            assert(pow_mod(w, 0) == 1);
        }
        lemma_sum_equal(t, |i: int| 1, n as nat);
        lemma_sum_ones(n as nat);
    } else {
        assert(e % n != 0) by {
            if l == 0 {
                lemma_div_mod_of(e, n, 0, j);
            } else if j < l {
                lemma_div_mod_of(e, n, l - 1, n + j - l);
            } else {
                assert(e == l * n + (j - l)) by (nonlinear_arith)
                    requires
                        e == j + (n - 1) * l,
                ;
                lemma_div_mod_of(e, n, l, j - l);
            }
        }
        assert(0 <= e);
        lemma_geometric(w, k, e as nat);
        lemma_sum_equal(
            |i: int| pow_mod(w, ((j + (n - 1) * l) * i) as nat),
            |i: int| pow_mod(w, ((e as nat) * i) as nat),
            n as nat,
        );
        vstd::arithmetic::div_mod::lemma_small_mod(0, p as nat);
    }
}

proof fn lemma_sum_ones(n: nat)
    ensures
        sum(|i: int| 1, n) == n,
    decreases n,
{
    if n > 0 {
        lemma_sum_ones((n - 1) as nat);
    }
}

/// Transforming with `w` and then with `w^-1` gives `n` times the input.
proof fn lemma_double_transform_at(a: Seq<int>, w: int, k: nat, l: int)
    requires
        k >= 1,
        a.len() == pow2(k),
        forall|j: int| 0 <= j < a.len() ==> 0 <= #[trigger] a[j] < modulus(),
        pow_mod(w, pow2((k - 1) as nat)) == modulus() - 1,
        0 <= l < pow2(k),
    ensures
        poly_eval(dft(a, w), pow_mod(inv_mod(w), l as nat), pow2(k)) == (a[l] * pow2(k)) % (
        modulus() as int),
{
    let p = modulus() as int;
    let n = pow2(k);
    let ni = n as int;
    lemma_inv_of_root(w, k);
    let wi = inv_mod(w);
    let big_f = dft(a, w);
    let x = pow_mod(wi, l as nat);
    let f = |i: int, j: int| a[j] * pow_mod(w, ((j + (ni - 1) * l) * i) as nat);
    let outer = |i: int| big_f[i] * pow(x, i as nat);
    lemma_poly_eval_is_psum(big_f, x, n);
    lemma_psum_is_sum(big_f, x, n);
    lemma_sum_equal(|j: int| big_f[j] * pow(x, j as nat), outer, n);
    // Each row of the outer sum expands into the inner sum over `j`.
    assert forall|i: int| 0 <= i < n implies #[trigger] outer(i) % p == sum(
        |j: int| f(i, j),
        n,
    ) % p by {
        let wi_i = pow_mod(w, i as nat);
        let c = pow(x, i as nat);
        let row = |j: int| a[j] * pow(wi_i, j as nat);
        lemma_poly_eval_is_psum(a, wi_i, n);
        lemma_psum_is_sum(a, wi_i, n);
        lemma_sum_equal(|j: int| a[j] * pow(wi_i, j as nat), row, n);
        let si = sum(row, n);
        assert(big_f[i] == si % p);
        lemma_mul_mod_noop_left(si, c, p);
        assert(si * c == c * si) by (nonlinear_arith);
        lemma_sum_scale(row, c, n);
        // c ≡ w^((n-1)·l·i)
        lemma_pow_mod_is_pow(x, i as nat);
        lemma_pow_mod_mul(wi, l as nat, i as nat);
        lemma_pow_mod_mul(w, (n - 1) as nat, (l * i) as nat);
        assert forall|j: int| 0 <= j < n implies #[trigger] (c * row(j)) % p == f(i, j) % p by {
            lemma_pow_mod_is_pow(wi_i, j as nat);
            lemma_pow_mod_mul(w, i as nat, j as nat);
            lemma_pow_mod_add(w, (i * j) as nat, ((n - 1) * (l * i)) as nat);
            assert((i * j) as nat + ((n - 1) * (l * i)) as nat == ((j + (ni - 1) * l) * i) as nat)
                by (nonlinear_arith)
                requires
                    0 <= i,
                    0 <= j,
                    0 <= l,
                    ni == n,
                    n >= 1,
            ;
            lemma_term_congruent(a[j], pow(wi_i, j as nat), c, pow_mod(w, ((j + (ni - 1) * l) * i) as nat));
        }
        lemma_sum_congruent(|j: int| c * row(j), |j: int| f(i, j), n);
    }
    lemma_sum_congruent(outer, |i: int| sum(|j: int| f(i, j), n), n);
    lemma_sum_swap(f, n, n);
    // Each column collapses to `a[j]·n` or `0`.
    let g = |j: int| if j == l {
        a[l] * ni
    } else {
        0
    };
    assert forall|j: int| 0 <= j < n implies sum(|i: int| f(i, j), n) % p == #[trigger] g(j) % p by {
        let v = |i: int| pow_mod(w, ((j + (ni - 1) * l) * i) as nat);
        lemma_sum_scale(v, a[j], n);
        lemma_sum_equal(|i: int| f(i, j), |i: int| a[j] * v(i), n);
        lemma_round_trip_inner(w, k, j, l);
        lemma_sum_equal(v, |i: int| pow_mod(w, ((j + (pow2(k) - 1) * l) * i) as nat), n);
        lemma_mul_mod_noop_right(a[j], sum(v, n), p);
        lemma_mul_mod_noop_right(a[j], if j == l { ni } else { 0 }, p);
    }
    lemma_sum_congruent(|j: int| sum(|i: int| f(i, j), n), g, n);
    lemma_sum_single(g, n, l);
}

/// The inverse transform undoes the transform: for a root of unity `w` of
/// order `2^k` (`w^(2^(k-1)) == -1` when `k > 0`; `k <= two_adicity()`) and
/// field values `a`, `ifft_spec(fft_spec(a, w, k), w, k) == a`.
pub proof fn lemma_ifft_inverts_fft(a: Seq<int>, w: int, k: nat)
    requires
        k <= 32,
        a.len() == pow2(k),
        forall|j: int| 0 <= j < a.len() ==> 0 <= #[trigger] a[j] < modulus(),
        k > 0 ==> pow_mod(w, pow2((k - 1) as nat)) == modulus() - 1,
    ensures
        ifft_spec(fft_spec(a, w, k), w, k) == a,
{
    if k == 0 {
        vstd::arithmetic::power2::lemma2_to64();
        lemma_ifft_inverts_fft_single(a, w);
    } else {
        lemma_ifft_inverts_fft_pos(a, w, k);
    }
}

proof fn lemma_ifft_inverts_fft_single(a: Seq<int>, w: int)
    requires
        a.len() == 1,
        0 <= a[0] < modulus(),
    ensures
        ifft_spec(fft_spec(a, w, 0), w, 0) == a,
{
    let p = modulus() as int;
    vstd::arithmetic::power2::lemma2_to64();
    vstd::arithmetic::div_mod::lemma_small_mod(1, p as nat);
    assert(bit_reverse(0, 0) == 0);
    assert(fft_spec(a, w, 0) =~= a);
    let wi = inv_mod(w);
    assert(fft_spec(a, wi, 0) =~= a);
    assert(0 <= 1 < modulus() && mul_mod(1, 1) == 1);
    let z = inv_mod(1);
    vstd::arithmetic::div_mod::lemma_small_mod(z as nat, p as nat);
    assert(z == 1);
    vstd::arithmetic::div_mod::lemma_small_mod(a[0] as nat, p as nat);
    assert(ifft_spec(fft_spec(a, w, 0), w, 0) =~= a);
}

proof fn lemma_ifft_inverts_fft_pos(a: Seq<int>, w: int, k: nat)
    requires
        1 <= k <= 32,
        a.len() == pow2(k),
        forall|j: int| 0 <= j < a.len() ==> 0 <= #[trigger] a[j] < modulus(),
        pow_mod(w, pow2((k - 1) as nat)) == modulus() - 1,
    ensures
        ifft_spec(fft_spec(a, w, k), w, k) == a,
{
    let p = modulus() as int;
    let n = pow2(k);
    let ni = n as int;
    lemma_fft_evaluates(a, w, k);
    let big_f = dft(a, w);
    assert forall|i: int| 0 <= i < n implies 0 <= #[trigger] big_f[i] < modulus() by {
        lemma_poly_eval_range(a, pow_mod(w, i as nat), n);
    }
    lemma_inv_of_root(w, k);
    let wi = inv_mod(w);
    // `w^-1` is a root of the same order.
    assert(pow_mod(wi, pow2((k - 1) as nat)) == p - 1) by {
        let h = pow2((k - 1) as nat);
        vstd::arithmetic::power2::lemma_pow2_unfold(k);
        lemma_pow_mod_mul(w, (n - 1) as nat, h);
        assert((n - 1) * h == (h - 1) * n + h) by (nonlinear_arith)
            requires
                n == 2 * h,
        ;
        vstd::arithmetic::power2::lemma_pow2_pos((k - 1) as nat);
        lemma_div_mod_of(((n - 1) * h) as int, ni, (h - 1) as int, h as int);
        lemma_div_mod_of(h as int, ni, 0, h as int);
        lemma_pow_periodic(w, n, ((n - 1) * h) as nat, h);
    }
    lemma_fft_evaluates(big_f, wi, k);
    lemma_inv_of_pow2(k);
    let ninv = inv_mod(ni);
    let result = ifft_spec(big_f, w, k);
    assert forall|l: int| 0 <= l < n implies #[trigger] result[l] == a[l] by {
        lemma_double_transform_at(a, w, k, l);
        let g = poly_eval(big_f, pow_mod(wi, l as nat), n);
        assert(result[l] == mul_mod(g, ninv));
        // ((a·n) % p · n^-1) % p = (a · (n·n^-1 % p)) % p = a
        lemma_mul_mod_noop_left(a[l] * ni, ninv, p);
        assert((a[l] * ni) * ninv == a[l] * (ni * ninv)) by (nonlinear_arith);
        lemma_mul_mod_noop_right(a[l], ni * ninv, p);
        vstd::arithmetic::div_mod::lemma_small_mod(a[l] as nat, p as nat);
    }
    assert(result =~= a);
}

/// Coefficient `s` of the product of the polynomials with coefficients `a`
/// and `b`: `Σ_j a[j]·b[s-j]` in the field.
pub open spec fn product_coeff(a: Seq<int>, b: Seq<int>, s: int) -> int {
    sum(|j: int| if 0 <= s - j < b.len() { a[j] * b[s - j] } else { 0 }, a.len()) % (
    modulus() as int)
}

/// The first `m` coefficients of the product of `a` and `b`, computed
/// term by term.
pub open spec fn naive_product(a: Seq<int>, b: Seq<int>, m: nat) -> Seq<int> {
    Seq::new(m, |s: int| product_coeff(a, b, s))
}

/// A sum over `n` terms of a sequence extended with zeros only reads the
/// first `len` of them.
proof fn lemma_sum_zero_tail(f: spec_fn(int) -> int, len: nat, n: nat)
    requires
        len <= n,
        forall|i: int| len <= i < n ==> #[trigger] f(i) == 0,
    ensures
        sum(f, n) == sum(f, len),
{
    lemma_sum_shift(f, len, (n - len) as nat);
    lemma_sum_zero(|i: int| f(len + i), (n - len) as nat);
}

/// `Σ_{s<m} b[s-j]·x^s == x^j · Σ_{t<|b|} b[t]·x^t` when `j + |b| <= m`.
proof fn lemma_shifted_sum(b: Seq<int>, x: int, j: nat, m: nat)
    requires
        j + b.len() <= m,
    ensures
        sum(|s: int| (if 0 <= s - j < b.len() { b[s - j] } else { 0 }) * pow(x, s as nat), m)
            == pow(x, j) * sum(|t: int| b[t] * pow(x, t as nat), b.len()),
{
    let e = |s: int| (if 0 <= s - j < b.len() { b[s - j] } else { 0 }) * pow(x, s as nat);
    let g = |t: int| b[t] * pow(x, t as nat);
    lemma_sum_shift(e, j, (m - j) as nat);
    lemma_sum_zero(e, j);
    let tail = |i: int| e(j + i);
    lemma_sum_zero_tail(tail, b.len(), (m - j) as nat);
    assert forall|i: int| 0 <= i < b.len() implies #[trigger] tail(i) == pow(x, j) * g(i) by {
        lemma_pow_adds(x, j, i as nat);
        assert(b[i] * (pow(x, j) * pow(x, i as nat)) == pow(x, j) * (b[i] * pow(x, i as nat)))
            by (nonlinear_arith);
    }
    lemma_sum_equal(tail, |i: int| pow(x, j) * g(i), b.len());
    lemma_sum_scale(g, pow(x, j), b.len());
}

/// Evaluation turns the product of coefficient sequences into the product
/// of values (exactly, over the integers).
proof fn lemma_eval_product(a: Seq<int>, b: Seq<int>, x: int, m: nat)
    requires
        a.len() + b.len() <= m,
    ensures
        sum(
            |s: int|
                sum(|j: int| if 0 <= s - j < b.len() { a[j] * b[s - j] } else { 0 }, a.len())
                    * pow(x, s as nat),
            m,
        ) == sum(|j: int| a[j] * pow(x, j as nat), a.len()) * sum(
            |t: int| b[t] * pow(x, t as nat),
            b.len(),
        ),
{
    let la = a.len();
    let bb = sum(|t: int| b[t] * pow(x, t as nat), b.len());
    let d = |s: int, j: int| (if 0 <= s - j < b.len() { a[j] * b[s - j] } else { 0 }) * pow(
        x,
        s as nat,
    );
    let outer = |s: int|
        sum(|j: int| if 0 <= s - j < b.len() { a[j] * b[s - j] } else { 0 }, la) * pow(
            x,
            s as nat,
        );
    assert forall|s: int| 0 <= s < m implies #[trigger] outer(s) == sum(|j: int| d(s, j), la) by {
        let q = |j: int| if 0 <= s - j < b.len() { a[j] * b[s - j] } else { 0 };
        lemma_sum_scale(q, pow(x, s as nat), la);
        assert forall|j: int| 0 <= j < la implies #[trigger] d(s, j) == pow(x, s as nat) * q(j) by {
            assert(q(j) * pow(x, s as nat) == pow(x, s as nat) * q(j)) by (nonlinear_arith);
        }
        lemma_sum_equal(|j: int| d(s, j), |j: int| pow(x, s as nat) * q(j), la);
        lemma_sum_equal(q, |j: int| if 0 <= s - j < b.len() { a[j] * b[s - j] } else { 0 }, la);
        assert(sum(q, la) * pow(x, s as nat) == pow(x, s as nat) * sum(q, la))
            by (nonlinear_arith);
    }
    lemma_sum_equal(outer, |s: int| sum(|j: int| d(s, j), la), m);
    lemma_sum_swap(d, m, la);
    let ga = |j: int| a[j] * pow(x, j as nat);
    assert forall|j: int| 0 <= j < la implies sum(|s: int| d(s, j), m) == bb * #[trigger] ga(j) by {
        let e = |s: int| (if 0 <= s - j < b.len() { b[s - j] } else { 0 }) * pow(x, s as nat);
        lemma_shifted_sum(b, x, j as nat, m);
        assert forall|s: int| 0 <= s < m implies #[trigger] d(s, j) == a[j] * e(s) by {
            let px = pow(x, s as nat);
            if 0 <= s - j < b.len() {
                assert((a[j] * b[s - j]) * px == a[j] * (b[s - j] * px)) by (nonlinear_arith);
            } else {
                assert(0 * px == 0 && a[j] * 0 == 0) by (nonlinear_arith);
            }
        }
        lemma_sum_equal(|s: int| d(s, j), |s: int| a[j] * e(s), m);
        lemma_sum_scale(e, a[j], m);
        assert(a[j] * (pow(x, j as nat) * bb) == bb * (a[j] * pow(x, j as nat)))
            by (nonlinear_arith);
    }
    lemma_sum_equal(|j: int| sum(|s: int| d(s, j), m), |j: int| bb * ga(j), la);
    lemma_sum_scale(ga, bb, la);
    assert(bb * sum(ga, la) == sum(ga, la) * bb) by (nonlinear_arith);
}

/// The padded coefficients evaluate like the unpadded ones.
proof fn lemma_padded_sum(a: Seq<int>, x: int, m: nat)
    requires
        a.len() <= m,
    ensures
        sum(|j: int| padded(a, m)[j] * pow(x, j as nat), m) == sum(
            |j: int| a[j] * pow(x, j as nat),
            a.len(),
        ),
{
    let pa = padded(a, m);
    let f = |j: int| pa[j] * pow(x, j as nat);
    assert forall|j: int| a.len() <= j < m implies #[trigger] f(j) == 0 by {
        assert(0 * pow(x, j as nat) == 0) by (nonlinear_arith);
    }
    lemma_sum_zero_tail(f, a.len(), m);
    lemma_sum_equal(f, |j: int| a[j] * pow(x, j as nat), a.len());
}

/// Multiplying transforms entrywise and transforming back is multiplying
/// the polynomials: for `|a| + |b| <= 2^k`, a root of unity `w` of order
/// `2^k` and field values, the inverse transform of the entrywise product
/// of the transforms of `a` and `b` (padded to `2^k`) is their product's
/// coefficient sequence.
pub proof fn lemma_pointwise_product_is_convolution(a: Seq<int>, b: Seq<int>, w: int, k: nat)
    requires
        k <= 32,
        a.len() + b.len() <= pow2(k),
        forall|j: int| 0 <= j < a.len() ==> 0 <= #[trigger] a[j] < modulus(),
        forall|j: int| 0 <= j < b.len() ==> 0 <= #[trigger] b[j] < modulus(),
        k > 0 ==> pow_mod(w, pow2((k - 1) as nat)) == modulus() - 1,
    ensures
        ifft_spec(
            pointwise_mul(
                fft_spec(padded(a, pow2(k)), w, k),
                fft_spec(padded(b, pow2(k)), w, k),
            ),
            w,
            k,
        ) == naive_product(a, b, pow2(k)),
{
    let p = modulus() as int;
    let m = pow2(k);
    let pa = padded(a, m);
    let pb = padded(b, m);
    let c = naive_product(a, b, m);
    let la = a.len();
    let lb = b.len();
    assert forall|j: int| 0 <= j < m implies 0 <= #[trigger] pa[j] < modulus() && 0 <= pb[j]
        < modulus() && 0 <= c[j] < modulus() by {
        lemma_mod_bound(
            sum(|i: int| if 0 <= j - i < b.len() { a[i] * b[j - i] } else { 0 }, la),
            p,
        );
    }
    lemma_fft_evaluates(pa, w, k);
    lemma_fft_evaluates(pb, w, k);
    lemma_fft_evaluates(c, w, k);
    assert forall|i: int| 0 <= i < m implies #[trigger] pointwise_mul(dft(pa, w), dft(pb, w))[i]
        == dft(c, w)[i] by {
        let x = pow_mod(w, i as nat);
        let big_a = sum(|j: int| a[j] * pow(x, j as nat), la);
        let big_b = sum(|j: int| b[j] * pow(x, j as nat), lb);
        lemma_poly_eval_is_psum(pa, x, m);
        lemma_psum_is_sum(pa, x, m);
        lemma_padded_sum(a, x, m);
        lemma_poly_eval_is_psum(pb, x, m);
        lemma_psum_is_sum(pb, x, m);
        lemma_padded_sum(b, x, m);
        vstd::arithmetic::div_mod::lemma_mul_mod_noop(big_a, big_b, p);
        lemma_poly_eval_is_psum(c, x, m);
        lemma_psum_is_sum(c, x, m);
        let exact = |s: int|
            sum(|j: int| if 0 <= s - j < b.len() { a[j] * b[s - j] } else { 0 }, la) * pow(
                x,
                s as nat,
            );
        assert forall|s: int| 0 <= s < m implies #[trigger] (c[s] * pow(x, s as nat)) % p == exact(
            s,
        ) % p by {
            lemma_mul_mod_noop_left(
                sum(|j: int| if 0 <= s - j < b.len() { a[j] * b[s - j] } else { 0 }, la),
                pow(x, s as nat),
                p,
            );
        }
        lemma_sum_congruent(|s: int| c[s] * pow(x, s as nat), exact, m);
        lemma_eval_product(a, b, x, m);
    }
    assert(pointwise_mul(fft_spec(pa, w, k), fft_spec(pb, w, k)) =~= fft_spec(c, w, k));
    lemma_ifft_inverts_fft(c, w, k);
}

/// Squaring a field value `n` times raises it to the power `2^n`.
pub(crate) proof fn lemma_squared(x: int, n: nat)
    requires
        0 <= x < modulus(),
    ensures
        squared(x, n) == pow_mod(x, pow2(n)),
    decreases n,
{
    if n == 0 {
        vstd::arithmetic::power2::lemma2_to64();
        reveal_with_fuel(pow_mod, 2);
        assert(pow_mod(x, 1) == mul_mod(1, x));
        vstd::arithmetic::div_mod::lemma_small_mod(x as nat, modulus());
    } else {
        lemma_squared(x, (n - 1) as nat);
        vstd::arithmetic::power2::lemma_pow2_unfold(n);
        lemma_pow_mod_add(x, pow2((n - 1) as nat), pow2((n - 1) as nat));
    }
}

} // verus!
