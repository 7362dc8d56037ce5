//! Radix-2 FFT over the scalar field, its inverse, the coset variants and
//! polynomial products through point-value form.
use crate::field::{
    add_mod, fr_add, fr_generator, fr_invert, fr_mul, fr_one, fr_pow, fr_root_of_unity,
    fr_square, fr_sub, fr_two_adicity, fr_from_u64, fr_zero, inv_mod, modulus, mul_mod, pow_mod,
    root_of_unity,
    sub_mod, two_adicity, Fr,
};
use vstd::arithmetic::div_mod::lemma_fundamental_div_mod_converse;
use vstd::arithmetic::power2::{
    lemma2_to64, lemma_pow2_pos, lemma_pow2_strictly_increases, lemma_pow2_unfold, pow2,
};
use vstd::prelude::*;

verus! {

/// The values of a sequence of field elements.
pub open spec fn vals(a: Seq<Fr>) -> Seq<int> {
    Seq::new(a.len(), |i: int| a[i].val() as int)
}

/// The lowest `k` bits of `i`, in reverse order.
pub open spec fn bit_reverse(i: nat, k: nat) -> nat
    decreases k,
{
    if k == 0 {
        0
    } else {
        (i % 2) * pow2((k - 1) as nat) + bit_reverse(i / 2, (k - 1) as nat)
    }
}

/// `a` with each index exchanged with its `k`-bit reversal.
pub open spec fn bit_reversed(a: Seq<int>, k: nat) -> Seq<int> {
    Seq::new(a.len(), |i: int| a[bit_reverse(i as nat, k) as int])
}

/// One butterfly stage on blocks of `2m`: the pair `(x, y)` at distance `m`
/// with twiddle `t` becomes `(x + t·y, x - t·y)`, where `t` is `wm` raised to
/// the offset of `x` in its block.
pub open spec fn butterfly(a: Seq<int>, wm: int, m: nat) -> Seq<int> {
    Seq::new(
        a.len(),
        |i: int|
            {
                let j = i % (2 * m) as int;
                if j < m {
                    add_mod(a[i], mul_mod(a[i + m], pow_mod(wm, j as nat)))
                } else {
                    sub_mod(a[i - m], mul_mod(a[i], pow_mod(wm, (j - m) as nat)))
                }
            },
    )
}

/// The first `s` butterfly stages on `a` of length `n`; stage `t` pairs
/// elements `2^t` apart with twiddles from `omega^(n / 2^(t+1))`.
pub open spec fn stages(a: Seq<int>, omega: int, s: nat) -> Seq<int>
    decreases s,
{
    if s == 0 {
        a
    } else {
        let m = pow2((s - 1) as nat);
        butterfly(stages(a, omega, (s - 1) as nat), pow_mod(omega, a.len() / (2 * m)), m)
    }
}

/// The radix-2 Cooley-Tukey transform of `a` (length `2^k`) with root `omega`.
pub open spec fn fft_spec(a: Seq<int>, omega: int, k: nat) -> Seq<int> {
    stages(bit_reversed(a, k), omega, k)
}

/// `x` squared `n` times.
pub open spec fn squared(x: int, n: nat) -> int
    decreases n,
{
    if n == 0 {
        x
    } else {
        mul_mod(squared(x, (n - 1) as nat), squared(x, (n - 1) as nat))
    }
}

/// The root of unity of order `2^k` that the domain of size `2^k` uses.
pub open spec fn domain_root(k: nat) -> int {
    squared(root_of_unity(), (two_adicity() - k) as nat)
}

/// The least `k` with `2^k >= l`.
pub open spec fn domain_exp(l: nat) -> nat
    decreases l,
{
    if l <= 1 {
        0
    } else {
        domain_exp(((l + 1) / 2) as nat) + 1
    }
}

/// Every entry of `a` multiplied by `c`.
pub open spec fn scaled(a: Seq<int>, c: int) -> Seq<int> {
    Seq::new(a.len(), |i: int| mul_mod(a[i], c))
}

/// Entry `i` of `a` multiplied by `g^i`.
pub open spec fn powers_scaled(a: Seq<int>, g: int) -> Seq<int> {
    Seq::new(a.len(), |i: int| mul_mod(a[i], pow_mod(g, i as nat)))
}

/// Entrywise product.
pub open spec fn pointwise_mul(a: Seq<int>, b: Seq<int>) -> Seq<int> {
    Seq::new(a.len(), |i: int| mul_mod(a[i], b[i]))
}

/// Entrywise sum.
pub open spec fn pointwise_add(a: Seq<int>, b: Seq<int>) -> Seq<int> {
    Seq::new(a.len(), |i: int| add_mod(a[i], b[i]))
}

/// Entrywise difference.
pub open spec fn pointwise_sub(a: Seq<int>, b: Seq<int>) -> Seq<int> {
    Seq::new(a.len(), |i: int| sub_mod(a[i], b[i]))
}

/// `a` extended with zeros to length `m`.
pub open spec fn padded(a: Seq<int>, m: nat) -> Seq<int> {
    Seq::new(m, |i: int| if i < a.len() { a[i] } else { 0 })
}

/// The inverse transform: the transform with `omega^-1`, scaled by `1/n`.
pub open spec fn ifft_spec(a: Seq<int>, omega: int, k: nat) -> Seq<int> {
    scaled(fft_spec(a, inv_mod(omega), k), inv_mod(a.len() as int))
}

/// Evaluation over the coset of the domain by the generator 7.
pub open spec fn coset_fft_spec(a: Seq<int>, omega: int, k: nat) -> Seq<int> {
    fft_spec(powers_scaled(a, 7), omega, k)
}

/// Interpolation from the coset of the domain by the generator 7.
pub open spec fn icoset_fft_spec(a: Seq<int>, omega: int, k: nat) -> Seq<int> {
    powers_scaled(ifft_spec(a, omega, k), inv_mod(7))
}

pub(crate) proof fn lemma_bit_reverse_bound(i: nat, k: nat)
    ensures
        bit_reverse(i, k) < pow2(k),
    decreases k,
{
    if k > 0 {
        lemma_bit_reverse_bound(i / 2, (k - 1) as nat);
        lemma_pow2_unfold(k);
        let p = pow2((k - 1) as nat);
        assert((i % 2) * p <= p) by (nonlinear_arith)
            requires
                i % 2 <= 1,
        ;
    } else {
        lemma2_to64();
    }
}

proof fn lemma_bit_reverse_top(hi: nat, lo: nat, k: nat)
    requires
        k >= 1,
        hi < 2,
        lo < pow2((k - 1) as nat),
    ensures
        bit_reverse(hi * pow2((k - 1) as nat) + lo, k) == 2 * bit_reverse(lo, (k - 1) as nat)
            + hi,
    decreases k,
{
    let x = hi * pow2((k - 1) as nat) + lo;
    if k == 1 {
        lemma2_to64();
        assert(lo == 0);
        assert(x == hi);
        assert(bit_reverse(x, 1) == (x % 2) * pow2(0) + bit_reverse(x / 2, 0));
    } else {
        let p = pow2((k - 2) as nat);
        lemma_pow2_unfold((k - 1) as nat);
        assert(pow2((k - 1) as nat) == 2 * p);
        lemma_fundamental_div_mod_converse(lo as int, 2, (lo / 2) as int, (lo % 2) as int);
        let q = hi * p + lo / 2;
        assert(x == q * 2 + lo % 2) by (nonlinear_arith)
            requires
                x == hi * (2 * p) + lo,
                lo == (lo / 2) * 2 + lo % 2,
                q == hi * p + lo / 2,
        ;
        lemma_fundamental_div_mod_converse(x as int, 2, q as int, (lo % 2) as int);
        assert(lo / 2 < p) by (nonlinear_arith)
            requires
                lo < 2 * p,
                lo == (lo / 2) * 2 + lo % 2,
        ;
        lemma_bit_reverse_top(hi, lo / 2, (k - 1) as nat);
        let b = bit_reverse(lo / 2, (k - 2) as nat);
        assert(bit_reverse(x, k) == (x % 2) * pow2((k - 1) as nat) + bit_reverse(
            x / 2,
            (k - 1) as nat,
        ));
        assert(bit_reverse(lo, (k - 1) as nat) == (lo % 2) * p + b);
        assert((lo % 2) * (2 * p) == 2 * ((lo % 2) * p)) by (nonlinear_arith);
    }
}

proof fn lemma_bit_reverse_involution(i: nat, k: nat)
    requires
        i < pow2(k),
    ensures
        bit_reverse(bit_reverse(i, k), k) == i,
    decreases k,
{
    if k == 0 {
        lemma2_to64();
    } else {
        lemma_pow2_unfold(k);
        let lo = bit_reverse(i / 2, (k - 1) as nat);
        lemma_bit_reverse_bound(i / 2, (k - 1) as nat);
        lemma_bit_reverse_top(i % 2, lo, k);
        assert(i / 2 < pow2((k - 1) as nat));
        lemma_bit_reverse_involution(i / 2, (k - 1) as nat);
    }
}

/// The lowest `bits` bits of `n`, reversed.
fn bitreverse(n: usize, bits: u32) -> (r: usize)
    requires
        pow2(bits as nat) <= usize::MAX,
    ensures
        r == bit_reverse(n as nat, bits as nat),
{
    let mut r: usize = 0;
    let mut rest: usize = n;
    let mut t: u32 = 0;
    proof {
        lemma2_to64();
    }
    while t < bits
        invariant
            t <= bits,
            pow2(bits as nat) <= usize::MAX,
            r < pow2(t as nat),
            bit_reverse(n as nat, bits as nat) == r * pow2((bits - t) as nat) + bit_reverse(
                rest as nat,
                (bits - t) as nat,
            ),
        decreases bits - t,
    {
        proof {
            lemma_pow2_unfold((bits - t) as nat);
            lemma_pow2_unfold((t + 1) as nat);
            if t + 1 < bits {
                lemma_pow2_strictly_increases((t + 1) as nat, bits as nat);
            }
            let p = pow2((bits - t - 1) as nat);
            assert(r * (2 * p) + ((rest % 2) * p + bit_reverse(rest as nat / 2, (bits - t - 1) as nat))
                == (2 * r + rest % 2) * p + bit_reverse(rest as nat / 2, (bits - t - 1) as nat))
                by (nonlinear_arith);
        }
        r = 2 * r + rest % 2;
        rest = rest / 2;
        t = t + 1;
    }
    proof {
        lemma2_to64();
        assert(t == bits);
        assert(pow2((bits - t) as nat) == 1);
        assert(bit_reverse(rest as nat, (bits - t) as nat) == 0);
        let p = pow2((bits - t) as nat);
        assert(r * p == r) by (nonlinear_arith)
            requires
                p == 1,
        ;
    }
    r
}

/// Puts `a` (of length `2^k`) into bit-reversed order.
fn bit_reverse_permute(a: &mut [Fr], k: u32)
    requires
        old(a)@.len() == pow2(k as nat),
    ensures
        final(a)@.len() == old(a)@.len(),
        vals(final(a)@) == bit_reversed(vals(old(a)@), k as nat),
{
    let n = a.len();
    let ghost orig = vals(a@);
    let mut i: usize = 0;
    while i < n
        invariant
            n == a@.len(),
            n == pow2(k as nat),
            orig.len() == n,
            i <= n,
            forall|j: int|
                #![trigger a@[j]]
                0 <= j < n ==> a@[j].val() == if j < i || bit_reverse(j as nat, k as nat) < i {
                    orig[bit_reverse(j as nat, k as nat) as int]
                } else {
                    orig[j]
                },
        decreases n - i,
    {
        let ri = bitreverse(i, k);
        proof {
            lemma_bit_reverse_bound(i as nat, k as nat);
            lemma_bit_reverse_involution(i as nat, k as nat);
            assert forall|j: int| 0 <= j < n implies #[trigger] bit_reverse(j as nat, k as nat) < n
                && (bit_reverse(j as nat, k as nat) == i ==> j == ri) by {
                lemma_bit_reverse_bound(j as nat, k as nat);
                lemma_bit_reverse_involution(j as nat, k as nat);
            }
        }
        if i < ri {
            let x = a[i];
            let y = a[ri];
            a[i] = y;
            a[ri] = x;
        }
        i = i + 1;
    }
    assert(vals(a@) =~= bit_reversed(orig, k as nat));
}

proof fn lemma_offset_mod(k: int, j: int, d: int)
    requires
        d > 0,
        k >= 0,
        k % d == 0,
        0 <= j < d,
    ensures
        (k + j) % d == j,
{
    vstd::arithmetic::div_mod::lemma_fundamental_div_mod(k, d);
    let q = k / d;
    assert(k + j == q * d + j) by (nonlinear_arith)
        requires
            k == d * q + k % d,
            k % d == 0,
    ;
    lemma_fundamental_div_mod_converse(k + j, d, q, j);
}

proof fn lemma_next_block(k: int, n: int, d: int)
    requires
        d > 0,
        0 <= k < n,
        k % d == 0,
        n % d == 0,
    ensures
        k + d <= n,
{
    vstd::arithmetic::div_mod::lemma_fundamental_div_mod(k, d);
    vstd::arithmetic::div_mod::lemma_fundamental_div_mod(n, d);
    let (p, q) = (k / d, n / d);
    assert(k + d <= n) by (nonlinear_arith)
        requires
            k == d * p,
            n == d * q,
            k < n,
            d > 0,
    ;
}

/// One butterfly stage with pair distance `m` and twiddle base `wm`.
fn butterfly_stage(a: &mut [Fr], wm: &Fr, m: usize)
    requires
        m > 0,
        old(a)@.len() as int % (2 * m as int) == 0,
    ensures
        final(a)@.len() == old(a)@.len(),
        vals(final(a)@) == butterfly(vals(old(a)@), wm.val() as int, m as nat),
{
    let n = a.len();
    let ghost prev = vals(a@);
    let ghost target = butterfly(prev, wm.val() as int, m as nat);
    let mut k: usize = 0;
    while k < n
        invariant
            n == a@.len(),
            prev.len() == n,
            target == butterfly(prev, wm.val() as int, m as nat),
            m > 0,
            k <= n,
            k as int % (2 * m as int) == 0,
            n as int % (2 * m as int) == 0,
            forall|i: int|
                #![trigger a@[i]]
                0 <= i < n ==> a@[i].val() == if i < k {
                    target[i]
                } else {
                    prev[i]
                },
        decreases n - k,
    {
        proof {
            lemma_next_block(k as int, n as int, 2 * m as int);
        }
        let mut w = fr_one();
        let mut j: usize = 0;
        while j < m
            invariant
                n == a@.len(),
                prev.len() == n,
                target == butterfly(prev, wm.val() as int, m as nat),
                m > 0,
                k + 2 * m <= n,
                k as int % (2 * m as int) == 0,
                j <= m,
                w.val() == pow_mod(wm.val() as int, j as nat),
                forall|i: int|
                    #![trigger a@[i]]
                    0 <= i < n ==> a@[i].val() == if i < k || (k <= i < k + j) || (k + m <= i
                        < k + m + j) {
                        target[i]
                    } else {
                        prev[i]
                    },
            decreases m - j,
        {
            proof {
                lemma_offset_mod(k as int, j as int, 2 * m as int);
                lemma_offset_mod(k as int, (j + m) as int, 2 * m as int);
            }
            let t = fr_mul(&a[k + j + m], &w);
            let x = a[k + j];
            a[k + j + m] = fr_sub(&x, &t);
            a[k + j] = fr_add(&x, &t);
            w = fr_mul(&w, wm);
            j = j + 1;
        }
        proof {
            let d = 2 * m as int;
            vstd::arithmetic::div_mod::lemma_fundamental_div_mod(k as int, d);
            let q = k as int / d;
            assert(k + d == (q + 1) * d) by (nonlinear_arith)
                requires
                    k == d * q + k as int % d,
                    k as int % d == 0,
            ;
            lemma_fundamental_div_mod_converse(k + d, d, q + 1, 0);
        }
        k = k + 2 * m;
    }
    assert(vals(a@) =~= target);
}

/// Transforms `a` (of length `2^exp`) in place with the root `omega`: a
/// bit-reversal permutation, then `exp` butterfly stages.
pub fn fft(a: &mut [Fr], omega: &Fr, exp: u32)
    requires
        old(a)@.len() == pow2(exp as nat),
    ensures
        final(a)@.len() == old(a)@.len(),
        vals(final(a)@) == fft_spec(vals(old(a)@), omega.val() as int, exp as nat),
{
    let n = a.len();
    bit_reverse_permute(a, exp);
    let ghost b = vals(a@);
    let mut m: usize = 1;
    let mut s: u32 = 0;
    proof {
        lemma2_to64();
    }
    while s < exp
        invariant
            n == a@.len(),
            n == b.len(),
            n == pow2(exp as nat),
            s <= exp,
            m == pow2(s as nat),
            vals(a@) == stages(b, omega.val() as int, s as nat),
        decreases exp - s,
    {
        proof {
            lemma_pow2_unfold((s + 1) as nat);
            vstd::arithmetic::power2::lemma_pow2_adds((s + 1) as nat, (exp - s - 1) as nat);
            lemma_pow2_pos((exp - s - 1) as nat);
            lemma_pow2_pos(s as nat);
            assert(pow2(exp as nat) == pow2((s + 1) as nat) * pow2((exp - s - 1) as nat));
            assert((s + 1) as nat + (exp - s - 1) as nat == exp as nat);
            assert(n == pow2((exp - s - 1) as nat) * (2 * m)) by (nonlinear_arith)
                requires
                    n == pow2((s + 1) as nat) * pow2((exp - s - 1) as nat),
                    pow2((s + 1) as nat) == 2 * m,
            ;
            lemma_fundamental_div_mod_converse(
                n as int,
                2 * m as int,
                pow2((exp - s - 1) as nat) as int,
                0,
            );
            assert(pow2((exp - s - 1) as nat) >= 1);
            assert(2 * m <= n) by (nonlinear_arith)
                requires
                    n == (2 * m) * pow2((exp - s - 1) as nat),
                    pow2((exp - s - 1) as nat) >= 1,
                    m > 0,
            ;
        }
        let w_m = fr_pow(omega, (n / (2 * m)) as u64);
        butterfly_stage(a, &w_m, m);
        m = 2 * m;
        s = s + 1;
    }
}

/// The evaluation domain for `l` points: its root of unity `omega`, its
/// size `m`, the least power of two not below `l`, and `exp` with
/// `m == 2^exp`.
pub fn fft_params(l: usize) -> (r: (Fr, usize, u32))
    requires
        l <= pow2(two_adicity()),
        l <= usize::MAX / 2,
    ensures
        r.1 == pow2(r.2 as nat),
        r.2 == domain_exp(l as nat),
        r.0.val() == domain_root(r.2 as nat),
        r.2 > 0 ==> pow_mod(r.0.val() as int, pow2((r.2 - 1) as nat)) == modulus() - 1,
        r.0.val() != 0,
        r.2 < two_adicity() ==> sub_mod(pow_mod(7, r.1 as nat), 1) != 0,
{
    let mut m: usize = 1;
    let mut exp: u32 = 0;
    proof {
        lemma2_to64();
        lemma_domain_exp_le(l as nat);
    }
    while m < l
        invariant
            m == pow2(exp as nat),
            m > 0,
            exp <= domain_exp(l as nat),
            domain_exp(l as nat) <= two_adicity(),
            exp == 0 || pow2((exp - 1) as nat) < l,
            l <= pow2(two_adicity()),
            l <= usize::MAX / 2,
        decreases domain_exp(l as nat) - exp,
    {
        proof {
            lemma_pow2_unfold((exp + 1) as nat);
            lemma_domain_exp_least(l as nat, (exp + 1) as nat);
        }
        m = 2 * m;
        exp = exp + 1;
    }
    proof {
        lemma_domain_exp_exact(l as nat, exp as nat);
    }
    let mut omega = fr_root_of_unity();
    let ghost root = omega;
    let s = fr_two_adicity();
    let mut i: u32 = exp;
    while i < s
        invariant
            exp <= i <= s,
            s == two_adicity(),
            omega.val() == squared(root_of_unity(), (i - exp) as nat),
        decreases s - i,
    {
        omega = fr_square(&omega);
        i = i + 1;
    }
    proof {
        root.lemma_val_range();
        crate::dft::lemma_squared(root_of_unity(), (two_adicity() - exp) as nat);
        if exp > 0 {
            crate::dft::lemma_pow_mod_mul(
                root_of_unity(),
                pow2((two_adicity() - exp) as nat),
                pow2((exp - 1) as nat),
            );
            vstd::arithmetic::power2::lemma_pow2_adds(
                (two_adicity() - exp) as nat,
                (exp - 1) as nat,
            );
            assert((two_adicity() - exp) as nat + (exp - 1) as nat == (two_adicity() - 1) as nat);
            vstd::arithmetic::power2::lemma_pow2_pos((exp - 1) as nat);
            if omega.val() == 0 {
                lemma_pow_of_zero(pow2((exp - 1) as nat));
            }
        } else {
            // The root squared 32 times is (-1)^2.
            let h = pow2((two_adicity() - 1) as nat);
            vstd::arithmetic::power2::lemma_pow2_unfold(two_adicity());
            crate::dft::lemma_pow_mod_add(root_of_unity(), h, h);
            let p = modulus() as int;
            assert((p - 1) * (p - 1) == p * (p - 2) + 1) by (nonlinear_arith);
            vstd::arithmetic::div_mod::lemma_mod_multiples_vanish(p - 2, 1, p);
            vstd::arithmetic::div_mod::lemma_small_mod(1, p as nat);
            assert(omega.val() == 1);
        }
        if exp < two_adicity() {
            lemma_generator_power(exp as nat);
        }
    }
    (omega, m, exp)
}

proof fn lemma_pow_of_zero(e: nat)
    requires
        e >= 1,
    ensures
        pow_mod(0, e) == 0,
    decreases e,
{
    vstd::arithmetic::div_mod::lemma_small_mod(0, modulus());
    if e > 1 {
        lemma_pow_of_zero((e - 1) as nat);
    }
}

/// Given that the root of unity `7^t` has `-1` as its power `2^31`,
/// `7^(2^k) != 1` for `k < 32`: the coset by 7 misses the domain.
proof fn lemma_generator_power(k: nat)
    requires
        k < two_adicity(),
        pow_mod(root_of_unity(), pow2((two_adicity() - 1) as nat)) == modulus() - 1,
    ensures
        sub_mod(pow_mod(7, pow2(k)), 1) != 0,
{
    let p = modulus() as int;
    let x = pow_mod(7, pow2(k));
    crate::dft::lemma_pow_mod_range(7, pow2(k));
    if x == 1 {
        let t = ((modulus() - 1) as nat / pow2(two_adicity())) as nat;
        let j = (two_adicity() - 1 - k) as nat;
        crate::dft::lemma_pow_mod_mul(7, t, pow2((two_adicity() - 1) as nat));
        vstd::arithmetic::power2::lemma_pow2_adds(k, j);
        assert(k + j == (two_adicity() - 1) as nat);
        assert(t * pow2((two_adicity() - 1) as nat) == pow2(k) * (t * pow2(j))) by (nonlinear_arith)
            requires
                pow2((two_adicity() - 1) as nat) == pow2(k) * pow2(j),
        ;
        crate::dft::lemma_pow_mod_mul(7, pow2(k), t * pow2(j));
        crate::dft::lemma_pow_mod_of_one(t * pow2(j));
        assert(false);
    }
    if x == 0 {
        vstd::arithmetic::div_mod::lemma_fundamental_div_mod_converse(0 - 1, p, -1, p - 1);
    } else {
        vstd::arithmetic::div_mod::lemma_small_mod((x - 1) as nat, p as nat);
    }
}

proof fn lemma_domain_exp_le(l: nat)
    requires
        l <= pow2(two_adicity()),
    ensures
        domain_exp(l) <= two_adicity(),
{
    lemma_domain_exp_least(l, two_adicity());
}

/// `domain_exp(l)` is at most any `e` with `2^e >= l`, and at least any `e`
/// with `2^(e-1) < l`.
proof fn lemma_domain_exp_least(l: nat, e: nat)
    ensures
        pow2(e) >= l ==> domain_exp(l) <= e,
        e > 0 && pow2((e - 1) as nat) < l ==> domain_exp(l) >= e,
    decreases l,
{
    lemma2_to64();
    if l > 1 {
        let h = ((l + 1) / 2) as nat;
        if e > 0 {
            lemma_pow2_unfold(e);
            lemma_domain_exp_least(h, (e - 1) as nat);
            if e > 1 {
                lemma_pow2_unfold((e - 1) as nat);
            }
        } else {
            if e == 0 {
                assert(pow2(e) == 1);
            }
        }
    } else {
        if e > 0 {
            lemma_pow2_pos((e - 1) as nat);
        }
    }
}

proof fn lemma_domain_exp_exact(l: nat, e: nat)
    requires
        pow2(e) >= l,
        e == 0 || pow2((e - 1) as nat) < l,
    ensures
        domain_exp(l) == e,
{
    lemma_domain_exp_least(l, e);
    if e == 0 {
        lemma2_to64();
        assert(domain_exp(l) == 0);
    }
}

/// Multiplies every entry of `a` by `c`.
pub(crate) fn scale_all(a: &mut [Fr], c: &Fr)
    ensures
        final(a)@.len() == old(a)@.len(),
        vals(final(a)@) == scaled(vals(old(a)@), c.val() as int),
{
    let ghost orig = vals(a@);
    let mut i: usize = 0;
    while i < a.len()
        invariant
            a@.len() == orig.len(),
            i <= a@.len(),
            forall|j: int|
                #![trigger a@[j]]
                0 <= j < a@.len() ==> a@[j].val() == if j < i {
                    mul_mod(orig[j], c.val() as int)
                } else {
                    orig[j]
                },
        decreases a@.len() - i,
    {
        a[i] = fr_mul(&a[i], c);
        i = i + 1;
    }
    assert(vals(a@) =~= scaled(orig, c.val() as int));
}

/// Multiplies entry `i` of `a` by `g^i`.
fn scale_by_powers(a: &mut [Fr], g: &Fr)
    ensures
        final(a)@.len() == old(a)@.len(),
        vals(final(a)@) == powers_scaled(vals(old(a)@), g.val() as int),
{
    let ghost orig = vals(a@);
    let mut w = fr_one();
    let mut i: usize = 0;
    while i < a.len()
        invariant
            a@.len() == orig.len(),
            i <= a@.len(),
            w.val() == pow_mod(g.val() as int, i as nat),
            forall|j: int|
                #![trigger a@[j]]
                0 <= j < a@.len() ==> a@[j].val() == if j < i {
                    mul_mod(orig[j], pow_mod(g.val() as int, j as nat))
                } else {
                    orig[j]
                },
        decreases a@.len() - i,
    {
        a[i] = fr_mul(&a[i], &w);
        w = fr_mul(&w, g);
        i = i + 1;
    }
    assert(vals(a@) =~= powers_scaled(orig, g.val() as int));
}

/// Inverts `fft`: the transform with `omega^-1`, then every entry divided
/// by the length.
pub fn ifft(a: &mut [Fr], omega: &Fr, exp: u32)
    requires
        old(a)@.len() == pow2(exp as nat),
        omega.val() != 0,
    ensures
        final(a)@.len() == old(a)@.len(),
        vals(final(a)@) == ifft_spec(vals(old(a)@), omega.val() as int, exp as nat),
{
    let omega_inv = fr_invert(omega).unwrap();
    fft(a, &omega_inv, exp);
    let n = fr_from_u64(a.len() as u64);
    proof {
        lemma_pow2_pos(exp as nat);
        vstd::arithmetic::div_mod::lemma_small_mod(a@.len(), modulus());
    }
    let minv = fr_invert(&n).unwrap();
    scale_all(a, &minv);
}

/// Evaluates the polynomial with coefficients `a` over the coset of the
/// domain by the field's multiplicative generator.
pub fn coset_fft(a: &mut [Fr], omega: &Fr, exp: u32)
    requires
        old(a)@.len() == pow2(exp as nat),
    ensures
        final(a)@.len() == old(a)@.len(),
        vals(final(a)@) == coset_fft_spec(vals(old(a)@), omega.val() as int, exp as nat),
{
    let g = fr_generator();
    scale_by_powers(a, &g);
    fft(a, omega, exp);
}

/// Inverts `coset_fft`.
pub fn icoset_fft(a: &mut [Fr], omega: &Fr, exp: u32)
    requires
        old(a)@.len() == pow2(exp as nat),
        omega.val() != 0,
    ensures
        final(a)@.len() == old(a)@.len(),
        vals(final(a)@) == icoset_fft_spec(vals(old(a)@), omega.val() as int, exp as nat),
{
    ifft(a, omega, exp);
    let g = fr_generator();
    let g_inv = fr_invert(&g).unwrap();
    scale_by_powers(a, &g_inv);
}

/// Multiplies `a` entrywise by `b` (of the same length).
pub fn mul_eval_domain(a: &mut [Fr], b: &[Fr])
    requires
        old(a)@.len() == b@.len(),
    ensures
        final(a)@.len() == old(a)@.len(),
        vals(final(a)@) == pointwise_mul(vals(old(a)@), vals(b@)),
{
    let ghost orig = vals(a@);
    let mut i: usize = 0;
    while i < a.len()
        invariant
            a@.len() == orig.len(),
            a@.len() == b@.len(),
            i <= a@.len(),
            forall|j: int|
                #![trigger a@[j]]
                0 <= j < a@.len() ==> a@[j].val() == if j < i {
                    mul_mod(orig[j], b@[j].val() as int)
                } else {
                    orig[j]
                },
        decreases a@.len() - i,
    {
        a[i] = fr_mul(&a[i], &b[i]);
        i = i + 1;
    }
    assert(vals(a@) =~= pointwise_mul(orig, vals(b@)));
}

/// Subtracts `b` (of the same length) entrywise from `a`.
pub fn sub_eval_domain(a: &mut [Fr], b: &[Fr])
    requires
        old(a)@.len() == b@.len(),
    ensures
        final(a)@.len() == old(a)@.len(),
        vals(final(a)@) == pointwise_sub(vals(old(a)@), vals(b@)),
{
    let ghost orig = vals(a@);
    let mut i: usize = 0;
    while i < a.len()
        invariant
            a@.len() == orig.len(),
            a@.len() == b@.len(),
            i <= a@.len(),
            forall|j: int|
                #![trigger a@[j]]
                0 <= j < a@.len() ==> a@[j].val() == if j < i {
                    sub_mod(orig[j], b@[j].val() as int)
                } else {
                    orig[j]
                },
        decreases a@.len() - i,
    {
        a[i] = fr_sub(&a[i], &b[i]);
        i = i + 1;
    }
    assert(vals(a@) =~= pointwise_sub(orig, vals(b@)));
}

/// Adds `b` entrywise to `a`; the two have the same length.
pub fn add_coefficient_domain(a: &mut Vec<Fr>, b: &Vec<Fr>)
    requires
        old(a)@.len() == b@.len(),
    ensures
        final(a)@.len() == old(a)@.len(),
        vals(final(a)@) == pointwise_add(vals(old(a)@), vals(b@)),
{
    let ghost orig = vals(a@);
    let mut i: usize = 0;
    while i < a.len()
        invariant
            a@.len() == orig.len(),
            a@.len() == b@.len(),
            i <= a@.len(),
            forall|j: int|
                #![trigger a@[j]]
                0 <= j < a@.len() ==> a@[j].val() == if j < i {
                    add_mod(orig[j], b@[j].val() as int)
                } else {
                    orig[j]
                },
        decreases a@.len() - i,
    {
        let x = fr_add(&a[i], &b[i]);
        a.set(i, x);
        i = i + 1;
    }
    assert(vals(a@) =~= pointwise_add(orig, vals(b@)));
}

/// Extends `a` with zeros to length `m`.
fn pad(a: &mut Vec<Fr>, m: usize)
    requires
        old(a)@.len() <= m,
    ensures
        final(a)@.len() == m,
        vals(final(a)@) == padded(vals(old(a)@), m as nat),
{
    let ghost orig = vals(a@);
    while a.len() < m
        invariant
            orig.len() <= a@.len() <= m,
            forall|j: int|
                #![trigger a@[j]]
                0 <= j < a@.len() ==> a@[j].val() == if j < orig.len() {
                    orig[j]
                } else {
                    0
                },
        decreases m - a@.len(),
    {
        a.push(fr_zero());
    }
    assert(vals(a@) =~= padded(orig, m as nat));
}

/// Multiplies the polynomials with coefficients `a` and `b` in point-value
/// form: both are padded to the domain for `a.len() + b.len()` points and
/// transformed; `b` is left transformed and `a` becomes the entrywise
/// product, the product polynomial's evaluations.
pub fn multiply_coefficient_domain(a: &mut Vec<Fr>, b: &mut Vec<Fr>)
    requires
        old(a)@.len() + old(b)@.len() <= pow2(two_adicity()),
        old(a)@.len() + old(b)@.len() <= usize::MAX / 2,
    ensures
        ({
            let k = domain_exp((old(a)@.len() + old(b)@.len()) as nat);
            let m = pow2(k);
            &&& vals(final(b)@) == fft_spec(padded(vals(old(b)@), m), domain_root(k), k)
            &&& vals(final(a)@) == pointwise_mul(
                fft_spec(padded(vals(old(a)@), m), domain_root(k), k),
                vals(final(b)@),
            )
        }),
{
    let (omega, m, exp) = fft_params(a.len() + b.len());
    proof {
        lemma_domain_exp_least((a@.len() + b@.len()) as nat, exp as nat);
    }
    assert(a@.len() <= m && b@.len() <= m) by {
        lemma_pow2_pos(exp as nat);
        assert(pow2(exp as nat) >= a@.len() + b@.len()) by {
            lemma_domain_exp_covers((a@.len() + b@.len()) as nat);
        }
    }
    pad(a, m);
    pad(b, m);
    fft(a.as_mut_slice(), &omega, exp);
    fft(b.as_mut_slice(), &omega, exp);
    mul_eval_domain(a.as_mut_slice(), b.as_slice());
}

proof fn lemma_domain_exp_covers(l: nat)
    ensures
        pow2(domain_exp(l)) >= l,
    decreases l,
{
    lemma2_to64();
    if l > 1 {
        let h = ((l + 1) / 2) as nat;
        lemma_domain_exp_covers(h);
        lemma_pow2_unfold(domain_exp(l));
    }
}

} // verus!
