//! Groth16 proof creation from the parameters, the witness, the QAP and two
//! blinding scalars.
use crate::curve::{
    g1_add, g1_diff, g1_identity, g1_identity_enc, g1_mul, g1_scaled, g1_sub, g1_sum, g2_add,
    g2_identity, g2_identity_enc, g2_mul, g2_scaled, g2_sum, G1, G2,
};
use crate::fft::{
    coset_fft, coset_fft_spec, domain_exp, domain_root, fft_params, icoset_fft, icoset_fft_spec,
    ifft, ifft_spec, mul_eval_domain, pointwise_mul, pointwise_sub, scale_all, scaled,
    sub_eval_domain, vals,
};
use crate::field::{
    add_mod, fr_add, fr_generator, fr_invert, fr_mul, fr_one, fr_pow, fr_sub, fr_zero, inv_mod,
    mul_mod, pow_mod, sub_mod, two_adicity, Fr,
};
use crate::{Parameters, Proof, ProvingError, QAP};
use vstd::arithmetic::power2::pow2;
use vstd::prelude::*;

verus! {

/// `Σ scalars[i]·points[i]` over `i < n`, added from the left to the identity.
pub open spec fn msm_g1(points: Seq<G1>, scalars: Seq<int>, n: nat) -> Seq<u8>
    decreases n,
{
    if n == 0 {
        g1_identity_enc()
    } else {
        g1_sum(
            msm_g1(points, scalars, (n - 1) as nat),
            g1_scaled(points[n - 1]@, scalars[n - 1] as nat),
        )
    }
}

/// As `msm_g1`, in G2.
pub open spec fn msm_g2(points: Seq<G2>, scalars: Seq<int>, n: nat) -> Seq<u8>
    decreases n,
{
    if n == 0 {
        g2_identity_enc()
    } else {
        g2_sum(
            msm_g2(points, scalars, (n - 1) as nat),
            g2_scaled(points[n - 1]@, scalars[n - 1] as nat),
        )
    }
}

/// The witness entries at the given indices.
pub open spec fn selected(w: Seq<int>, idx: Seq<usize>) -> Seq<int> {
    Seq::new(idx.len(), |i: int| w[idx[i] as int])
}

/// `out` with `c·x` added at slot `u` for every `(c, u)` of `col`, in order.
pub open spec fn add_entries(out: Seq<int>, col: Seq<(Fr, usize)>, x: int) -> Seq<int>
    decreases col.len(),
{
    if col.len() == 0 {
        out
    } else {
        let o = add_entries(out, col.drop_last(), x);
        let (c, u) = col.last();
        o.update(u as int, add_mod(o[u as int], mul_mod(c.val() as int, x)))
    }
}

/// The length-`m` vector whose slot `u` accumulates coefficient times
/// witness value for every entry of the first `n` columns recorded against
/// constraint `u`.
pub open spec fn evaluate(cols: Seq<Vec<(Fr, usize)>>, w: Seq<int>, m: nat, n: nat) -> Seq<int>
    decreases n,
{
    if n == 0 {
        Seq::new(m, |i: int| 0)
    } else {
        add_entries(evaluate(cols, w, m, (n - 1) as nat), cols[n - 1]@, w[n - 1])
    }
}

/// Every column of `cols` (there are `n`) names constraints below `m` only.
pub open spec fn columns_fit(cols: Seq<Vec<(Fr, usize)>>, n: nat, m: nat) -> bool {
    &&& cols.len() == n
    &&& forall|g: int, e: int|
        0 <= g < n && 0 <= e < cols[g]@.len() ==> (#[trigger] cols[g]@[e]).1 < m
}

/// Every index is below `n`.
pub open spec fn indices_below(idx: Seq<usize>, n: nat) -> bool {
    forall|i: int| 0 <= i < idx.len() ==> #[trigger] idx[i] < n
}

/// The lengths and indices among parameters, witness and QAP agree.
pub open spec fn shapes_fit(
    params: Parameters,
    inputs: Seq<Fr>,
    aux: Seq<Fr>,
    qap: QAP,
    num_constraints: nat,
) -> bool {
    let n = inputs.len() + aux.len();
    let m = pow2(domain_exp(num_constraints));
    &&& n <= usize::MAX
    &&& num_constraints <= pow2(two_adicity())
    &&& num_constraints <= usize::MAX / 2
    &&& columns_fit(qap.a@, n, m)
    &&& columns_fit(qap.b@, n, m)
    &&& columns_fit(qap.c@, n, m)
    &&& params.h@.len() == m - 1
    &&& params.l@.len() == aux.len()
    &&& params.a_g1@.len() == qap.a_constraints@.len()
    &&& params.b_g1@.len() == qap.b_constraints@.len()
    &&& params.b_g2@.len() == qap.b_constraints@.len()
    &&& indices_below(qap.a_constraints@, n)
    &&& indices_below(qap.b_constraints@, n)
}

/// The coset `7·D` of the domain `D` of size `2^k` avoids the domain's own
/// points, and `D`'s root of unity is invertible; `fft_params` shows both
/// for every `k < two_adicity()`.
pub open spec fn domain_invertible(k: nat) -> bool {
    &&& domain_root(k) != 0
    &&& sub_mod(pow_mod(7, pow2(k)), 1) != 0
}

/// The coefficients of `H = (A·B - C) / Z` below the top one, from the
/// evaluations `at`, `bt`, `ct` of A, B, C on the domain of size `2^k`:
/// each is interpolated and evaluated on the coset, where `Z` is the
/// constant `7^m - 1`, and the result interpolated back from the coset.
pub open spec fn quotient(at: Seq<int>, bt: Seq<int>, ct: Seq<int>, k: nat) -> Seq<int> {
    let omega = domain_root(k);
    let m = pow2(k);
    let ab = pointwise_mul(
        coset_fft_spec(ifft_spec(at, omega, k), omega, k),
        coset_fft_spec(ifft_spec(bt, omega, k), omega, k),
    );
    let c = coset_fft_spec(ifft_spec(ct, omega, k), omega, k);
    let zinv = inv_mod(sub_mod(pow_mod(7, m), 1));
    let h = icoset_fft_spec(scaled(pointwise_sub(ab, c), zinv), omega, k);
    h.subrange(0, m - 1)
}

/// The quotient coefficients for the witness `inputs ++ aux`.
pub open spec fn quotient_of(qap: QAP, w: Seq<int>, num_constraints: nat) -> Seq<int> {
    let k = domain_exp(num_constraints);
    let m = pow2(k);
    let n = w.len();
    quotient(
        evaluate(qap.a@, w, m, n),
        evaluate(qap.b@, w, m, n),
        evaluate(qap.c@, w, m, n),
        k,
    )
}

/// `A = alpha_g1 + at_g1 + r·delta_g1`.
pub open spec fn proof_a(params: Parameters, w: Seq<int>, qap: QAP, r: Fr) -> Seq<u8> {
    let at = msm_g1(
        params.a_g1@,
        selected(w, qap.a_constraints@),
        qap.a_constraints@.len(),
    );
    g1_sum(g1_sum(params.vk.alpha_g1@, at), g1_scaled(params.vk.delta_g1@, r.val()))
}

/// `B = beta_g2 + bt_g2 + s·delta_g2`.
pub open spec fn proof_b(params: Parameters, w: Seq<int>, qap: QAP, s: Fr) -> Seq<u8> {
    let bt = msm_g2(
        params.b_g2@,
        selected(w, qap.b_constraints@),
        qap.b_constraints@.len(),
    );
    g2_sum(g2_sum(params.vk.beta_g2@, bt), g2_scaled(params.vk.delta_g2@, s.val()))
}

/// `C = r·(bt_g1 + s·delta_g1 + beta_g1) + h_term + l_term + s·A - (r·s)·delta_g1`.
pub open spec fn proof_c(
    params: Parameters,
    inputs: Seq<Fr>,
    aux: Seq<Fr>,
    r: Fr,
    s: Fr,
    qap: QAP,
    num_constraints: nat,
) -> Seq<u8> {
    let w = vals(inputs + aux);
    let bt = msm_g1(
        params.b_g1@,
        selected(w, qap.b_constraints@),
        qap.b_constraints@.len(),
    );
    let hq = quotient_of(qap, w, num_constraints);
    let h = msm_g1(params.h@, hq, hq.len());
    let l = msm_g1(params.l@, vals(aux), aux.len());
    let a = proof_a(params, w, qap, r);
    let d = params.vk.delta_g1@;
    let blinded = g1_scaled(
        g1_sum(g1_sum(bt, g1_scaled(d, s.val())), params.vk.beta_g1@),
        r.val(),
    );
    g1_diff(
        g1_sum(g1_sum(g1_sum(blinded, h), l), g1_scaled(a, s.val())),
        g1_scaled(d, mul_mod(r.val() as int, s.val() as int) as nat),
    )
}

fn check_columns(cols: &Vec<Vec<(Fr, usize)>>, n: usize, m: usize) -> (r: bool)
    ensures
        r == columns_fit(cols@, n as nat, m as nat),
{
    if cols.len() != n {
        return false;
    }
    let mut g: usize = 0;
    while g < n
        invariant
            cols@.len() == n,
            g <= n,
            forall|h: int, e: int|
                0 <= h < g && 0 <= e < cols@[h]@.len() ==> (#[trigger] cols@[h]@[e]).1 < m,
        decreases n - g,
    {
        let col = &cols[g];
        let mut e: usize = 0;
        while e < col.len()
            invariant
                cols@.len() == n,
                g < n,
                *col == cols@[g as int],
                e <= col@.len(),
                forall|h: int, f: int|
                    0 <= h < g && 0 <= f < cols@[h]@.len() ==> (#[trigger] cols@[h]@[f]).1 < m,
                forall|f: int| 0 <= f < e ==> (#[trigger] col@[f]).1 < m,
            decreases col@.len() - e,
        {
            if col[e].1 >= m {
                return false;
            }
            e = e + 1;
        }
        g = g + 1;
    }
    true
}

fn check_indices(idx: &Vec<usize>, n: usize) -> (r: bool)
    ensures
        r == indices_below(idx@, n as nat),
{
    let mut i: usize = 0;
    while i < idx.len()
        invariant
            i <= idx@.len(),
            forall|j: int| 0 <= j < i ==> #[trigger] idx@[j] < n,
        decreases idx@.len() - i,
    {
        if idx[i] >= n {
            return false;
        }
        i = i + 1;
    }
    true
}

/// The vector of length `m` that `evaluate` describes for all columns.
fn eval(w: &Vec<Fr>, cols: &Vec<Vec<(Fr, usize)>>, m: usize) -> (out: Vec<Fr>)
    requires
        columns_fit(cols@, w@.len(), m as nat),
    ensures
        out@.len() == m,
        vals(out@) == evaluate(cols@, vals(w@), m as nat, w@.len()),
{
    let ghost vw = vals(w@);
    let mut out: Vec<Fr> = Vec::new();
    while out.len() < m
        invariant
            out@.len() <= m,
            forall|i: int| 0 <= i < out@.len() ==> (#[trigger] out@[i]).val() == 0,
        decreases m - out@.len(),
    {
        out.push(fr_zero());
    }
    assert(vals(out@) =~= evaluate(cols@, vw, m as nat, 0));
    let mut g: usize = 0;
    while g < w.len()
        invariant
            columns_fit(cols@, w@.len(), m as nat),
            vw == vals(w@),
            g <= w@.len(),
            out@.len() == m,
            vals(out@) == evaluate(cols@, vw, m as nat, g as nat),
        decreases w@.len() - g,
    {
        let col = &cols[g];
        let x = w[g];
        let ghost base = evaluate(cols@, vw, m as nat, g as nat);
        let mut e: usize = 0;
        proof {
            assert(col@.subrange(0, 0) =~= Seq::<(Fr, usize)>::empty());
        }
        while e < col.len()
            invariant
                columns_fit(cols@, w@.len(), m as nat),
                g < w@.len(),
                *col == cols@[g as int],
                x == w@[g as int],
                vw == vals(w@),
                e <= col@.len(),
                out@.len() == m,
                vals(out@) == add_entries(base, col@.subrange(0, e as int), vw[g as int]),
            decreases col@.len() - e,
        {
            let (c, u) = col[e];
            assert(col@[e as int].1 < m);
            let t = fr_mul(&c, &x);
            let v = fr_add(&out[u], &t);
            let ghost before = vals(out@);
            out.set(u, v);
            proof {
                assert(col@.subrange(0, e + 1).drop_last() =~= col@.subrange(0, e as int));
                assert(vals(out@) =~= before.update(u as int, add_mod(before[u as int], mul_mod(c.val() as int, vw[g as int]))));
            }
            e = e + 1;
        }
        proof {
            assert(col@.subrange(0, e as int) =~= cols@[g as int]@);
        }
        g = g + 1;
    }
    out
}

/// The entries of `w` at the indices `idx`.
fn select(w: &Vec<Fr>, idx: &Vec<usize>) -> (r: Vec<Fr>)
    requires
        indices_below(idx@, w@.len()),
    ensures
        r@.len() == idx@.len(),
        vals(r@) == selected(vals(w@), idx@),
{
    let mut r: Vec<Fr> = Vec::new();
    let mut i: usize = 0;
    while i < idx.len()
        invariant
            indices_below(idx@, w@.len()),
            i <= idx@.len(),
            r@.len() == i,
            forall|j: int| 0 <= j < i ==> (#[trigger] r@[j]).val() == w@[idx@[j] as int].val(),
        decreases idx@.len() - i,
    {
        assert(idx@[i as int] < w@.len());
        r.push(w[idx[i]]);
        i = i + 1;
    }
    assert(vals(r@) =~= selected(vals(w@), idx@));
    r
}

/// Multi-scalar multiplication in G1.
fn msm1(points: &[G1], scalars: &[Fr]) -> (r: G1)
    requires
        points@.len() == scalars@.len(),
    ensures
        r@ == msm_g1(points@, vals(scalars@), points@.len()),
{
    let mut acc = g1_identity();
    let mut i: usize = 0;
    while i < points.len()
        invariant
            points@.len() == scalars@.len(),
            i <= points@.len(),
            acc@ == msm_g1(points@, vals(scalars@), i as nat),
        decreases points@.len() - i,
    {
        let t = g1_mul(&points[i], &scalars[i]);
        acc = g1_add(&acc, &t);
        i = i + 1;
    }
    acc
}

/// Multi-scalar multiplication in G2.
fn msm2(points: &[G2], scalars: &[Fr]) -> (r: G2)
    requires
        points@.len() == scalars@.len(),
    ensures
        r@ == msm_g2(points@, vals(scalars@), points@.len()),
{
    let mut acc = g2_identity();
    let mut i: usize = 0;
    while i < points.len()
        invariant
            points@.len() == scalars@.len(),
            i <= points@.len(),
            acc@ == msm_g2(points@, vals(scalars@), i as nat),
        decreases points@.len() - i,
    {
        let t = g2_mul(&points[i], &scalars[i]);
        acc = g2_add(&acc, &t);
        i = i + 1;
    }
    acc
}

/// Creates a proof for the witness `inputs` (the constant one first) and
/// `aux`, blinded by `r` and `s`, with `num_constraints` the constraint
/// count of the QAP. Fails before any group operation when the shapes of
/// parameters, witness and QAP disagree.
pub fn create_proof(
    params: Parameters,
    inputs: &[Fr],
    aux: &[Fr],
    r: Fr,
    s: Fr,
    qap: QAP,
    num_constraints: usize,
) -> (res: Result<Proof, ProvingError>)
    ensures
        !shapes_fit(params, inputs@, aux@, qap, num_constraints as nat) ==> res == Err::<
            Proof,
            _,
        >(ProvingError::ShapeMismatch),
        shapes_fit(params, inputs@, aux@, qap, num_constraints as nat) && !domain_invertible(
            domain_exp(num_constraints as nat),
        ) ==> res == Err::<Proof, _>(ProvingError::DivisionByZero),
        shapes_fit(params, inputs@, aux@, qap, num_constraints as nat) && domain_exp(
            num_constraints as nat,
        ) < two_adicity() ==> res is Ok,
        shapes_fit(params, inputs@, aux@, qap, num_constraints as nat) && domain_invertible(
            domain_exp(num_constraints as nat),
        ) ==> res is Ok && is_proof_for(
            res.unwrap(),
            params,
            inputs@,
            aux@,
            r,
            s,
            qap,
            num_constraints as nat,
        ),
{
    let ghost nc = num_constraints as nat;
    let p = inputs.len();
    let q = aux.len();
    proof {
        vstd::arithmetic::power2::lemma2_to64();
    }
    if p > usize::MAX - q || num_constraints as u64 > 0x1_0000_0000u64 || num_constraints > usize::MAX / 2 {
        return Err(ProvingError::ShapeMismatch);
    }
    let n = p + q;
    let (omega, m, exp) = fft_params(num_constraints);
    proof {
        vstd::arithmetic::power2::lemma_pow2_pos(exp as nat);
    }
    if !check_columns(&qap.a, n, m) || !check_columns(&qap.b, n, m) || !check_columns(
        &qap.c,
        n,
        m,
    ) {
        return Err(ProvingError::ShapeMismatch);
    }
    if params.h.len() != m - 1 || params.l.len() != q || params.a_g1.len()
        != qap.a_constraints.len() || params.b_g1.len() != qap.b_constraints.len()
        || params.b_g2.len() != qap.b_constraints.len() {
        return Err(ProvingError::ShapeMismatch);
    }
    if !check_indices(&qap.a_constraints, n) || !check_indices(&qap.b_constraints, n) {
        return Err(ProvingError::ShapeMismatch);
    }
    if omega.is_zero() {
        return Err(ProvingError::DivisionByZero);
    }
    let g = fr_generator();
    let gm = fr_pow(&g, m as u64);
    let z = fr_sub(&gm, &fr_one());
    let zinv = match fr_invert(&z) {
        Some(v) => v,
        None => {
            return Err(ProvingError::DivisionByZero);
        },
    };

    // The augmented witness: public values, then private ones.
    let mut w: Vec<Fr> = Vec::new();
    let mut i: usize = 0;
    while i < p
        invariant
            i <= p,
            p == inputs@.len(),
            w@ == inputs@.subrange(0, i as int),
        decreases p - i,
    {
        w.push(inputs[i]);
        i = i + 1;
    }
    let mut i: usize = 0;
    while i < q
        invariant
            i <= q,
            q == aux@.len(),
            p == inputs@.len(),
            w@ == inputs@ + aux@.subrange(0, i as int),
        decreases q - i,
    {
        w.push(aux[i]);
        i = i + 1;
    }
    assert(w@ =~= inputs@ + aux@);

    // The quotient polynomial H = (A·B - C) / Z.
    let mut at = eval(&w, &qap.a, m);
    let mut bt = eval(&w, &qap.b, m);
    let mut ct = eval(&w, &qap.c, m);
    ifft(at.as_mut_slice(), &omega, exp);
    coset_fft(at.as_mut_slice(), &omega, exp);
    ifft(bt.as_mut_slice(), &omega, exp);
    coset_fft(bt.as_mut_slice(), &omega, exp);
    mul_eval_domain(at.as_mut_slice(), bt.as_slice());
    ifft(ct.as_mut_slice(), &omega, exp);
    coset_fft(ct.as_mut_slice(), &omega, exp);
    sub_eval_domain(at.as_mut_slice(), ct.as_slice());
    scale_all(at.as_mut_slice(), &zinv);
    icoset_fft(at.as_mut_slice(), &omega, exp);
    let ghost full = vals(at@);
    at.truncate(m - 1);
    assert(vals(at@) =~= full.subrange(0, m - 1));

    let h = msm1(params.h.as_slice(), at.as_slice());
    let l = msm1(params.l.as_slice(), aux);
    let a_sel = select(&w, &qap.a_constraints);
    let b_sel = select(&w, &qap.b_constraints);
    let at_g1 = msm1(params.a_g1.as_slice(), a_sel.as_slice());
    let bt_g1 = msm1(params.b_g1.as_slice(), b_sel.as_slice());
    let bt_g2 = msm2(params.b_g2.as_slice(), b_sel.as_slice());

    let vk = &params.vk;
    let a = g1_add(&g1_add(&vk.alpha_g1, &at_g1), &g1_mul(&vk.delta_g1, &r));
    let b = g2_add(&g2_add(&vk.beta_g2, &bt_g2), &g2_mul(&vk.delta_g2, &s));
    let mut c = g1_add(&bt_g1, &g1_mul(&vk.delta_g1, &s));
    c = g1_add(&c, &vk.beta_g1);
    c = g1_mul(&c, &r);
    c = g1_add(&c, &h);
    c = g1_add(&c, &l);
    c = g1_add(&c, &g1_mul(&a, &s));
    c = g1_sub(&c, &g1_mul(&vk.delta_g1, &fr_mul(&r, &s)));
    Ok(Proof { a, b, c })
}

/// Whether `proof` is the one `create_proof` makes from these arguments.
pub open spec fn is_proof_for(
    proof: Proof,
    params: Parameters,
    inputs: Seq<Fr>,
    aux: Seq<Fr>,
    r: Fr,
    s: Fr,
    qap: QAP,
    num_constraints: nat,
) -> bool {
    let w = vals(inputs + aux);
    &&& proof.a@ == proof_a(params, w, qap, r)
    &&& proof.b@ == proof_b(params, w, qap, s)
    &&& proof.c@ == proof_c(params, inputs, aux, r, s, qap, num_constraints)
}

/// Proving is deterministic: two proofs made from the same parameters,
/// witness, QAP, constraint count and blinding scalars have the same
/// encodings.
pub proof fn lemma_proof_deterministic(
    params: Parameters,
    inputs: Seq<Fr>,
    aux: Seq<Fr>,
    r: Fr,
    s: Fr,
    qap: QAP,
    num_constraints: nat,
    first: Proof,
    second: Proof,
)
    requires
        is_proof_for(first, params, inputs, aux, r, s, qap, num_constraints),
        is_proof_for(second, params, inputs, aux, r, s, qap, num_constraints),
    ensures
        first.a@ == second.a@,
        first.b@ == second.b@,
        first.c@ == second.c@,
{
}

} // verus!
