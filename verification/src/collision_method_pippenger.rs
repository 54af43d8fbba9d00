use vstd::prelude::*;
use vstd::arithmetic::div_mod::{
    lemma_breakdown, lemma_div_denominator, lemma_fundamental_div_mod, lemma_mod_bound,
    lemma_small_mod,
};
use vstd::arithmetic::power2::{lemma2_to64, lemma_pow2_adds, lemma_pow2_pos, lemma_pow2_unfold, pow2};

use crate::bucket_msm::{total_weight, BucketMSM};
use crate::curve::{
    affine_index, decompose, gmod, group_order, in_g1, in_g1_proj, point_get, proj_index,
    G1AffinePoint, G1ProjectivePoint,
};
use crate::scalar::Scalar;
use crate::types::{MsmError, G1_SCALAR_SIZE_GLV};

verus! {

/// Magnitude of an encoded windowed digit: its low 31 bits.
pub open spec fn digit_mag(d: u32) -> nat {
    (d & 0x7FFF_FFFFu32) as nat
}

/// Sign of an encoded windowed digit: bit 31 marks "negate the point".
pub open spec fn digit_neg(d: u32) -> bool {
    d & 0x8000_0000u32 != 0
}

/// The signed integer an encoded windowed digit stands for.
pub open spec fn digit_val(d: u32) -> int {
    if digit_neg(d) {
        -(digit_mag(d) as int)
    } else {
        digit_mag(d) as int
    }
}

/// The integer a digit sequence stands for: digit `i` is weighted by
/// `2^(i * w)`.
pub open spec fn slices_val(s: Seq<u32>, w: nat) -> int
    decreases s.len(),
{
    if s.len() == 0 {
        0
    } else {
        slices_val(s.drop_last(), w) + digit_val(s.last()) * pow2(((s.len() - 1) as nat) * w)
    }
}

/// Raw (unsigned) digit `i` of `x` under window width `w`.
pub open spec fn raw_digit(x: nat, w: nat, i: nat) -> nat {
    (x / pow2(i * w)) % pow2(w)
}

/// Carry held after the signed re-encoding has processed digits `0..i`.
pub open spec fn carry_after(x: nat, w: nat, i: nat) -> nat
    decreases i,
{
    if i == 0 {
        0
    } else if raw_digit(x, w, (i - 1) as nat) + carry_after(x, w, (i - 1) as nat) > pow2(w) / 2 {
        1
    } else {
        0
    }
}

/// The encoded signed-bucket digit `i` of `x`: the raw digit plus the
/// incoming carry, kept as it stands when at most half the window total, and
/// otherwise replaced by its complement with the sign tag set in bit 31.
pub open spec fn recoded_digit(x: nat, w: nat, i: nat) -> u32 {
    let t = raw_digit(x, w, i) + carry_after(x, w, i);
    if t > pow2(w) / 2 {
        ((pow2(w) - t) as u32) | 0x8000_0000u32
    } else {
        t as u32
    }
}

/// A scalar of value `x` can be sliced into `n` signed digits of width `w`:
/// the window width is legal, the scalar fits in the windows, and the signed
/// re-encoding ends with no carry left over.
pub open spec fn slice_ok(x: nat, w: nat, n: nat) -> bool {
    &&& 1 <= w <= 31
    &&& x < pow2(n * w)
    &&& carry_after(x, w, n) == 0
}

/// Decomposes `scalar` into `slices.len()` windowed digits of `window_bits`
/// bits each, then rewrites them left-to-right into signed-bucket form with
/// magnitudes at most `2^(window_bits-1)`, tagging negated digits in bit 31.
///
/// Returns `ConfigurationError` exactly when the window width is outside
/// `1..=31`, the scalar does not fit in the windows, or the re-encoding ends
/// with a non-zero carry; on success the signed digits decode to the scalar.
pub fn msm_slice(scalar: Scalar, slices: &mut Vec<u32>, window_bits: u32) -> (res: Result<
    (),
    MsmError,
>)
    ensures
        final(slices)@.len() == old(slices)@.len(),
        res is Ok <==> slice_ok(scalar.value(), window_bits as nat, old(slices)@.len() as nat),
        res is Err ==> res == Err::<(), MsmError>(MsmError::ConfigurationError),
        res is Ok ==> slices_val(final(slices)@, window_bits as nat) == scalar.value(),
        res is Ok ==> forall|j: int|
            0 <= j < final(slices)@.len() ==> digit_mag(final(slices)@[j]) <= pow2(
                (window_bits - 1) as nat,
            ),
        res is Ok ==> forall|j: int|
            0 <= j < final(slices)@.len() ==> final(slices)@[j] == recoded_digit(
                scalar.value(),
                window_bits as nat,
                j as nat,
            ),
{
    let n = slices.len();
    if window_bits < 1 || window_bits > 31 {
        return Err(MsmError::ConfigurationError);
    }
    let ghost x = scalar.value();
    let ghost w = window_bits as nat;
    proof {
        vstd::bits::lemma_u64_pow2_no_overflow(w);
        vstd::bits::lemma_u64_shl_is_mul(1u64, window_bits as u64);
        lemma_pow2_pos(w);
        lemma2_to64();
    }
    let mask64: u64 = (1u64 << window_bits) - 1;
    proof {
        assert(mask64 == vstd::bits::low_bits_mask(w));
        assert(x / pow2((0 as nat) * w) == x) by {
            assert((0 as nat) * w == 0);
            assert(pow2(0) == 1);
        }
    }
    let mut temp = scalar;
    let mut i: usize = 0;
    while i < n
        invariant
            i <= n,
            slices@.len() == n,
            1 <= window_bits <= 31,
            w == window_bits as nat,
            x == scalar.value(),
            mask64 == vstd::bits::low_bits_mask(w),
            pow2(w) <= 0x8000_0000,
            temp.value() == x / pow2((i as nat) * w),
            forall|j: int| 0 <= j < i ==> slices@[j] == raw_digit(x, w, j as nat),
        decreases n - i,
    {
        proof {
            lemma_pow2_pos(w);
            lemma_pow2_pos((i as nat) * w);
        }
        let d64: u64 = temp.limbs[0] & mask64;
        proof {
            vstd::bits::lemma_u64_low_bits_mask_is_mod(temp.limbs[0], w);
            vstd::bits::lemma_u64_pow2_no_overflow(w);
            temp.lemma_low_window(w);
            assert(d64 == temp.value() % pow2(w));
            assert(d64 == raw_digit(x, w, i as nat));
            lemma_mod_bound(temp.value() as int, pow2(w) as int);
        }
        slices.set(i, d64 as u32);
        temp = temp.shr_window(window_bits);
        proof {
            lemma_div_denominator(x as int, pow2((i as nat) * w) as int, pow2(w) as int);
            lemma_pow2_adds((i as nat) * w, w);
            assert(((i + 1) as nat) * w == (i as nat) * w + w) by (nonlinear_arith);
            assert(temp.value() == x / pow2(((i + 1) as nat) * w));
        }
        i += 1;
    }
    if !temp.is_zero() {
        proof {
            // a non-zero shifted remainder means the scalar overflows n windows
            lemma_pow2_pos((n as nat) * w);
            lemma_fundamental_div_mod(x as int, pow2((n as nat) * w) as int);
            assert(x >= pow2((n as nat) * w)) by (nonlinear_arith)
                requires
                    x / pow2((n as nat) * w) >= 1,
                    pow2((n as nat) * w) > 0,
                    x == pow2((n as nat) * w) * (x as int / pow2((n as nat) * w) as int) + x as int
                        % pow2((n as nat) * w) as int,
                    x as int % pow2((n as nat) * w) as int >= 0,
            ;
        }
        return Err(MsmError::ConfigurationError);
    }
    proof {
        lemma_pow2_pos((n as nat) * w);
        assert(temp.value() == 0);
        assert(i == n);
        assert(x / pow2((n as nat) * w) == 0);
        lemma_fundamental_div_mod(x as int, pow2((n as nat) * w) as int);
        lemma_mod_bound(x as int, pow2((n as nat) * w) as int);
        assert(x as int == pow2((n as nat) * w) as int * (x as int / pow2((n as nat) * w) as int)
            + x as int % pow2((n as nat) * w) as int);
        assert(x as int / pow2((n as nat) * w) as int == 0);
        assert(pow2((n as nat) * w) as int * (x as int / pow2((n as nat) * w) as int) == 0)
            by (nonlinear_arith)
            requires
                x as int / pow2((n as nat) * w) as int == 0,
        ;
        assert(x < pow2((n as nat) * w));
    }
    let total: u32 = 1u32 << window_bits;
    proof {
        vstd::bits::lemma_u32_pow2_no_overflow(w);
        vstd::bits::lemma_u32_shl_is_mul(1u32, window_bits);
        assert(total == pow2(w));
    }
    let half: u32 = total >> 1;
    proof {
        vstd::bits::lemma_u32_shr_is_div(total, 1u32);
        lemma_pow2_unfold(w);
        assert(half == pow2(w) / 2);
        assert(half == pow2((w - 1) as nat)) by {
            assert(pow2(w) == 2 * pow2((w - 1) as nat));
        }
    }
    let mut carry: u32 = 0;
    let mut i: usize = 0;
    while i < n
        invariant
            i <= n,
            slices@.len() == n,
            1 <= window_bits <= 31,
            w == window_bits as nat,
            x == scalar.value(),
            x < pow2((n as nat) * w),
            total == pow2(w),
            total == 2 * half,
            half == pow2((w - 1) as nat),
            half == pow2(w) / 2,
            pow2(w) <= 0x8000_0000,
            carry <= 1,
            carry == carry_after(x, w, i as nat),
            slices_val(slices@.subrange(0, i as int), w) + carry * pow2((i as nat) * w) == x
                % pow2((i as nat) * w),
            forall|j: int| i <= j < n ==> slices@[j] == raw_digit(x, w, j as nat),
            forall|j: int| 0 <= j < i ==> digit_mag(slices@[j]) <= pow2((w - 1) as nat),
            forall|j: int| 0 <= j < i ==> slices@[j] == recoded_digit(x, w, j as nat),
        decreases n - i,
    {
        proof {
            lemma_pow2_pos(w);
            lemma_pow2_pos((i as nat) * w);
            lemma_mod_bound((x / pow2((i as nat) * w)) as int, pow2(w) as int);
            assert(slices@[i as int] == raw_digit(x, w, i as nat));
            assert(slices@[i as int] < pow2(w));
        }
        let d: u32 = slices[i] + carry;
        let ghost old_slices = slices@;
        let ghost raw = raw_digit(x, w, i as nat);
        let ghost c_in = carry as nat;
        if d > half {
            slices.set(i, (total - d) | 0x8000_0000u32);
            carry = 1;
        } else {
            slices.set(i, d);
            carry = 0;
        }
        proof {
            let e = slices@[i as int];
            let a = pow2((i as nat) * w) as int;
            let b = pow2(((i + 1) as nat) * w) as int;
            // digit encoding facts
            if d > half {
                let m = (total - d) as u32;
                assert(m < half);
                assert(m | 0x8000_0000u32 == e);
                assert((m | 0x8000_0000u32) & 0x7FFF_FFFFu32 == m && (m | 0x8000_0000u32)
                    & 0x8000_0000u32 != 0) by (bit_vector)
                    requires
                        m < 0x4000_0000u32,
                ;
                assert(digit_val(e) == d - total);
            } else {
                assert(d & 0x7FFF_FFFFu32 == d && d & 0x8000_0000u32 == 0) by (bit_vector)
                    requires
                        d <= 0x4000_0000u32,
                ;
                assert(digit_val(e) == d);
            }
            // prefix bookkeeping
            let p_old = old_slices.subrange(0, i as int);
            let p_new = slices@.subrange(0, i as int);
            let p_ext = slices@.subrange(0, i as int + 1);
            assert(p_new =~= p_old);
            assert(p_ext.drop_last() =~= p_new);
            assert(p_ext.last() == e);
            assert(slices_val(p_ext, w) == slices_val(p_new, w) + digit_val(e) * a);
            // split the next slice of x
            lemma_breakdown(x as int, pow2((i as nat) * w) as int, pow2(w) as int);
            lemma_pow2_adds((i as nat) * w, w);
            assert(((i + 1) as nat) * w == (i as nat) * w + w) by (nonlinear_arith);
            assert(x as int % b == a * raw + x as int % a);
            assert(a * raw == raw * a) by (nonlinear_arith);
            // carry chain
            assert(carry_after(x, w, (i + 1) as nat) == if raw + c_in > pow2(w) / 2 {
                1nat
            } else {
                0nat
            });
            assert(d == raw + c_in);
            // the stored digit is exactly the specified re-encoding
            if d > half {
                assert(pow2(w) - (raw + c_in) == (total - d) as int);
                assert(((pow2(w) - (raw + c_in)) as u32) == total - d);
                assert(e == recoded_digit(x, w, i as nat));
            } else {
                assert(((raw + c_in) as u32) == d);
                assert(e == recoded_digit(x, w, i as nat));
            }
            assert(slices_val(p_new, w) == x as int % a - c_in * a);
            if d > half {
                assert(b == a * pow2(w));
                assert(a * pow2(w) == pow2(w) * a) by (nonlinear_arith);
                assert(digit_val(e) * a == (raw + c_in - pow2(w)) * a);
                assert((raw + c_in - pow2(w)) * a == raw * a + c_in * a - pow2(w) * a)
                    by (nonlinear_arith);
                assert(slices_val(p_ext, w) == x as int % a + raw * a - b);
                assert(slices_val(p_ext, w) + 1 * b == x as int % b);
            } else {
                assert(digit_val(e) * a == ((raw + c_in) as int) * a);
                assert(((raw + c_in) as int) * a == raw * a + c_in * a) by (nonlinear_arith);
                assert(slices_val(p_ext, w) == x as int % a + raw * a);
                assert(slices_val(p_ext, w) + 0 * b == x as int % b);
            }
        }
        i += 1;
    }
    if carry != 0 {
        return Err(MsmError::ConfigurationError);
    }
    proof {
        assert(slices@.subrange(0, n as int) =~= slices@);
        lemma_pow2_pos((n as nat) * w);
        lemma_small_mod(x, pow2((n as nat) * w));
        assert(x % pow2((n as nat) * w) == x);
        assert(carry == 0);
        assert(slices_val(slices@.subrange(0, n as int), w) + carry * pow2((n as nat) * w) == x
            % pow2((n as nat) * w));
        assert(slices_val(slices@.subrange(0, n as int), w) == slices_val(slices@, w));
        assert(carry * pow2((n as nat) * w) == 0) by (nonlinear_arith)
            requires
                carry == 0,
        ;
        assert(slices_val(slices@, w) == x % pow2((n as nat) * w));
        assert(slices_val(slices@, w) == x);
    }
    Ok(())
}

/// One multi-scalar multiplication problem: paired points and scalars, the
/// window width, and the batching limits handed to the accumulation engine.
pub struct MSMRun {
    pub points: Vec<G1AffinePoint>,
    pub scalars: Vec<Scalar>,
    pub window_bits: u32,
    pub max_batch: u32,
    pub max_collisions: u32,
}

/// The multi-scalar multiplication of paired points and scalars in the
/// group's index space: the direct sum of each scalar times its point's
/// index.
pub open spec fn msm_value(points: Seq<G1AffinePoint>, scalars: Seq<Scalar>) -> int
    decreases points.len(),
{
    if points.len() == 0 {
        0
    } else {
        msm_value(points.drop_last(), scalars.drop_last()) + scalars.last().value() as int
            * affine_index(points.last()) as int
    }
}

/// Computes the multi-scalar multiplication `sum_j scalars[j] * points[j]`
/// with the signed-bucket method: every non-zero scalar is split by the GLV
/// decomposition, both components are sliced into signed windowed digits,
/// each digit routes its point into a bucket, and the buckets are reduced to
/// one group element.
///
/// Zero scalars are skipped without decomposition or slicing. The result's
/// index is the direct sum, modulo the group order, whatever batching limits
/// are set: `max_batch` and `max_collisions` only schedule the work.
#[verifier::rlimit(100)]
pub fn quick_msm(run: &MSMRun) -> (r: Result<G1ProjectivePoint, MsmError>)
    requires
        forall|j: int| 0 <= j < run.points@.len() ==> in_g1(#[trigger] run.points@[j]),
        forall|j: int|
            0 <= j < run.points@.len() ==> affine_index(#[trigger] run.points@[j])
                < group_order(),
        forall|j: int|
            0 <= j < run.scalars@.len() ==> (#[trigger] run.scalars@[j]).value() < group_order(),
    ensures
        match r {
            Ok(p) => {
                &&& run.points@.len() == run.scalars@.len()
                &&& 1 <= run.window_bits <= 31
                &&& in_g1_proj(p)
                &&& proj_index(p) == gmod(msm_value(run.points@, run.scalars@))
            },
            Err(MsmError::LengthMismatchError) => run.points@.len() != run.scalars@.len(),
            Err(MsmError::ConfigurationError) => run.points@.len() == run.scalars@.len(),
        },
        run.points@.len() != run.scalars@.len() ==> r == Err::<G1ProjectivePoint, MsmError>(
            MsmError::LengthMismatchError,
        ),
        run.points@.len() == run.scalars@.len() && !(1 <= run.window_bits <= 31) ==> r
            == Err::<G1ProjectivePoint, MsmError>(MsmError::ConfigurationError),
        run.points@.len() == run.scalars@.len() && 1 <= run.window_bits <= 31
            && crate::bucket_msm::arena_fits((G1_SCALAR_SIZE_GLV + 1) as u32, run.window_bits)
            ==> r is Ok,
{
    if run.points.len() != run.scalars.len() {
        return Err(MsmError::LengthMismatchError);
    }
    if run.window_bits < 1 || run.window_bits > 31 {
        return Err(MsmError::ConfigurationError);
    }
    // one bit above the component width: the signed re-encoding borrows a
    // carry that only headroom in the top window can absorb
    let mut engine = match BucketMSM::new(
        G1_SCALAR_SIZE_GLV + 1,
        run.window_bits,
        run.max_batch,
        run.max_collisions,
    ) {
        Ok(e) => e,
        Err(er) => {
            proof {
                // the constructor owes success whenever the arena fits
                if crate::bucket_msm::arena_fits(
                    (G1_SCALAR_SIZE_GLV + 1) as u32,
                    run.window_bits,
                ) {
                    assert(false);
                }
            }
            return Err(er);
        },
    };
    let num_slices: usize = engine.num_windows;
    let mut normal_slices: Vec<u32> = Vec::new();
    let mut phi_slices: Vec<u32> = Vec::new();
    let mut f: usize = 0;
    while f < num_slices
        invariant
            f <= num_slices,
            normal_slices@.len() == f,
            phi_slices@.len() == f,
        decreases num_slices - f,
    {
        normal_slices.push(0u32);
        phi_slices.push(0u32);
        f += 1;
    }
    let ghost w = run.window_bits as nat;
    let ghost nw_i = engine.num_windows as int;
    let ghost bpw_i = engine.buckets_per_window as int;
    let n = run.points.len();
    let mut j: usize = 0;
    proof {
        crate::bucket_msm::lemma_total_weight_zero(engine.acc@, nw_i, bpw_i, w);
        // the digit windows cover one bit more than any decomposed component
        vstd::arithmetic::div_mod::lemma_fundamental_div_mod(
            G1_SCALAR_SIZE_GLV as int + run.window_bits,
            run.window_bits as int,
        );
        vstd::arithmetic::div_mod::lemma_mod_bound(
            G1_SCALAR_SIZE_GLV as int + run.window_bits,
            run.window_bits as int,
        );
        assert((num_slices as int) * (run.window_bits as int) >= G1_SCALAR_SIZE_GLV + 1) by {
            let rem = (G1_SCALAR_SIZE_GLV as int + run.window_bits) % (run.window_bits as int);
            assert(G1_SCALAR_SIZE_GLV as int + run.window_bits == (run.window_bits as int) * (
            num_slices as int) + rem);
            assert((run.window_bits as int) * (num_slices as int) == (num_slices as int) * (
            run.window_bits as int)) by (nonlinear_arith);
        }
        assert(run.points@.subrange(0, 0).len() == 0);
        assert(msm_value(run.points@.subrange(0, 0), run.scalars@.subrange(0, 0)) == 0);
    }
    while j < n
        invariant
            j <= n,
            n == run.points@.len(),
            run.points@.len() == run.scalars@.len(),
            forall|q: int| 0 <= q < run.points@.len() ==> in_g1(#[trigger] run.points@[q]),
            forall|q: int|
                0 <= q < run.scalars@.len() ==> (#[trigger] run.scalars@[q]).value()
                    < group_order(),
            engine.wf(),
            engine.window_bits == run.window_bits,
            1 <= run.window_bits <= 31,
            w == run.window_bits as nat,
            nw_i == engine.num_windows as int,
            bpw_i == engine.buckets_per_window as int,
            engine.num_windows == num_slices,
            engine.buckets_per_window == pow2((run.window_bits - 1) as nat) + 1,
            normal_slices@.len() == num_slices,
            phi_slices@.len() == num_slices,
            (num_slices as int) * (run.window_bits as int) >= G1_SCALAR_SIZE_GLV + 1,
            gmod(total_weight(engine.acc@, nw_i, bpw_i, w)) == gmod(
                msm_value(run.points@.subrange(0, j as int), run.scalars@.subrange(0, j as int)),
            ),
        decreases n - j,
    {
        let s = run.scalars[j];
        let ghost tpre = total_weight(engine.acc@, nw_i, bpw_i, w);
        let ghost mpre = msm_value(
            run.points@.subrange(0, j as int),
            run.scalars@.subrange(0, j as int),
        );
        let ghost aidx = affine_index(run.points@[j as int]) as int;
        if !s.is_zero() {
            let (phi, normal, is_neg_scalar, is_neg_normal) = decompose(&s);
            proof {
                // both components fit strictly inside the digit windows, so
                // both slicings are owed success
                let nn = num_slices as nat;
                assert(nn * w >= (G1_SCALAR_SIZE_GLV + 1) as nat);
                if nn * w - 1 > G1_SCALAR_SIZE_GLV as nat {
                    vstd::arithmetic::power2::lemma_pow2_strictly_increases(
                        G1_SCALAR_SIZE_GLV as nat,
                        (nn * w - 1) as nat,
                    );
                }
                assert(phi.value() < pow2((nn * w - 1) as nat));
                assert(normal.value() < pow2((nn * w - 1) as nat));
                lemma_slice_in_range(phi.value(), w, nn);
                lemma_slice_in_range(normal.value(), w, nn);
            }
            match msm_slice(phi, &mut phi_slices, run.window_bits) {
                Ok(u) => u,
                Err(er) => {
                    proof {
                        assert(false);
                    }
                    return Err(er);
                },
            };
            match msm_slice(normal, &mut normal_slices, run.window_bits) {
                Ok(u) => u,
                Err(er) => {
                    proof {
                        assert(false);
                    }
                    return Err(er);
                },
            };
            let point = point_get(&run.points, j);
            proof {
                assert(forall|q: int|
                    0 <= q < normal_slices@.len() ==> digit_mag(#[trigger] normal_slices@[q])
                        <= pow2((run.window_bits - 1) as nat));
                assert(forall|q: int|
                    0 <= q < phi_slices@.len() ==> digit_mag(#[trigger] phi_slices@[q]) <= pow2(
                        (run.window_bits - 1) as nat,
                    ));
            }
            engine.process_point_and_slices_glv(
                &point,
                &normal_slices,
                &phi_slices,
                is_neg_scalar,
                is_neg_normal,
            );
            proof {
                let sgn_n = crate::bucket_msm::stream_sign(is_neg_normal);
                let sgn_p = crate::bucket_msm::stream_sign(is_neg_scalar);
                let nv = normal.value() as int;
                let pv = phi.value() as int;
                let lam = crate::curve::glv_lambda() as int;
                let cn = sgn_n * slices_val(normal_slices@, w) * aidx;
                let cpl = sgn_p * slices_val(phi_slices@, w) * ((crate::curve::glv_lambda()
                    * affine_index(run.points@[j as int])) as int);
                assert(slices_val(normal_slices@, w) == nv);
                assert(slices_val(phi_slices@, w) == pv);
                let dcomb = (if is_neg_scalar { -pv } else { pv }) * lam + (if is_neg_normal {
                    -nv
                } else {
                    nv
                });
                assert(gmod(dcomb) == s.value());
                // the two stream contributions together are dcomb * aidx
                assert(cn + cpl == dcomb * aidx) by (nonlinear_arith)
                    requires
                        cn == sgn_n * nv * aidx,
                        cpl == sgn_p * pv * (lam * aidx),
                        sgn_n == (if is_neg_normal { -1int } else { 1int }),
                        sgn_p == (if is_neg_scalar { -1int } else { 1int }),
                        dcomb == (if is_neg_scalar { -pv } else { pv }) * lam + (if is_neg_normal {
                            -nv
                        } else {
                            nv
                        }),
                ;
                crate::bucket_msm::lemma_gmod_mul_cong(aidx, dcomb, s.value() as int);
                assert(aidx * dcomb == dcomb * aidx) by (nonlinear_arith);
                assert(aidx * (s.value() as int) == (s.value() as int) * aidx)
                    by (nonlinear_arith);
                assert(gmod(dcomb * aidx) == gmod((s.value() as int) * aidx));
                crate::bucket_msm::lemma_gmod_add_cong(tpre, cn + cpl, (s.value() as int) * aidx);
                assert(gmod(total_weight(engine.acc@, nw_i, bpw_i, w)) == gmod(
                    tpre + (s.value() as int) * aidx,
                ));
                crate::bucket_msm::lemma_gmod_add_cong(
                    (s.value() as int) * aidx,
                    tpre,
                    mpre,
                );
            }
        } else {
            proof {
                assert((s.value() as int) * aidx == 0) by (nonlinear_arith)
                    requires
                        s.value() == 0,
                ;
            }
        }
        proof {
            let pp = run.points@.subrange(0, j as int + 1);
            let sp = run.scalars@.subrange(0, j as int + 1);
            assert(pp.drop_last() =~= run.points@.subrange(0, j as int));
            assert(sp.drop_last() =~= run.scalars@.subrange(0, j as int));
            assert(pp.last() == run.points@[j as int]);
            assert(sp.last() == run.scalars@[j as int]);
            assert(msm_value(pp, sp) == mpre + (s.value() as int) * aidx);
        }
        j += 1;
    }
    engine.process_complete();
    let result = engine.batch_reduce();
    proof {
        assert(run.points@.subrange(0, n as int) =~= run.points@);
        assert(run.scalars@.subrange(0, n as int) =~= run.scalars@);
    }
    Ok(result)
}


/// Law: sharded partial runs merge by plain addition: the direct sum over
/// concatenated pair lists is the sum of the two direct sums, so two partial
/// results combine into the full result by one group addition.
pub proof fn lemma_msm_value_concat(
    p1: Seq<G1AffinePoint>,
    s1: Seq<Scalar>,
    p2: Seq<G1AffinePoint>,
    s2: Seq<Scalar>,
)
    requires
        p1.len() == s1.len(),
        p2.len() == s2.len(),
    ensures
        msm_value(p1 + p2, s1 + s2) == msm_value(p1, s1) + msm_value(p2, s2),
    decreases p2.len(),
{
    if p2.len() == 0 {
        assert(p1 + p2 =~= p1);
        assert(s1 + s2 =~= s1);
    } else {
        lemma_msm_value_concat(p1, s1, p2.drop_last(), s2.drop_last());
        assert((p1 + p2).drop_last() =~= p1 + p2.drop_last());
        assert((s1 + s2).drop_last() =~= s1 + s2.drop_last());
        assert((p1 + p2).last() == p2.last());
        assert((s1 + s2).last() == s2.last());
    }
}

/// Law: a zero scalar contributes nothing: a pair whose scalar is zero
/// leaves the direct sum unchanged, so filtering such pairs out before
/// decomposition is behaviour, not error handling.
pub proof fn lemma_msm_value_zero_scalar(
    points: Seq<G1AffinePoint>,
    scalars: Seq<Scalar>,
    p: G1AffinePoint,
    s: Scalar,
)
    requires
        points.len() == scalars.len(),
        s.value() == 0,
    ensures
        msm_value(points.push(p), scalars.push(s)) == msm_value(points, scalars),
{
    assert(points.push(p).drop_last() =~= points);
    assert(scalars.push(s).drop_last() =~= scalars);
    assert(s.value() as int * (affine_index(p) as int) == 0) by (nonlinear_arith)
        requires
            s.value() == 0,
    ;
}

/// Law: the signed slicing is exact on every scalar that fits strictly
/// inside the digit windows, so the terminal carry is zero there: slicing
/// any `x` below `2^(n*w - 1)` into `n` digits of width `w` succeeds.
pub proof fn lemma_slice_in_range(x: nat, w: nat, n: nat)
    requires
        1 <= w <= 31,
        n >= 1,
        x < pow2((n * w - 1) as nat),
    ensures
        slice_ok(x, w, n),
{
    assert(n * w >= 1) by (nonlinear_arith)
        requires
            n >= 1,
            w >= 1,
    ;
    lemma_pow2_pos((n * w - 1) as nat);
    vstd::arithmetic::power2::lemma_pow2_strictly_increases((n * w - 1) as nat, n * w);
    assert(x < pow2(n * w));
    let half = pow2((w - 1) as nat);
    lemma_pow2_unfold(w);
    assert(pow2(w) / 2 == half);
    // the top digit is at most half - 1
    let e = ((n - 1) as nat) * w;
    assert(e + (w - 1) == n * w - 1) by (nonlinear_arith)
        requires
            n >= 1,
            w >= 1,
            e == ((n - 1) as nat) * w,
    ;
    lemma_pow2_adds(e, (w - 1) as nat);
    lemma_pow2_pos(e);
    lemma_pow2_pos((w - 1) as nat);
    vstd::arithmetic::div_mod::lemma_multiply_divide_lt(x as int, pow2(e) as int, half as int);
    assert(x / pow2(e) < half);
    vstd::arithmetic::div_mod::lemma_small_mod(x / pow2(e), pow2(w));
    vstd::arithmetic::power2::lemma_pow2_strictly_increases((w - 1) as nat, w);
    assert(raw_digit(x, w, (n - 1) as nat) < half);
    // any carry into the top digit is at most one
    let c = carry_after(x, w, (n - 1) as nat);
    assert(c <= 1);
    assert(raw_digit(x, w, (n - 1) as nat) + c <= half);
    assert(carry_after(x, w, n) == 0);
}

/// Law: the reduced result is a function of the points and scalars alone.
/// Any two runs over the same pairs agree, whatever `max_batch` and
/// `max_collisions` scheduled their batches: both results' indices are the
/// same reduction of the same direct sum.
pub proof fn lemma_batching_invariant(
    points: Seq<G1AffinePoint>,
    scalars: Seq<Scalar>,
    r1: G1ProjectivePoint,
    r2: G1ProjectivePoint,
)
    requires
        proj_index(r1) == gmod(msm_value(points, scalars)),
        proj_index(r2) == gmod(msm_value(points, scalars)),
    ensures
        proj_index(r1) == proj_index(r2),
{
}

} // verus!
