use vstd::prelude::*;
use vstd::arithmetic::div_mod::{
    lemma_fundamental_div_mod, lemma_fundamental_div_mod_converse, lemma_mod_multiples_vanish,
};
use vstd::arithmetic::power2::{lemma_pow2_adds, lemma_pow2_pos, pow2};
use vstd::bits::{lemma_u64_low_bits_mask_is_mod, lemma_u64_shl_is_mul, lemma_u64_shr_is_div};

verus! {

/// A 256-bit unsigned scalar held as four 64-bit limbs, least significant
/// limb first. This is the slicer's working representation of a scalar of
/// the BLS12-381 scalar field, and of each GLV component of one.
#[derive(Clone, Copy, Debug)]
pub struct Scalar {
    pub limbs: [u64; 4],
}

impl Scalar {
    /// The integer this scalar stands for.
    pub open spec fn value(self) -> nat {
        (self.limbs[0] + self.limbs[1] * pow2(64) + self.limbs[2] * pow2(128) + self.limbs[3]
            * pow2(192)) as nat
    }

    /// Builds the scalar holding a small value.
    pub fn from_u64(v: u64) -> (r: Scalar)
        ensures
            r.value() == v,
    {
        let r = Scalar { limbs: [v, 0, 0, 0] };
        proof {
            assert(r.limbs[1] == 0 && r.limbs[2] == 0 && r.limbs[3] == 0 && r.limbs[0] == v);
        }
        r
    }

    /// Reports whether the scalar is zero.
    pub fn is_zero(&self) -> (r: bool)
        ensures
            r <==> self.value() == 0,
    {
        let r = self.limbs[0] == 0 && self.limbs[1] == 0 && self.limbs[2] == 0 && self.limbs[3]
            == 0;
        proof {
            lemma_pow2_pos(64);
            lemma_pow2_pos(128);
            lemma_pow2_pos(192);
            if self.limbs[0] == 0 && self.limbs[1] == 0 && self.limbs[2] == 0 && self.limbs[3]
                == 0 {
                assert(self.value() == 0);
            } else {
                assert(self.value() > 0) by (nonlinear_arith)
                    requires
                        self.value() == (self.limbs[0] + self.limbs[1] * pow2(64) + self.limbs[2]
                            * pow2(128) + self.limbs[3] * pow2(192)) as nat,
                        pow2(64) > 0,
                        pow2(128) > 0,
                        pow2(192) > 0,
                        !(self.limbs[0] == 0 && self.limbs[1] == 0 && self.limbs[2] == 0
                            && self.limbs[3] == 0),
                ;
            }
        }
        r
    }

    /// The low `w` bits of the scalar equal the low `w` bits of its first
    /// limb, because every other limb contributes a multiple of `2^64`.
    pub proof fn lemma_low_window(self, w: nat)
        requires
            1 <= w <= 63,
        ensures
            self.value() % pow2(w) == self.limbs[0] % (pow2(w) as u64),
    {
        let l0 = self.limbs[0];
        let k = self.limbs[1] + self.limbs[2] * pow2(64) + self.limbs[3] * pow2(128);
        lemma_pow2_adds(64, 64);
        lemma_pow2_adds(64, 128);
        assert(self.limbs[1] * pow2(64) + self.limbs[2] * pow2(128) + self.limbs[3] * pow2(192)
            == pow2(64) * k) by (nonlinear_arith)
            requires
                k == self.limbs[1] + self.limbs[2] * pow2(64) + self.limbs[3] * pow2(128),
                pow2(128) == pow2(64) * pow2(64),
                pow2(192) == pow2(64) * pow2(128),
        ;
        lemma_pow2_adds(w, (64 - w) as nat);
        lemma_pow2_pos(w);
        lemma_pow2_pos((64 - w) as nat);
        let m = pow2(w) as int;
        assert(pow2(64) * k == m * (pow2((64 - w) as nat) * k)) by (nonlinear_arith)
            requires
                pow2(64) == pow2(w) * pow2((64 - w) as nat),
                m == pow2(w) as int,
        ;
        lemma_mod_multiples_vanish(pow2((64 - w) as nat) * k, l0 as int, m);
        vstd::bits::lemma_u64_pow2_no_overflow(w);
        assert(self.value() % pow2(w) == (l0 as nat) % pow2(w));
        assert((l0 as nat) % pow2(w) == (l0 % (pow2(w) as u64)) as nat);
    }

    /// Shifts the scalar right by `w` bits, `1 <= w <= 31`.
    #[verifier::rlimit(60)]
    pub fn shr_window(self, w: u32) -> (r: Scalar)
        requires
            1 <= w <= 31,
        ensures
            r.value() == self.value() / pow2(w as nat),
    {
        let s: u32 = 64 - w;
        let l0 = self.limbs[0];
        let l1 = self.limbs[1];
        let l2 = self.limbs[2];
        let l3 = self.limbs[3];
        let n0 = (l0 >> w) | (l1 << s);
        let n1 = (l1 >> w) | (l2 << s);
        let n2 = (l2 >> w) | (l3 << s);
        let n3 = l3 >> w;
        let r = Scalar { limbs: [n0, n1, n2, n3] };
        proof {
            let wn = w as nat;
            let sn = s as nat;
            let wp = pow2(wn) as int;
            let sp = pow2(sn) as int;
            let p64 = pow2(64) as int;
            let p128 = pow2(128) as int;
            let p192 = pow2(192) as int;
            lemma_pow2_pos(wn);
            lemma_pow2_pos(sn);
            lemma_pow2_adds(wn, sn);
            lemma_pow2_adds(64, 64);
            lemma_pow2_adds(64, 128);
            Self::lemma_shr_limb_pair(l0, l1, w);
            Self::lemma_shr_limb_pair(l1, l2, w);
            Self::lemma_shr_limb_pair(l2, l3, w);
            lemma_u64_shr_is_div(l3, w as u64);
            let q0 = l0 as int / wp;
            let q1 = l1 as int / wp;
            let q2 = l2 as int / wp;
            let q3 = l3 as int / wp;
            let r0 = l0 as int % wp;
            let r1 = l1 as int % wp;
            let r2 = l2 as int % wp;
            let r3 = l3 as int % wp;
            lemma_fundamental_div_mod(l0 as int, wp);
            lemma_fundamental_div_mod(l1 as int, wp);
            lemma_fundamental_div_mod(l2 as int, wp);
            lemma_fundamental_div_mod(l3 as int, wp);
            assert(n0 == q0 + r1 * sp);
            assert(n1 == q1 + r2 * sp);
            assert(n2 == q2 + r3 * sp);
            assert(n3 == q3);
            let old_val = l0 + l1 * p64 + l2 * p128 + l3 * p192;
            let new_val = n0 + n1 * p64 + n2 * p128 + n3 * p192;
            assert(new_val * wp == n0 * wp + n1 * (p64 * wp) + n2 * (p128 * wp) + n3 * (p192
                * wp)) by (nonlinear_arith)
                requires
                    new_val == n0 + n1 * p64 + n2 * p128 + n3 * p192,
            ;
            assert(n0 * wp + r0 == l0 + r1 * p64) by (nonlinear_arith)
                requires
                    n0 == q0 + r1 * sp,
                    l0 == wp * q0 + r0,
                    p64 == wp * sp,
            ;
            assert(n1 * (p64 * wp) + r1 * p64 == l1 * p64 + r2 * p128) by (nonlinear_arith)
                requires
                    n1 == q1 + r2 * sp,
                    l1 == wp * q1 + r1,
                    p64 == wp * sp,
                    p128 == p64 * p64,
            ;
            assert(n2 * (p128 * wp) + r2 * p128 == l2 * p128 + r3 * p192) by (nonlinear_arith)
                requires
                    n2 == q2 + r3 * sp,
                    l2 == wp * q2 + r2,
                    p64 == wp * sp,
                    p128 == p64 * p64,
                    p192 == p64 * p128,
            ;
            assert(n3 * (p192 * wp) + r3 * p192 == l3 * p192) by (nonlinear_arith)
                requires
                    n3 == q3,
                    l3 == wp * q3 + r3,
            ;
            assert(new_val * wp + r0 == old_val);
            assert(0 <= r0 < wp);
            lemma_fundamental_div_mod_converse(old_val, wp, new_val, r0);
            assert(r.value() == new_val);
            assert(self.value() == old_val);
        }
        r
    }

    /// For one adjacent limb pair, the shifted-and-recombined word equals the
    /// low part's quotient plus the high part's remainder moved up.
    proof fn lemma_shr_limb_pair(a: u64, b: u64, w: u32)
        requires
            1 <= w <= 31,
        ensures
            ((a >> w) | (b << (64 - w) as u32)) == a as int / (pow2(w as nat) as int) + (b as int
                % (pow2(w as nat) as int)) * (pow2((64 - w) as nat) as int),
    {
        let s: u32 = (64 - w) as u32;
        let mask: u64 = ((1u64 << w) - 1) as u64;
        let bm = b & mask;
        assert(((a >> w) | (b << s)) == (a >> w) + (bm << s)) by (bit_vector)
            requires
                1 <= w <= 31,
                s == 64 - w,
                bm == b & mask,
                mask == ((1u64 << w) - 1) as u64,
        ;
        vstd::bits::lemma_u64_pow2_no_overflow(w as nat);
        vstd::bits::lemma_u64_pow2_no_overflow(s as nat);
        lemma_u64_shl_is_mul(1u64, w as u64);
        assert(mask == vstd::bits::low_bits_mask(w as nat));
        lemma_u64_low_bits_mask_is_mod(b, w as nat);
        assert(bm == b % (pow2(w as nat) as u64));
        lemma_u64_shr_is_div(a, w as u64);
        let wp = pow2(w as nat) as int;
        let sp = pow2(s as nat) as int;
        lemma_pow2_adds(w as nat, s as nat);
        lemma_pow2_pos(w as nat);
        lemma_pow2_pos(s as nat);
        assert(bm * sp <= (wp - 1) * sp) by (nonlinear_arith)
            requires
                0 <= bm <= wp - 1,
                0 < sp,
        ;
        assert((wp - 1) * sp == wp * sp - sp) by (nonlinear_arith);
        vstd::arithmetic::power2::lemma2_to64();
        vstd::arithmetic::power2::lemma2_to64_rest();
        assert(bm * sp <= u64::MAX);
        lemma_u64_shl_is_mul(bm, s as u64);
    }
}

} // verus!
