use vstd::prelude::*;
use vstd::arithmetic::div_mod::{lemma_add_mod_noop_right, lemma_mod_bound};
use vstd::arithmetic::power2::{lemma_pow2_adds, pow2};

use crate::bitmap::Bitmap;
use crate::curve::{
    affine_index, affine_neg, bucket_add_assign, bucket_get, endomorphism_affine, glv_lambda,
    gmod, group_order, in_g1, in_g1_proj, proj_add, proj_double, proj_index, proj_zero,
    signed_point, G1AffinePoint, G1ProjectivePoint,
};
use crate::collision_method_pippenger::{digit_mag, digit_neg, digit_val, slices_val};
use crate::types::MsmError;

verus! {

/// One queued bucket application: add `point` (negated when `negate` is set)
/// into the bucket at arena slot `slot`.
pub struct PendingEntry {
    pub slot: usize,
    pub point: G1AffinePoint,
    pub negate: bool,
}

/// Sum of the signed contributions that the queued entries owe to slot `k`.
pub open spec fn entries_contrib(s: Seq<PendingEntry>, k: int) -> int
    decreases s.len(),
{
    if s.len() == 0 {
        0
    } else {
        entries_contrib(s.drop_last(), k) + if s.last().slot == k {
            signed_point(s.last().point, s.last().negate)
        } else {
            0
        }
    }
}

/// All queued points lie in the G1 subgroup.
pub open spec fn entries_in_g1(s: Seq<PendingEntry>) -> bool {
    forall|i: int| 0 <= i < s.len() ==> in_g1(#[trigger] s[i].point)
}

/// All queued slots address the bucket arena.
pub open spec fn entries_slots_ok(s: Seq<PendingEntry>, len: int) -> bool {
    forall|i: int| 0 <= i < s.len() ==> (#[trigger] s[i].slot) < len
}

/// Composing the group reduction with a further addition loses nothing.
pub proof fn lemma_gmod_add_right(a: int, b: int)
    ensures
        gmod(a + gmod(b)) == gmod(a + b),
{
    lemma_add_mod_noop_right(a, b, group_order() as int);
    lemma_mod_bound(b, group_order() as int);
}

/// The derived bucket arena fits the 32-bit collision tracker: the one
/// machine limit that can refuse a legal window configuration.
pub open spec fn arena_fits(scalar_bits: u32, window_bits: u32) -> bool {
    ((scalar_bits + window_bits - 1) as int / window_bits as int) * (pow2(
        (window_bits - 1) as nat,
    ) + 1) <= u32::MAX
}

/// The bucket accumulation engine: per-window signed buckets, a pending
/// batch of deferred additions, and a collision tracker that keeps one batch
/// free of two applications to the same bucket.
pub struct BucketMSM {
    pub window_bits: u32,
    pub num_windows: usize,
    pub buckets_per_window: usize,
    pub max_batch: usize,
    pub max_collisions: usize,
    pub buckets: Vec<G1ProjectivePoint>,
    pub pending: Vec<PendingEntry>,
    pub deferred: Vec<PendingEntry>,
    pub tracker: Bitmap,
    pub acc: Ghost<Seq<nat>>,
}

impl BucketMSM {
    /// The settled model: what each bucket will hold, in the group's integer
    /// index space, once every queued entry has been applied.
    pub open spec fn model(&self) -> Seq<nat> {
        self.acc@
    }

    /// Total number of bucket slots in the arena.
    pub open spec fn arena_len(&self) -> int {
        self.num_windows * self.buckets_per_window
    }

    /// Engine invariant: the arena has one bucket per (window, index) pair,
    /// every queued entry addresses it, and the ghost model of each slot is
    /// its bucket's index plus everything still queued for it.
    pub open spec fn wf(&self) -> bool {
        &&& 1 <= self.window_bits <= 31
        &&& self.num_windows >= 1
        &&& self.buckets_per_window == pow2((self.window_bits - 1) as nat) + 1
        &&& self.buckets@.len() == self.arena_len()
        &&& self.arena_len() <= u32::MAX
        &&& self.acc@.len() == self.buckets@.len()
        &&& self.tracker.wf()
        &&& self.tracker@.len() >= self.buckets@.len()
        &&& entries_in_g1(self.pending@)
        &&& entries_in_g1(self.deferred@)
        &&& entries_slots_ok(self.pending@, self.buckets@.len() as int)
        &&& entries_slots_ok(self.deferred@, self.buckets@.len() as int)
        &&& forall|k: int|
            0 <= k < self.buckets@.len() ==> in_g1_proj(#[trigger] self.buckets@[k])
        &&& forall|k: int|
            0 <= k < self.buckets@.len() ==> self.acc@[k] == gmod(
                proj_index(#[trigger] self.buckets@[k]) + entries_contrib(self.pending@, k)
                    + entries_contrib(self.deferred@, k),
            )
    }

    /// Builds an engine for `scalar_bits`-bit digit streams sliced into
    /// `window_bits`-bit windows; fails exactly when the window width is
    /// outside `1..=31` or the bucket arena would not be addressable by the
    /// 32-bit collision tracker.
    pub fn new(scalar_bits: u32, window_bits: u32, max_batch: u32, max_collisions: u32) -> (r:
        Result<BucketMSM, MsmError>)
        requires
            scalar_bits >= 1,
        ensures
            match r {
                Ok(e) => {
                    &&& 1 <= window_bits <= 31
                    &&& e.wf()
                    &&& e.window_bits == window_bits
                    &&& e.num_windows >= 1
                    &&& e.buckets_per_window == pow2((window_bits - 1) as nat) + 1
                    &&& e.num_windows as int == (scalar_bits + window_bits - 1) as int
                        / window_bits as int
                    &&& e.arena_len() == e.num_windows as int * e.buckets_per_window as int
                    &&& e.model() == Seq::new(e.arena_len() as nat, |k: int| 0nat)
                },
                Err(er) => er == MsmError::ConfigurationError,
            },
            1 <= window_bits <= 31 && arena_fits(scalar_bits, window_bits) ==> r is Ok,
    {
        if window_bits < 1 || window_bits > 31 {
            return Err(MsmError::ConfigurationError);
        }
        let ghost nw_spec = (scalar_bits + window_bits - 1) as int / window_bits as int;
        let ghost bpw_spec = pow2((window_bits - 1) as nat) + 1;
        let nw64: u64 = ((scalar_bits as u64) + (window_bits as u64) - 1) / (window_bits as u64);
        proof {
            vstd::bits::lemma_u64_pow2_no_overflow((window_bits - 1) as nat);
            vstd::bits::lemma_u64_shl_is_mul(1u64, (window_bits - 1) as u64);
            vstd::arithmetic::power2::lemma2_to64();
        }
        let bpw64: u64 = (1u64 << ((window_bits - 1) as u64)) + 1;
        proof {
            assert(bpw64 == pow2((window_bits - 1) as nat) + 1);
            assert(nw64 == nw_spec);
            // at least one window, since the scalar has at least one bit
            vstd::arithmetic::div_mod::lemma_fundamental_div_mod(
                scalar_bits + window_bits - 1,
                window_bits as int,
            );
            vstd::arithmetic::div_mod::lemma_mod_bound(
                scalar_bits + window_bits - 1,
                window_bits as int,
            );
            let rem = (scalar_bits + window_bits - 1) % (window_bits as int);
            assert(nw_spec >= 1) by (nonlinear_arith)
                requires
                    scalar_bits >= 1,
                    window_bits >= 1,
                    scalar_bits + window_bits - 1 == (window_bits as int) * nw_spec + rem,
                    0 <= rem < window_bits as int,
            ;
            // a window of width at most 31 keeps the per-window bucket count small
            if window_bits < 31 {
                vstd::arithmetic::power2::lemma_pow2_strictly_increases(
                    (window_bits - 1) as nat,
                    30,
                );
            }
            assert(bpw64 <= 0x4000_0001);
            // under the arena bound, the window count fits the tracker too
            if arena_fits(scalar_bits, window_bits) {
                assert(nw_spec <= nw_spec * bpw_spec) by (nonlinear_arith)
                    requires
                        nw_spec >= 0,
                        bpw_spec >= 1,
                ;
            }
        }
        if nw64 == 0 || nw64 > (u32::MAX as u64) || bpw64 > (u32::MAX as u64) {
            proof {
                assert(!(1 <= window_bits <= 31 && arena_fits(scalar_bits, window_bits)));
            }
            return Err(MsmError::ConfigurationError);
        }
        proof {
            assert(nw64 * bpw64 <= (u32::MAX as u64) * (u32::MAX as u64)) by (nonlinear_arith)
                requires
                    0 <= nw64 <= u32::MAX as u64,
                    0 <= bpw64 <= u32::MAX as u64,
            ;
        }
        let prod: u64 = nw64 * bpw64;
        if prod > u32::MAX as u64 {
            proof {
                assert(!arena_fits(scalar_bits, window_bits));
            }
            return Err(MsmError::ConfigurationError);
        }
        let len: usize = prod as usize;
        let mut buckets: Vec<G1ProjectivePoint> = Vec::new();
        let mut i: usize = 0;
        while i < len
            invariant
                i <= len,
                buckets@.len() == i,
                forall|k: int|
                    0 <= k < i ==> in_g1_proj(#[trigger] buckets@[k]) && proj_index(
                        buckets@[k],
                    ) == 0,
            decreases len - i,
        {
            buckets.push(proj_zero());
            i += 1;
        }
        let tracker = Bitmap::new(len);
        let e = BucketMSM {
            window_bits,
            num_windows: nw64 as usize,
            buckets_per_window: bpw64 as usize,
            max_batch: max_batch as usize,
            max_collisions: max_collisions as usize,
            buckets,
            pending: Vec::new(),
            deferred: Vec::new(),
            tracker,
            acc: Ghost(Seq::new((nw64 * bpw64) as nat, |k: int| 0nat)),
        };
        proof {
            assert(e.num_windows * e.buckets_per_window == len) by (nonlinear_arith)
                requires
                    e.num_windows == nw64 as usize,
                    e.buckets_per_window == bpw64 as usize,
                    nw64 * bpw64 <= u32::MAX as u64,
                    len == (nw64 * bpw64) as usize,
            ;
            assert forall|k: int| 0 <= k < e.buckets@.len() implies e.acc@[k] == gmod(
                proj_index(#[trigger] e.buckets@[k]) + entries_contrib(e.pending@, k)
                    + entries_contrib(e.deferred@, k),
            ) by {
                assert(entries_contrib(e.pending@, k) == 0);
                assert(entries_contrib(e.deferred@, k) == 0);
                assert(proj_index(e.buckets@[k]) == 0);
            }
        }
        Ok(e)
    }

    /// Applies and drains every queued entry, then clears the collision
    /// tracker: afterwards each bucket's own index equals its settled model.
    pub fn process_complete(&mut self)
        requires
            old(self).wf(),
        ensures
            final(self).wf(),
            final(self).model() == old(self).model(),
            final(self).window_bits == old(self).window_bits,
            final(self).num_windows == old(self).num_windows,
            final(self).buckets_per_window == old(self).buckets_per_window,
            final(self).flushed(),
    {
        self.flush();
    }

    /// No queued work is left: every contribution sits in its bucket.
    pub open spec fn flushed(&self) -> bool {
        self.pending@.len() == 0 && self.deferred@.len() == 0
    }

    /// Drains the pending batch and the deferred list into the buckets and
    /// resets the collision tracker. The settled model does not move.
    fn flush(&mut self)
        requires
            old(self).wf(),
        ensures
            final(self).wf(),
            final(self).model() == old(self).model(),
            final(self).window_bits == old(self).window_bits,
            final(self).num_windows == old(self).num_windows,
            final(self).buckets_per_window == old(self).buckets_per_window,
            final(self).max_batch == old(self).max_batch,
            final(self).max_collisions == old(self).max_collisions,
            final(self).flushed(),
    {
        while self.pending.len() > 0
            invariant
                self.wf(),
                self.acc@ == old(self).acc@,
                self.window_bits == old(self).window_bits,
                self.num_windows == old(self).num_windows,
                self.buckets_per_window == old(self).buckets_per_window,
                self.max_batch == old(self).max_batch,
                self.max_collisions == old(self).max_collisions,
                self.deferred@ == old(self).deferred@,
            decreases self.pending@.len(),
        {
            let ghost pend0 = self.pending@;
            let e = self.pending.pop().unwrap();
            proof {
                assert(pend0.last() == e);
                assert(self.pending@ =~= pend0.drop_last());
                assert(entries_slots_ok(pend0, self.buckets@.len() as int));
                assert(pend0[pend0.len() - 1].slot < self.buckets@.len());
            }
            let pt = if e.negate {
                affine_neg(&e.point)
            } else {
                e.point.clone()
            };
            let ghost bks0 = self.buckets@;
            bucket_add_assign(&mut self.buckets, e.slot, &pt);
            proof {
                self.lemma_entry_applied(bks0, pend0, self.deferred@, e, pt);
            }
        }
        while self.deferred.len() > 0
            invariant
                self.wf(),
                self.acc@ == old(self).acc@,
                self.window_bits == old(self).window_bits,
                self.num_windows == old(self).num_windows,
                self.buckets_per_window == old(self).buckets_per_window,
                self.max_batch == old(self).max_batch,
                self.max_collisions == old(self).max_collisions,
                self.pending@.len() == 0,
            decreases self.deferred@.len(),
        {
            let ghost def0 = self.deferred@;
            let e = self.deferred.pop().unwrap();
            proof {
                assert(def0.last() == e);
                assert(self.deferred@ =~= def0.drop_last());
                assert(entries_slots_ok(def0, self.buckets@.len() as int));
                assert(def0[def0.len() - 1].slot < self.buckets@.len());
            }
            let pt = if e.negate {
                affine_neg(&e.point)
            } else {
                e.point.clone()
            };
            let ghost bks0 = self.buckets@;
            bucket_add_assign(&mut self.buckets, e.slot, &pt);
            proof {
                self.lemma_entry_applied(bks0, self.pending@, def0, e, pt);
            }
        }
        self.tracker.clear();
    }


    /// Routes one signed contribution into the bucket at `slot`: queues it in
    /// the pending batch, or in the deferred list when the collision tracker
    /// shows the bucket already touched in this batch, flushing a full batch
    /// or too many collisions first. The settled model of `slot` grows by the
    /// point's signed contribution; no other slot moves.
    fn process_one(&mut self, slot: u32, point: &G1AffinePoint, negate: bool)
        requires
            old(self).wf(),
            in_g1(*point),
            (slot as int) < old(self).buckets@.len(),
        ensures
            final(self).wf(),
            final(self).window_bits == old(self).window_bits,
            final(self).num_windows == old(self).num_windows,
            final(self).buckets_per_window == old(self).buckets_per_window,
            final(self).max_batch == old(self).max_batch,
            final(self).max_collisions == old(self).max_collisions,
            final(self).acc@ == old(self).acc@.update(
                slot as int,
                gmod(old(self).acc@[slot as int] + signed_point(*point, negate)),
            ),
    {
        if self.pending.len() >= self.max_batch {
            self.flush();
        }
        let hit = self.tracker.test_and_set(slot);
        let entry = PendingEntry { slot: slot as usize, point: point.clone(), negate };
        let ghost pend0 = self.pending@;
        let ghost def0 = self.deferred@;
        let ghost acc0 = self.acc@;
        if hit {
            self.deferred.push(entry);
        } else {
            self.pending.push(entry);
        }
        proof {
            self.acc@ = acc0.update(
                slot as int,
                gmod(acc0[slot as int] + signed_point(*point, negate)),
            );
        }
        proof {
            let sp = signed_point(*point, negate);
            if hit {
                assert(self.deferred@.drop_last() =~= def0);
                assert(self.deferred@.last() == entry);
            } else {
                assert(self.pending@.drop_last() =~= pend0);
                assert(self.pending@.last() == entry);
            }
            assert forall|k: int| 0 <= k < self.buckets@.len() implies self.acc@[k] == gmod(
                proj_index(#[trigger] self.buckets@[k]) + entries_contrib(self.pending@, k)
                    + entries_contrib(self.deferred@, k),
            ) by {
                let pv = proj_index(self.buckets@[k]) as int;
                if k == slot as int {
                    assert(entries_contrib(self.pending@, k) + entries_contrib(self.deferred@, k)
                        == entries_contrib(pend0, k) + entries_contrib(def0, k) + sp);
                    lemma_gmod_add_right(sp, pv + entries_contrib(pend0, k) + entries_contrib(
                        def0,
                        k,
                    ));
                    assert(self.acc@[k] == gmod(acc0[k] + sp));
                } else {
                    assert(entries_contrib(self.pending@, k) == entries_contrib(pend0, k));
                    assert(entries_contrib(self.deferred@, k) == entries_contrib(def0, k));
                }
            }
        }
        if self.deferred.len() >= self.max_collisions {
            self.flush();
        }
    }

    /// Feeds one digit stream of a point into the buckets. The weighted
    /// total of the settled model grows, modulo the group order, by the
    /// stream's decoded value times the point's index, with the stream-level
    /// sign applied.
    #[verifier::rlimit(100)]
    fn process_stream(&mut self, applied: &G1AffinePoint, slices: &Vec<u32>, negative: bool)
        requires
            old(self).wf(),
            in_g1(*applied),
            slices@.len() == old(self).num_windows,
            forall|j: int|
                0 <= j < slices@.len() ==> digit_mag(#[trigger] slices@[j]) < old(
                    self,
                ).buckets_per_window,
        ensures
            final(self).wf(),
            final(self).window_bits == old(self).window_bits,
            final(self).num_windows == old(self).num_windows,
            final(self).buckets_per_window == old(self).buckets_per_window,
            final(self).max_batch == old(self).max_batch,
            final(self).max_collisions == old(self).max_collisions,
            gmod(
                total_weight(
                    final(self).acc@,
                    final(self).num_windows as int,
                    final(self).buckets_per_window as int,
                    final(self).window_bits as nat,
                ),
            ) == gmod(
                total_weight(
                    old(self).acc@,
                    old(self).num_windows as int,
                    old(self).buckets_per_window as int,
                    old(self).window_bits as nat,
                ) + stream_sign(negative) * slices_val(slices@, old(self).window_bits as nat)
                    * (affine_index(*applied) as int),
            ),
    {
        let n = self.num_windows;
        let bpw = self.buckets_per_window;
        let ghost nw_i = n as int;
        let ghost bpw_i = bpw as int;
        let ghost w = self.window_bits as nat;
        let ghost t0 = total_weight(old(self).acc@, nw_i, bpw_i, w);
        let ghost aidx = affine_index(*applied) as int;
        let ghost sgn = stream_sign(negative);
        let mut i: usize = 0;
        proof {
            assert(slices@.subrange(0, 0).len() == 0);
            assert(slices_val(slices@.subrange(0, 0), w) == 0);
            assert(sgn * slices_val(slices@.subrange(0, 0), w) * aidx == 0) by (nonlinear_arith)
                requires
                    slices_val(slices@.subrange(0, 0), w) == 0,
            ;
        }
        while i < n
            invariant
                self.wf(),
                in_g1(*applied),
                i <= n,
                n == self.num_windows,
                bpw == self.buckets_per_window,
                nw_i == n as int,
                bpw_i == bpw as int,
                w == self.window_bits as nat,
                aidx == affine_index(*applied) as int,
                sgn == stream_sign(negative),
                self.window_bits == old(self).window_bits,
                self.num_windows == old(self).num_windows,
                self.buckets_per_window == old(self).buckets_per_window,
                self.max_batch == old(self).max_batch,
                self.max_collisions == old(self).max_collisions,
                slices@.len() == n,
                forall|j: int|
                    0 <= j < slices@.len() ==> digit_mag(#[trigger] slices@[j]) < bpw,
                gmod(total_weight(self.acc@, nw_i, bpw_i, w)) == gmod(
                    t0 + sgn * slices_val(slices@.subrange(0, i as int), w) * aidx,
                ),
            decreases n - i,
        {
            let digit: u32 = slices[i];
            let mag: u32 = digit & 0x7FFF_FFFF;
            let neg: bool = digit & 0x8000_0000 != 0;
            let ghost pre = self.acc@;
            let ghost tpre = total_weight(pre, nw_i, bpw_i, w);
            let ghost dv = digit_val(digit);
            let ghost tw = pow2(((i as int) * w) as nat) as int;
            if mag != 0 {
                proof {
                    assert(mag == digit_mag(digit) && neg == digit_neg(digit));
                    assert((i as int) * bpw_i + (mag as int) < nw_i * bpw_i) by (nonlinear_arith)
                        requires
                            0 <= i as int,
                            (i as int) < nw_i,
                            0 < mag as int,
                            (mag as int) < bpw_i,
                    ;
                    assert(nw_i * bpw_i == self.arena_len());
                }
                let slot64: u64 = (i as u64) * (bpw as u64) + (mag as u64);
                proof {
                    assert(slot64 == (i as int) * bpw_i + (mag as int)) by (nonlinear_arith)
                        requires
                            slot64 == (i as u64) * (bpw as u64) + (mag as u64),
                            i as u64 == i as int,
                            bpw as u64 == bpw_i,
                            mag as u64 == mag as int,
                            (i as int) * bpw_i + (mag as int) <= u32::MAX,
                            0 <= i as int,
                            0 < bpw_i,
                    ;
                }
                let slot: u32 = slot64 as u32;
                let eff: bool = neg != negative;
                self.process_one(slot, applied, eff);
                proof {
                    let sp = signed_point(*applied, eff);
                    lemma_stream_digit_step(
                        pre,
                        self.acc@,
                        nw_i,
                        bpw_i,
                        w,
                        i as int,
                        mag,
                        *applied,
                        eff,
                    );
                    lemma_digit_sign(digit, *applied, negative);
                    assert(tw * ((mag as int) * sp) == tw * (sgn * dv * aidx));
                    lemma_gmod_add_cong(
                        tw * (sgn * dv * aidx),
                        tpre,
                        t0 + sgn * slices_val(slices@.subrange(0, i as int), w) * aidx,
                    );
                    lemma_prefix_extend(slices@, w, i as int, sgn, aidx);
                }
            } else {
                proof {
                    assert(mag == digit_mag(digit));
                    assert(dv == 0);
                    lemma_prefix_extend(slices@, w, i as int, sgn, aidx);
                    assert(tw * (sgn * dv * aidx) == 0) by (nonlinear_arith)
                        requires
                            dv == 0,
                    ;
                }
            }
            i += 1;
        }
        proof {
            assert(slices@.subrange(0, n as int) =~= slices@);
        }
    }

    /// Feeds one point and its two GLV digit streams into the buckets. The
    /// weighted total of the settled model grows, modulo the group order, by
    /// `normal * P + phi * (lambda * P)` in the index space, each stream
    /// signed as the decomposition asked.
    pub fn process_point_and_slices_glv(
        &mut self,
        point: &G1AffinePoint,
        normal_slices: &Vec<u32>,
        phi_slices: &Vec<u32>,
        is_neg_scalar: bool,
        is_neg_normal: bool,
    )
        requires
            old(self).wf(),
            in_g1(*point),
            normal_slices@.len() == old(self).num_windows,
            phi_slices@.len() == old(self).num_windows,
            forall|j: int|
                0 <= j < normal_slices@.len() ==> digit_mag(#[trigger] normal_slices@[j]) < old(
                    self,
                ).buckets_per_window,
            forall|j: int|
                0 <= j < phi_slices@.len() ==> digit_mag(#[trigger] phi_slices@[j]) < old(
                    self,
                ).buckets_per_window,
        ensures
            final(self).wf(),
            final(self).window_bits == old(self).window_bits,
            final(self).num_windows == old(self).num_windows,
            final(self).buckets_per_window == old(self).buckets_per_window,
            final(self).max_batch == old(self).max_batch,
            final(self).max_collisions == old(self).max_collisions,
            gmod(
                total_weight(
                    final(self).acc@,
                    final(self).num_windows as int,
                    final(self).buckets_per_window as int,
                    final(self).window_bits as nat,
                ),
            ) == gmod(
                total_weight(
                    old(self).acc@,
                    old(self).num_windows as int,
                    old(self).buckets_per_window as int,
                    old(self).window_bits as nat,
                ) + stream_sign(is_neg_normal) * slices_val(
                    normal_slices@,
                    old(self).window_bits as nat,
                ) * (affine_index(*point) as int) + stream_sign(is_neg_scalar) * slices_val(
                    phi_slices@,
                    old(self).window_bits as nat,
                ) * (glv_lambda() * affine_index(*point)) as int,
            ),
    {
        let ghost nw_i = self.num_windows as int;
        let ghost bpw_i = self.buckets_per_window as int;
        let ghost w = self.window_bits as nat;
        let ghost t0 = total_weight(self.acc@, nw_i, bpw_i, w);
        let ghost aidx = affine_index(*point) as int;
        self.process_stream(point, normal_slices, is_neg_normal);
        let ghost t1 = total_weight(self.acc@, nw_i, bpw_i, w);
        let ghost cn = stream_sign(is_neg_normal) * slices_val(normal_slices@, w) * aidx;
        let endo = endomorphism_affine(point);
        let ghost eidx = affine_index(endo) as int;
        self.process_stream(&endo, phi_slices, is_neg_scalar);
        proof {
            let cp = stream_sign(is_neg_scalar) * slices_val(phi_slices@, w) * eidx;
            let cpl = stream_sign(is_neg_scalar) * slices_val(phi_slices@, w) * ((glv_lambda()
                * affine_index(*point)) as int);
            // gmod(t2) == gmod(t1 + cp); gmod(t1) == gmod(t0 + cn)
            lemma_gmod_add_cong(cp, t1, t0 + cn);
            assert(gmod(t1 + cp) == gmod(t0 + cn + cp));
            // replace the endomorphism point's index by lambda times the base index
            lemma_gmod_mul_cong(
                stream_sign(is_neg_scalar) * slices_val(phi_slices@, w),
                eidx,
                (glv_lambda() * affine_index(*point)) as int,
            );
            assert((stream_sign(is_neg_scalar) * slices_val(phi_slices@, w)) * eidx == cp);
            assert((stream_sign(is_neg_scalar) * slices_val(phi_slices@, w)) * ((glv_lambda()
                * affine_index(*point)) as int) == cpl);
            assert(gmod(cp) == gmod(cpl));
            lemma_gmod_add_cong(t0 + cn, cp, cpl);
            assert(gmod(
                total_weight(
                    self.acc@,
                    self.num_windows as int,
                    self.buckets_per_window as int,
                    self.window_bits as nat,
                ),
            ) == gmod(t0 + cn + cpl));
        }
    }

    /// Flushes everything still queued, then reduces all buckets: each
    /// window's buckets are combined with the running "sum of sums" sweep,
    /// and the window sums are combined most-significant first by repeated
    /// doubling. Returns the point whose index is the weighted total of the
    /// settled model, modulo the group order.
    #[verifier::rlimit(100)]
    pub fn batch_reduce(&mut self) -> (r: G1ProjectivePoint)
        requires
            old(self).wf(),
        ensures
            final(self).wf(),
            final(self).model() == old(self).model(),
            in_g1_proj(r),
            proj_index(r) == gmod(
                total_weight(
                    old(self).acc@,
                    old(self).num_windows as int,
                    old(self).buckets_per_window as int,
                    old(self).window_bits as nat,
                ),
            ),
    {
        self.flush();
        let nw = self.num_windows;
        let bpw = self.buckets_per_window;
        let wb = self.window_bits;
        let ghost nw_i = nw as int;
        let ghost bpw_i = bpw as int;
        let ghost w = wb as nat;
        let ghost acc = self.acc@;
        let mut res = proj_zero();
        let mut i: usize = nw;
        proof {
            assert(windows_total(acc, nw_i, nw_i, bpw_i, w) == 0);
        }
        while i > 0
            invariant
                self.wf(),
                self.flushed(),
                self.acc@ == acc,
                nw == self.num_windows,
                bpw == self.buckets_per_window,
                wb == self.window_bits,
                nw_i == nw as int,
                bpw_i == bpw as int,
                w == wb as nat,
                i <= nw,
                in_g1_proj(res),
                proj_index(res) == gmod(windows_total(acc, i as int, nw_i, bpw_i, w)),
            decreases i,
        {
            i -= 1;
            let ghost tail = windows_total(acc, i as int + 1, nw_i, bpw_i, w);
            proof {
                vstd::arithmetic::power2::lemma2_to64();
                assert(pow2(0) * tail == tail) by (nonlinear_arith)
                    requires
                        pow2(0) == 1,
                ;
            }
            // shift the accumulated higher windows up by one window
            let mut t: u32 = 0;
            while t < wb
                invariant
                    self.wf(),
                    self.flushed(),
                    self.acc@ == acc,
                    t <= wb,
                    in_g1_proj(res),
                    proj_index(res) == gmod(pow2(t as nat) * tail),
                    tail == windows_total(acc, i as int + 1, nw_i, bpw_i, w),
                decreases wb - t,
            {
                let ghost prev = res;
                res = proj_double(&res);
                proof {
                    lemma_gmod_mul_cong(2, proj_index(prev) as int, pow2(t as nat) * tail);
                    vstd::arithmetic::power2::lemma_pow2_unfold((t + 1) as nat);
                    assert(2 * (pow2(t as nat) * tail) == pow2((t + 1) as nat) * tail)
                        by (nonlinear_arith)
                        requires
                            pow2((t + 1) as nat) == 2 * pow2(t as nat),
                    ;
                    assert(proj_index(res) == gmod(2 * proj_index(prev) as int));
                }
                t += 1;
            }
            proof {
                assert(proj_index(res) == gmod(pow2(w) * tail));
            }
            // sweep this window's buckets from the top index down
            proof {
                assert(i as int * bpw_i + bpw_i <= nw_i * bpw_i) by (nonlinear_arith)
                    requires
                        i as int + 1 <= nw_i,
                        0 < bpw_i,
                        0 <= i as int,
                ;
                assert(0 <= i as int * bpw_i) by (nonlinear_arith)
                    requires
                        0 <= i as int,
                        0 < bpw_i,
                ;
                assert(nw_i * bpw_i <= u32::MAX);
            }
            let base = i * bpw;
            let mut running = proj_zero();
            let mut wsum = proj_zero();
            let mut b: usize = bpw;
            proof {
                assert(bucket_range_sum(acc, base as int, bpw_i, bpw_i) == 0);
                assert(window_weighted_from(acc, base as int, bpw_i, bpw_i) == 0);
            }
            while b > 1
                invariant
                    self.wf(),
                    self.flushed(),
                    self.acc@ == acc,
                    nw == self.num_windows,
                    bpw == self.buckets_per_window,
                    nw_i == nw as int,
                    bpw_i == bpw as int,
                    1 <= b <= bpw,
                    i < nw,
                    base as int == i as int * bpw_i,
                    base + bpw <= self.buckets@.len(),
                    in_g1_proj(running),
                    in_g1_proj(wsum),
                    proj_index(running) == gmod(bucket_range_sum(acc, base as int, b as int, bpw_i)),
                    proj_index(wsum) == gmod(
                        window_weighted_from(acc, base as int, b as int, bpw_i),
                    ),
                decreases b,
            {
                b -= 1;
                let slot = base + b;
                let bk = bucket_get(&self.buckets, slot);
                proof {
                    assert(in_g1_proj(bk));
                    // a flushed bucket's index is congruent to its model
                    assert(self.acc@[slot as int] == gmod(
                        proj_index(bk) + entries_contrib(self.pending@, slot as int)
                            + entries_contrib(self.deferred@, slot as int),
                    ));
                    assert(entries_contrib(self.pending@, slot as int) == 0);
                    assert(entries_contrib(self.deferred@, slot as int) == 0);
                    assert(acc[slot as int] == gmod(proj_index(bk) as int));
                }
                let ghost prev_running = running;
                running = proj_add(&running, &bk);
                let ghost prev_wsum = wsum;
                wsum = proj_add(&wsum, &running);
                proof {
                    let rs_next = bucket_range_sum(acc, base as int, b as int + 1, bpw_i);
                    let rs_here = bucket_range_sum(acc, base as int, b as int, bpw_i);
                    assert(rs_here == acc[base as int + b as int] as int + rs_next);
                    // running
                    lemma_gmod_add_right(
                        proj_index(prev_running) as int,
                        proj_index(bk) as int,
                    );
                    assert(proj_index(running) == gmod(
                        proj_index(prev_running) as int + proj_index(bk) as int,
                    ));
                    lemma_gmod_add_cong(
                        proj_index(bk) as int,
                        proj_index(prev_running) as int,
                        rs_next,
                    ) ;
                    assert(gmod(proj_index(prev_running) as int + proj_index(bk) as int) == gmod(
                        rs_next + proj_index(bk) as int,
                    ));
                    lemma_gmod_add_cong(rs_next, proj_index(bk) as int, acc[slot as int] as int);
                    assert(gmod(acc[slot as int] as int) == gmod(proj_index(bk) as int)) by {
                        vstd::arithmetic::div_mod::lemma_mod_bound(
                            proj_index(bk) as int,
                            group_order() as int,
                        );
                        vstd::arithmetic::div_mod::lemma_small_mod(
                            gmod(proj_index(bk) as int),
                            group_order(),
                        );
                    }
                    assert(proj_index(running) == gmod(rs_here));
                    // weighted sum
                    let ww_next = window_weighted_from(acc, base as int, b as int + 1, bpw_i);
                    let ww_here = window_weighted_from(acc, base as int, b as int, bpw_i);
                    assert(ww_here == rs_here + ww_next);
                    lemma_gmod_add_right(proj_index(prev_wsum) as int, proj_index(running) as int);
                    lemma_gmod_add_cong(
                        proj_index(running) as int,
                        proj_index(prev_wsum) as int,
                        ww_next,
                    );
                    lemma_gmod_add_cong(ww_next, proj_index(running) as int, rs_here);
                    assert(proj_index(wsum) == gmod(ww_next + rs_here));
                }
            }
            let ghost prev_res = res;
            res = proj_add(&res, &wsum);
            proof {
                assert(windows_total(acc, i as int, nw_i, bpw_i, w) == window_weight(
                    acc,
                    i as int * bpw_i,
                    bpw_i,
                ) + pow2(w) * tail);
                lemma_gmod_add_right(proj_index(prev_res) as int, proj_index(wsum) as int);
                lemma_gmod_add_cong(
                    proj_index(wsum) as int,
                    proj_index(prev_res) as int,
                    pow2(w) * tail,
                );
                lemma_gmod_add_cong(
                    pow2(w) * tail,
                    proj_index(wsum) as int,
                    window_weight(acc, i as int * bpw_i, bpw_i),
                );
                assert(proj_index(res) == gmod(windows_total(acc, i as int, nw_i, bpw_i, w)));
            }
        }
        res
    }

    /// After popping entry `e` from one of the two queues and adding `pt`
    /// (its possibly negated point) into bucket `e.slot`, the settled model
    /// of every slot is what it was.
    proof fn lemma_entry_applied(
        &self,
        bks0: Seq<G1ProjectivePoint>,
        pend0: Seq<PendingEntry>,
        def0: Seq<PendingEntry>,
        e: PendingEntry,
        pt: G1AffinePoint,
    )
        requires
            // shape: one of the queues lost its last entry e; covered by the
            // two call sites through these hypotheses
            self.buckets@.len() == bks0.len(),
            0 <= e.slot < bks0.len(),
            gmod(affine_index(pt) as int) == gmod(signed_point(e.point, e.negate)),
            proj_index(self.buckets@[e.slot as int]) == gmod(
                proj_index(bks0[e.slot as int]) + affine_index(pt) as int,
            ),
            forall|j: int|
                0 <= j < bks0.len() && j != e.slot ==> self.buckets@[j] == bks0[j],
            (self.pending@ == pend0.drop_last() && pend0.len() > 0 && pend0.last() == e
                && self.deferred@ == def0) || (self.deferred@ == def0.drop_last() && def0.len()
                > 0 && def0.last() == e && self.pending@ == pend0),
            forall|k: int|
                0 <= k < bks0.len() ==> self.acc@[k] == gmod(
                    proj_index(bks0[k]) + entries_contrib(pend0, k) + entries_contrib(def0, k),
                ),
        ensures
            forall|k: int|
                0 <= k < self.buckets@.len() ==> self.acc@[k] == gmod(
                    proj_index(#[trigger] self.buckets@[k]) + entries_contrib(self.pending@, k)
                        + entries_contrib(self.deferred@, k),
                ),
    {
        assert forall|k: int| 0 <= k < self.buckets@.len() implies self.acc@[k] == gmod(
            proj_index(#[trigger] self.buckets@[k]) + entries_contrib(self.pending@, k)
                + entries_contrib(self.deferred@, k),
        ) by {
            let ghost cp0 = entries_contrib(pend0, k);
            let ghost cd0 = entries_contrib(def0, k);
            let ghost cp1 = entries_contrib(self.pending@, k);
            let ghost cd1 = entries_contrib(self.deferred@, k);
            if k == e.slot {
                let sp = signed_point(e.point, e.negate);
                assert(cp0 + cd0 == cp1 + cd1 + sp);
                let pv0 = proj_index(bks0[k]) as int;
                let pv1 = proj_index(self.buckets@[k]) as int;
                let a = affine_index(pt) as int;
                lemma_gmod_add_right(pv0, a);
                lemma_gmod_add_right(pv0, sp);
                assert(pv1 == gmod(pv0 + gmod(a) as int)) by {
                    lemma_gmod_add_right(pv0, a);
                    assert(pv1 == gmod(pv0 + a));
                }
                assert(pv1 == gmod(pv0 + gmod(sp) as int));
                assert(pv1 == gmod(pv0 + sp));
                lemma_gmod_add_right(cp1 + cd1, pv0 + sp);
                assert(gmod(pv1 + cp1 + cd1) == gmod(gmod(pv0 + sp) as int + (cp1 + cd1)));
                lemma_gmod_add_right(cp1 + cd1, pv0 + sp);
                assert(gmod(pv1 + cp1 + cd1) == gmod(pv0 + sp + cp1 + cd1));
                assert(self.acc@[k] == gmod(pv0 + cp0 + cd0));
            } else {
                assert(cp0 == cp1 && cd0 == cd1) by {
                    if pend0.len() > 0 && self.pending@ == pend0.drop_last() && pend0.last() == e
                        && self.deferred@ == def0 {
                        assert(entries_contrib(pend0, k) == entries_contrib(
                            pend0.drop_last(),
                            k,
                        ));
                    } else {
                        assert(entries_contrib(def0, k) == entries_contrib(def0.drop_last(), k));
                    }
                }
                assert(self.buckets@[k] == bks0[k]);
            }
        }
    }
}


/// Sign of a whole digit stream: `-1` when the GLV decomposition negated it.
pub open spec fn stream_sign(negative: bool) -> int {
    if negative {
        -1
    } else {
        1
    }
}

/// Sum of the model entries at slots `base+lo .. base+hi`.
pub open spec fn bucket_range_sum(acc: Seq<nat>, base: int, lo: int, hi: int) -> int
    decreases hi - lo,
{
    if lo >= hi {
        0
    } else {
        acc[base + lo] as int + bucket_range_sum(acc, base, lo + 1, hi)
    }
}

/// Sum of the suffix sums of one window, which equals the bucket-index
/// weighted sum `sum_j (j - lo + 1) * acc[base + j]` over `j` in `lo..bpw`.
pub open spec fn window_weighted_from(acc: Seq<nat>, base: int, lo: int, bpw: int) -> int
    decreases bpw - lo,
{
    if lo >= bpw {
        0
    } else {
        bucket_range_sum(acc, base, lo, bpw) + window_weighted_from(acc, base, lo + 1, bpw)
    }
}

/// The weighted sum `sum_b b * acc[base + b]` of one window's buckets.
pub open spec fn window_weight(acc: Seq<nat>, base: int, bpw: int) -> int {
    window_weighted_from(acc, base, 1, bpw)
}

/// Horner total over windows `i..nw`: window `t` weighted by `2^((t-i)*w)`.
pub open spec fn windows_total(acc: Seq<nat>, i: int, nw: int, bpw: int, w: nat) -> int
    decreases nw - i,
{
    if i >= nw {
        0
    } else {
        window_weight(acc, i * bpw, bpw) + pow2(w) * windows_total(acc, i + 1, nw, bpw, w)
    }
}

/// The weighted total of the whole arena: what batch reduction computes.
pub open spec fn total_weight(acc: Seq<nat>, nw: int, bpw: int, w: nat) -> int {
    windows_total(acc, 0, nw, bpw, w)
}

/// Changing one slot changes a range sum by the slot's own delta.
proof fn lemma_range_sum_update(a1: Seq<nat>, a2: Seq<nat>, base: int, lo: int, hi: int, k: int)
    requires
        a1.len() == a2.len(),
        0 <= k < a1.len(),
        forall|j: int| 0 <= j < a1.len() && j != k ==> a1[j] == a2[j],
        0 <= base,
        0 <= lo,
        base + hi <= a1.len(),
    ensures
        bucket_range_sum(a2, base, lo, hi) == bucket_range_sum(a1, base, lo, hi) + if lo <= k
            - base < hi {
            a2[k] as int - a1[k] as int
        } else {
            0
        },
    decreases hi - lo,
{
    if lo < hi {
        lemma_range_sum_update(a1, a2, base, lo + 1, hi, k);
        if base + lo != k {
            assert(a1[base + lo] == a2[base + lo]);
        }
    }
}

/// Changing one slot changes a window's weighted sum by the slot's bucket
/// index (relative to `lo`) times the slot's own delta.
proof fn lemma_weighted_from_update(
    a1: Seq<nat>,
    a2: Seq<nat>,
    base: int,
    lo: int,
    bpw: int,
    k: int,
)
    requires
        a1.len() == a2.len(),
        0 <= k < a1.len(),
        forall|j: int| 0 <= j < a1.len() && j != k ==> a1[j] == a2[j],
        0 <= base,
        0 <= lo,
        base + bpw <= a1.len(),
    ensures
        window_weighted_from(a2, base, lo, bpw) == window_weighted_from(a1, base, lo, bpw) + if lo
            <= k - base < bpw {
            (k - base - lo + 1) * (a2[k] as int - a1[k] as int)
        } else {
            0
        },
    decreases bpw - lo,
{
    if lo < bpw {
        lemma_range_sum_update(a1, a2, base, lo, bpw, k);
        lemma_weighted_from_update(a1, a2, base, lo + 1, bpw, k);
        if lo <= k - base < bpw {
            let m = k - base;
            let d = a2[k] as int - a1[k] as int;
            if lo + 1 <= m {
                assert((m - lo + 1) * d == d + (m - (lo + 1) + 1) * d) by (nonlinear_arith);
            } else {
                assert(m == lo);
                assert((m - lo + 1) * d == 1 * d);
            }
        }
    }
}

/// Changing one slot changes the Horner total by the slot's window weight
/// `2^((t-i)*w)` times its bucket index times its own delta.
proof fn lemma_windows_total_update(
    a1: Seq<nat>,
    a2: Seq<nat>,
    i: int,
    nw: int,
    bpw: int,
    w: nat,
    k: int,
)
    requires
        a1.len() == a2.len(),
        0 <= k < a1.len(),
        forall|j: int| 0 <= j < a1.len() && j != k ==> a1[j] == a2[j],
        a1.len() == nw * bpw,
        1 <= bpw,
        0 <= i <= nw,
    ensures
        windows_total(a2, i, nw, bpw, w) == windows_total(a1, i, nw, bpw, w) + if i * bpw <= k {
            pow2(((k / bpw - i) * w) as nat) * ((k % bpw) * (a2[k] as int - a1[k] as int))
        } else {
            0
        },
    decreases nw - i,
{
    vstd::arithmetic::div_mod::lemma_fundamental_div_mod(k, bpw);
    vstd::arithmetic::div_mod::lemma_mod_bound(k, bpw);
    let t = k / bpw;
    let m = k % bpw;
    let d = a2[k] as int - a1[k] as int;
    assert(0 <= t < nw) by (nonlinear_arith)
        requires
            k == bpw * t + m,
            0 <= m < bpw,
            0 <= k < nw * bpw,
            1 <= bpw,
    ;
    if i < nw {
        assert((i + 1) * bpw <= nw * bpw) by (nonlinear_arith)
            requires
                i + 1 <= nw,
                1 <= bpw,
        ;
        assert(0 <= i * bpw) by (nonlinear_arith)
            requires
                0 <= i,
                1 <= bpw,
        ;
        assert(i * bpw + bpw == (i + 1) * bpw) by (nonlinear_arith);
        lemma_weighted_from_update(a1, a2, i * bpw, 1, bpw, k);
        lemma_windows_total_update(a1, a2, i + 1, nw, bpw, w, k);
        let tail1 = windows_total(a1, i + 1, nw, bpw, w);
        let tail2 = windows_total(a2, i + 1, nw, bpw, w);
        if i * bpw <= k {
            if k < (i + 1) * bpw {
                // the slot lies in window i
                assert(t == i && m == k - i * bpw) by {
                    vstd::arithmetic::div_mod::lemma_fundamental_div_mod_converse(
                        k,
                        bpw,
                        i,
                        k - i * bpw,
                    );
                }
                assert(window_weight(a2, i * bpw, bpw) == window_weight(a1, i * bpw, bpw) + if 1
                    <= m {
                    m * d
                } else {
                    0
                });
                assert(tail2 == tail1);
                assert(pow2(w) * tail2 == pow2(w) * tail1);
                if m == 0 {
                    assert(windows_total(a2, i, nw, bpw, w) == windows_total(a1, i, nw, bpw, w)
                        + 0 * d);
                    assert(pow2(((t - i) * w) as nat) * (m * d) == 0) by (nonlinear_arith)
                        requires
                            m == 0,
                    ;
                } else {
                    assert(pow2(0) == 1) by {
                        vstd::arithmetic::power2::lemma2_to64();
                    }
                    assert((t - i) * w == 0) by (nonlinear_arith)
                        requires
                            t == i,
                    ;
                    assert(pow2(((t - i) * w) as nat) * (m * d) == m * d) by (nonlinear_arith)
                        requires
                            pow2(((t - i) * w) as nat) == 1,
                    ;
                }
            } else {
                // the slot lies in a later window
                assert(!(1 <= k - i * bpw < bpw));
                assert(window_weight(a2, i * bpw, bpw) == window_weight(a1, i * bpw, bpw));
                assert((i + 1) * bpw <= k);
                assert(tail2 == tail1 + pow2(((t - (i + 1)) * w) as nat) * (m * d));
                assert(t >= i + 1) by (nonlinear_arith)
                    requires
                        k == bpw * t + m,
                        0 <= m < bpw,
                        (i + 1) * bpw <= k,
                        1 <= bpw,
                ;
                lemma_pow2_adds(w, ((t - i - 1) * w) as nat);
                assert((t - i) * w == w + (t - i - 1) * w) by (nonlinear_arith);
                assert(pow2(w) * (tail1 + pow2(((t - (i + 1)) * w) as nat) * (m * d)) == pow2(w)
                    * tail1 + pow2(((t - i) * w) as nat) * (m * d)) by (nonlinear_arith)
                    requires
                        pow2(((t - i) * w) as nat) == pow2(w) * pow2(((t - i - 1) * w) as nat),
                        pow2(((t - (i + 1)) * w) as nat) == pow2(((t - i - 1) * w) as nat),
                ;
            }
        } else {
            // the slot lies in an earlier window: nothing here changes
            assert(!(1 <= k - i * bpw < bpw));
            assert(window_weight(a2, i * bpw, bpw) == window_weight(a1, i * bpw, bpw));
            assert(!((i + 1) * bpw <= k)) by (nonlinear_arith)
                requires
                    k < i * bpw,
                    1 <= bpw,
                    0 <= i,
            ;
            assert(tail2 == tail1);
            assert(pow2(w) * tail2 == pow2(w) * tail1);
        }
    }
}

/// Multiplying two congruent values by the same factor keeps them congruent.
pub proof fn lemma_gmod_mul_cong(c: int, a: int, b: int)
    requires
        gmod(a) == gmod(b),
    ensures
        gmod(c * a) == gmod(c * b),
{
    vstd::arithmetic::div_mod::lemma_mul_mod_noop_right(c, a, group_order() as int);
    vstd::arithmetic::div_mod::lemma_mul_mod_noop_right(c, b, group_order() as int);
}

/// Adding two congruent values to the same term keeps the sums congruent.
pub proof fn lemma_gmod_add_cong(t: int, a: int, b: int)
    requires
        gmod(a) == gmod(b),
    ensures
        gmod(t + a) == gmod(t + b),
{
    lemma_gmod_add_right(t, a);
    lemma_gmod_add_right(t, b);
}


/// One routed digit moves the weighted total by the digit's bucket weight
/// times the point's signed contribution, modulo the group order.
proof fn lemma_stream_digit_step(
    pre: Seq<nat>,
    post: Seq<nat>,
    nw: int,
    bpw: int,
    w: nat,
    i: int,
    mag: u32,
    applied: G1AffinePoint,
    eff: bool,
)
    requires
        1 <= bpw,
        0 <= i,
        i < nw,
        0 < mag as int,
        (mag as int) < bpw,
        pre.len() == nw * bpw,
        post == pre.update(
            i * bpw + mag as int,
            gmod(pre[i * bpw + mag as int] + signed_point(applied, eff)),
        ),
    ensures
        gmod(total_weight(post, nw, bpw, w)) == gmod(
            total_weight(pre, nw, bpw, w) + (pow2((i * w) as nat) as int) * ((mag as int)
                * signed_point(applied, eff)),
        ),
{
    let k = i * bpw + mag as int;
    assert(0 <= k && k < nw * bpw) by (nonlinear_arith)
        requires
            0 <= i,
            i < nw,
            0 < mag as int,
            (mag as int) < bpw,
            1 <= bpw,
            k == i * bpw + mag as int,
    ;
    lemma_windows_total_update(pre, post, 0, nw, bpw, w, k);
    vstd::arithmetic::div_mod::lemma_fundamental_div_mod_converse(k, bpw, i, mag as int);
    let sp = signed_point(applied, eff);
    let d = post[k] as int - pre[k] as int;
    assert(total_weight(post, nw, bpw, w) == total_weight(pre, nw, bpw, w) + pow2(
        ((k / bpw - 0) * w) as nat,
    ) * ((k % bpw) * d));
    lemma_gmod_add_right(-(pre[k] as int), pre[k] as int + sp);
    assert(gmod(d) == gmod(sp));
    lemma_gmod_mul_cong((pow2((i * w) as nat) as int) * (mag as int), d, sp);
    assert((pow2((i * w) as nat) as int) * ((mag as int) * d) == ((pow2((i * w) as nat) as int)
        * (mag as int)) * d) by (nonlinear_arith);
    assert((pow2((i * w) as nat) as int) * ((mag as int) * sp) == ((pow2((i * w) as nat) as int)
        * (mag as int)) * sp) by (nonlinear_arith);
    lemma_gmod_add_cong(
        total_weight(pre, nw, bpw, w),
        (pow2((i * w) as nat) as int) * ((mag as int) * d),
        (pow2((i * w) as nat) as int) * ((mag as int) * sp),
    );
}

/// One digit's effective sign combines its own tag with the stream sign.
proof fn lemma_digit_sign(digit: u32, applied: G1AffinePoint, negative: bool)
    ensures
        (digit_mag(digit) as int) * signed_point(applied, digit_neg(digit) != negative)
            == stream_sign(negative) * digit_val(digit) * (affine_index(applied) as int),
{
    let mag = digit_mag(digit) as int;
    let aidx = affine_index(applied) as int;
    let sp = signed_point(applied, digit_neg(digit) != negative);
    assert(mag * sp == stream_sign(negative) * digit_val(digit) * aidx) by (nonlinear_arith)
        requires
            sp == (if digit_neg(digit) != negative {
                -aidx
            } else {
                aidx
            }),
            digit_val(digit) == (if digit_neg(digit) {
                -mag
            } else {
                mag
            }),
            stream_sign(negative) == (if negative {
                -1int
            } else {
                1int
            }),
            mag == digit_mag(digit) as int,
    ;
}

/// Extending the decoded prefix by one digit adds that digit's weighted
/// signed contribution.
proof fn lemma_prefix_extend(slices: Seq<u32>, w: nat, i: int, sgn: int, aidx: int)
    requires
        0 <= i,
        i < slices.len(),
    ensures
        sgn * slices_val(slices.subrange(0, i + 1), w) * aidx == sgn * slices_val(
            slices.subrange(0, i),
            w,
        ) * aidx + (pow2((i * w) as nat) as int) * (sgn * digit_val(slices[i]) * aidx),
{
    let p_new = slices.subrange(0, i);
    let p_ext = slices.subrange(0, i + 1);
    assert(p_ext.drop_last() =~= p_new);
    assert(p_ext.last() == slices[i]);
    assert(slices_val(p_ext, w) == slices_val(p_new, w) + digit_val(slices[i]) * (pow2(
        (i * w) as nat,
    ) as int));
    assert(sgn * slices_val(p_ext, w) * aidx == sgn * slices_val(p_new, w) * aidx + (pow2(
        (i * w) as nat,
    ) as int) * (sgn * digit_val(slices[i]) * aidx)) by (nonlinear_arith)
        requires
            slices_val(p_ext, w) == slices_val(p_new, w) + digit_val(slices[i]) * (pow2(
                (i * w) as nat,
            ) as int),
    ;
}

/// A range sum over an all-zero model is zero.
proof fn lemma_range_sum_zero(acc: Seq<nat>, base: int, lo: int, hi: int)
    requires
        forall|k: int| 0 <= k < acc.len() ==> acc[k] == 0,
        0 <= base,
        0 <= lo,
        base + hi <= acc.len(),
    ensures
        bucket_range_sum(acc, base, lo, hi) == 0,
    decreases hi - lo,
{
    if lo < hi {
        lemma_range_sum_zero(acc, base, lo + 1, hi);
    }
}

/// A window's weighted sum over an all-zero model is zero.
proof fn lemma_weighted_from_zero(acc: Seq<nat>, base: int, lo: int, bpw: int)
    requires
        forall|k: int| 0 <= k < acc.len() ==> acc[k] == 0,
        0 <= base,
        0 <= lo,
        base + bpw <= acc.len(),
    ensures
        window_weighted_from(acc, base, lo, bpw) == 0,
    decreases bpw - lo,
{
    if lo < bpw {
        lemma_range_sum_zero(acc, base, lo, bpw);
        lemma_weighted_from_zero(acc, base, lo + 1, bpw);
    }
}

/// The Horner total over an all-zero model is zero.
proof fn lemma_windows_total_zero(acc: Seq<nat>, i: int, nw: int, bpw: int, w: nat)
    requires
        forall|k: int| 0 <= k < acc.len() ==> acc[k] == 0,
        acc.len() == nw * bpw,
        1 <= bpw,
        0 <= i <= nw,
    ensures
        windows_total(acc, i, nw, bpw, w) == 0,
    decreases nw - i,
{
    if i < nw {
        assert((i + 1) * bpw <= nw * bpw) by (nonlinear_arith)
            requires
                i + 1 <= nw,
                1 <= bpw,
        ;
        assert(0 <= i * bpw) by (nonlinear_arith)
            requires
                0 <= i,
                1 <= bpw,
        ;
        assert(i * bpw + bpw == (i + 1) * bpw) by (nonlinear_arith);
        lemma_weighted_from_zero(acc, i * bpw, 1, bpw);
        lemma_windows_total_zero(acc, i + 1, nw, bpw, w);
        assert(pow2(w) * 0 == 0) by (nonlinear_arith);
    }
}

/// The weighted total of an empty (all-zero) arena is zero.
pub proof fn lemma_total_weight_zero(acc: Seq<nat>, nw: int, bpw: int, w: nat)
    requires
        forall|k: int| 0 <= k < acc.len() ==> acc[k] == 0,
        acc.len() == nw * bpw,
        1 <= bpw,
        0 <= nw,
    ensures
        total_weight(acc, nw, bpw, w) == 0,
{
    lemma_windows_total_zero(acc, 0, nw, bpw, w);
}

} // verus!
