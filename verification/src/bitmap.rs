use vstd::prelude::*;

verus! {

/// A fixed-size bitset used by the bucket accumulation engine to detect
/// collisions: two points routed to the same bucket within one in-flight
/// batch. `test_and_set` marks a slot and reports whether it was already
/// marked; `clear` resets every slot for the next batch.
#[derive(Debug)]
pub struct Bitmap {
    size: usize,
    data: Vec<u32>,
}

impl View for Bitmap {
    type V = Seq<bool>;

    /// One boolean per addressable slot, 32 slots per word.
    closed spec fn view(&self) -> Seq<bool> {
        Seq::new(
            (self.data@.len() * 32) as nat,
            |i: int| (self.data@[i / 32] >> ((i % 32) as u32)) & 1u32 == 1u32,
        )
    }
}

impl Bitmap {
    /// The word vector matches the recorded word count.
    pub closed spec fn wf(&self) -> bool {
        self.data@.len() == self.size
    }

    /// Creates a bitset able to address `capacity` slots, rounded up to whole
    /// 32-bit words; every slot starts unmarked.
    pub fn new(capacity: usize) -> (r: Bitmap)
        ensures
            r.wf(),
            r@.len() == ((capacity as int + 31) / 32) * 32,
            r@.len() >= capacity,
            forall|i: int| 0 <= i < r@.len() ==> !r@[i],
    {
        let words = capacity / 32 + if capacity % 32 != 0 { 1 } else { 0 };
        proof {
            let c = capacity as int;
            vstd::arithmetic::div_mod::lemma_fundamental_div_mod(c, 32);
            vstd::arithmetic::div_mod::lemma_fundamental_div_mod_converse(
                c + 31,
                32,
                c / 32 + if c % 32 != 0 { 1int } else { 0int },
                if c % 32 != 0 { c % 32 - 1 } else { 31 },
            );
            assert(words == (c + 31) / 32);
        }
        let mut data: Vec<u32> = Vec::new();
        let mut i: usize = 0;
        while i < words
            invariant
                i <= words,
                data@.len() == i,
                forall|k: int| 0 <= k < i ==> data@[k] == 0u32,
            decreases words - i,
        {
            data.push(0u32);
            i += 1;
        }
        let r = Bitmap { size: words, data };
        proof {
            assert forall|j: int| 0 <= j < r@.len() implies !r@[j] by {
                let s = ((j % 32) as u32);
                assert((0u32 >> s) & 1u32 != 1u32) by (bit_vector);
            }
            assert(r@.len() == words * 32);
            vstd::arithmetic::div_mod::lemma_fundamental_div_mod(capacity as int, 32);
            assert(words * 32 >= capacity);
        }
        r
    }

    /// Reports whether slot `bucket` was already marked; if it was not, marks
    /// it. Returns `true` exactly when the slot had been marked before.
    pub fn test_and_set(&mut self, bucket: u32) -> (r: bool)
        requires
            old(self).wf(),
            bucket < old(self)@.len(),
        ensures
            final(self).wf(),
            r == old(self)@[bucket as int],
            final(self)@ == old(self)@.update(bucket as int, true),
    {
        let word = (bucket >> 5) as usize;
        proof {
            assert(bucket >> 5 == bucket / 32) by (bit_vector);
            assert((bucket / 32) as int == bucket as int / 32);
            let dl = self.data@.len() as int;
            vstd::arithmetic::div_mod::lemma_multiply_divide_lt(bucket as int, 32, dl);
            assert(bucket as int / 32 < dl);
        }
        let sh: u32 = bucket & 0x1F;
        proof {
            assert(bucket & 0x1F == bucket % 32) by (bit_vector);
        }
        let bit: u32 = 1u32 << sh;
        let w = self.data[word];
        proof {
            let b = bucket;
            assert((w & (1u32 << (b % 32)) != 0) == ((w >> (b % 32)) & 1u32 == 1u32))
                by (bit_vector);
        }
        if (w & bit) != 0 {
            proof {
                assert(old(self)@[bucket as int]);
                assert(self@ =~= old(self)@.update(bucket as int, true));
            }
            return true;
        }
        self.data.set(word, w | bit);
        proof {
            let b = bucket;
            let wd = b as int / 32;
            assert forall|j: int| 0 <= j < self@.len() implies self@[j] == old(self)@.update(
                b as int,
                true,
            )[j] by {
                if j / 32 == wd {
                    let js = (j % 32) as u32;
                    let bs = b % 32;
                    assert(self.data@[j / 32] == w | (1u32 << bs));
                    assert(((w | (1u32 << bs)) >> js) & 1u32 == if js == bs {
                        1u32
                    } else {
                        (w >> js) & 1u32
                    }) by (bit_vector)
                        requires js < 32, bs < 32,
                    ;
                    if j == b as int {
                        assert(js == bs);
                    } else {
                        // same word, different bit position
                        vstd::arithmetic::div_mod::lemma_fundamental_div_mod(j, 32);
                        vstd::arithmetic::div_mod::lemma_fundamental_div_mod(b as int, 32);
                        assert(js != bs);
                    }
                } else {
                    assert(self.data@[j / 32] == old(self).data@[j / 32]);
                }
            }
            assert(self@ =~= old(self)@.update(b as int, true));
            assert(!old(self)@[bucket as int]);
        }
        false
    }

    /// Resets every slot to unmarked in one pass over the words.
    pub fn clear(&mut self)
        requires
            old(self).wf(),
        ensures
            final(self).wf(),
            final(self)@.len() == old(self)@.len(),
            forall|i: int| 0 <= i < final(self)@.len() ==> !final(self)@[i],
    {
        let n = self.size;
        let mut i: usize = 0;
        while i < n
            invariant
                i <= n,
                self.size == n,
                self.data@.len() == n,
                forall|k: int| 0 <= k < i ==> self.data@[k] == 0u32,
            decreases n - i,
        {
            self.data.set(i, 0u32);
            i += 1;
        }
        proof {
            assert forall|j: int| 0 <= j < self@.len() implies !self@[j] by {
                let s = ((j % 32) as u32);
                assert((0u32 >> s) & 1u32 != 1u32) by (bit_vector);
            }
        }
    }
}

} // verus!
