use vstd::arithmetic::div_mod::lemma_fundamental_div_mod_converse;
use vstd::prelude::*;

verus! {

/// Whether bit `j` of a word is set.
pub open spec fn word_bit(w: u64, j: int) -> bool {
    (w >> (j as u64)) & 1u64 == 1u64
}

/// A fixed-size bitmap packed into 64-bit words.
pub struct AtomicBitMask {
    bits: Vec<u64>,
    size: usize,
}

impl View for AtomicBitMask {
    type V = Seq<bool>;

    closed spec fn view(&self) -> Seq<bool> {
        Seq::new(self.size as nat, |i: int| word_bit(self.bits@[i / 64], i % 64))
    }
}

proof fn lemma_word_index(s: int, j: int)
    requires
        s >= 0,
        0 <= j < 64,
    ensures
        (s * 64 + j) / 64 == s,
        (s * 64 + j) % 64 == j,
{
    lemma_fundamental_div_mod_converse(s * 64 + j, 64, s, j);
}

proof fn lemma_word_set(w: u64, j: u64)
    requires
        j < 64,
    ensures
        forall|i: u64| i < 64 ==> #[trigger] ((w | (1u64 << j)) >> i) & 1u64 == (if i == j { 1u64 } else { (w >> i) & 1u64 }),
        ((w & (1u64 << j)) != 0) == word_bit(w, j as int),
{
    assert(forall|i: u64| i < 64 ==> #[trigger] ((w | (1u64 << j)) >> i) & 1u64 == (if i == j { 1u64 } else { (w >> i) & 1u64 })) by (bit_vector)
        requires
            j < 64,
    ;
    assert(((w & (1u64 << j)) != 0) == ((w >> j) & 1u64 == 1u64)) by (bit_vector)
        requires
            j < 64,
    ;
}

proof fn lemma_word_clear(w: u64, j: u64)
    requires
        j < 64,
    ensures
        forall|i: u64| i < 64 ==> #[trigger] ((w & !(1u64 << j)) >> i) & 1u64 == (if i == j { 0u64 } else { (w >> i) & 1u64 }),
        ((w & (1u64 << j)) != 0) == word_bit(w, j as int),
{
    assert(forall|i: u64| i < 64 ==> #[trigger] ((w & !(1u64 << j)) >> i) & 1u64 == (if i == j { 0u64 } else { (w >> i) & 1u64 })) by (bit_vector)
        requires
            j < 64,
    ;
    assert(((w & (1u64 << j)) != 0) == ((w >> j) & 1u64 == 1u64)) by (bit_vector)
        requires
            j < 64,
    ;
}

proof fn lemma_position(position: usize)
    ensures
        position >> 6 == position / 64,
        position & 63 == position % 64,
{
    assert(position >> 6 == position / 64) by (bit_vector);
    assert(position & 63 == position % 64) by (bit_vector);
}

impl AtomicBitMask {
    /// The words hold exactly enough bits for the size, and no bit past the size is set.
    pub closed spec fn wf(&self) -> bool {
        &&& self.bits.len() == (self.size + 63) / 64
        &&& self.size + 63 <= usize::MAX
        &&& forall|i: int|
            self.size <= i < self.bits.len() * 64 ==> !word_bit(#[trigger] self.bits@[i / 64], i % 64)
    }

    pub closed spec fn spec_words(&self) -> Seq<u64> {
        self.bits@
    }

    /// A bitmap of `size` clear bits.
    pub fn new(size: usize) -> (r: AtomicBitMask)
        requires
            size + 63 <= usize::MAX,
        ensures
            r.wf(),
            r@ == Seq::new(size as nat, |i: int| false),
    {
        let n = (size + 63) / 64;
        let mut bits: Vec<u64> = Vec::new();
        while bits.len() < n
            invariant
                bits.len() <= n,
                forall|i: int| 0 <= i < bits.len() ==> bits@[i] == 0,
            decreases n - bits.len(),
        {
            bits.push(0);
        }
        let r = AtomicBitMask { bits, size };
        assert(forall|w: u64, j: u64| w == 0 && j < 64 ==> (w >> j) & 1u64 == 0u64) by (bit_vector);
        proof {
            assert forall|i: int| 0 <= i < r.bits.len() * 64 implies !word_bit(
                #[trigger] r.bits@[i / 64],
                i % 64,
            ) by {
                assert(0 <= i / 64 < r.bits.len());
            }
        }
        assert(r@ =~= Seq::new(size as nat, |i: int| false));
        r
    }

    /// The mask of a position within its word.
    fn get_mask(&self, position: usize) -> (m: u64)
        ensures
            m == 1u64 << (position % 64) as u64,
    {
        proof {
            lemma_position(position);
        }
        1u64 << ((position & 63) as u64)
    }

    /// The index of the word that holds a position.
    fn get_slot(&self, position: usize) -> (slot: usize)
        ensures
            slot == position / 64,
    {
        proof {
            lemma_position(position);
        }
        position >> 6
    }

    /// Sets the bit, and returns whether it was set before.
    pub fn test_and_set(&mut self, position: usize) -> (was_set: bool)
        requires
            old(self).wf(),
            position < old(self)@.len(),
        ensures
            final(self).wf(),
            was_set == old(self)@[position as int],
            final(self)@ == old(self)@.update(position as int, true),
    {
        proof {
            lemma_position(position);
        }
        let slot = self.get_slot(position);
        let j = (position & 63) as u64;
        let mask: u64 = self.get_mask(position);
        let last = self.bits[slot];
        self.bits.set(slot, last | mask);
        proof {
            lemma_word_set(last, j);
            self.lemma_update_word(*old(self), slot as int, j as int);
        }
        last & mask != 0
    }

    /// Clears the bit, and returns whether it was set before.
    pub fn clear(&mut self, position: usize) -> (was_set: bool)
        requires
            old(self).wf(),
            position < old(self)@.len(),
        ensures
            final(self).wf(),
            was_set == old(self)@[position as int],
            final(self)@ == old(self)@.update(position as int, false),
    {
        proof {
            lemma_position(position);
        }
        let slot = self.get_slot(position);
        let j = (position & 63) as u64;
        let mask: u64 = self.get_mask(position);
        let last = self.bits[slot];
        self.bits.set(slot, last & !mask);
        proof {
            lemma_word_clear(last, j);
            self.lemma_update_word(*old(self), slot as int, j as int);
        }
        last & mask != 0
    }

    /// After one word changed in one bit `j`, the view changed at that bit's index only.
    proof fn lemma_update_word(self, before: AtomicBitMask, slot: int, j: int)
        requires
            before.wf(),
            self.size == before.size,
            self.bits.len() == before.bits.len(),
            0 <= slot < before.bits.len(),
            0 <= j < 64,
            slot * 64 + j < before.size,
            forall|s: int| 0 <= s < before.bits.len() && s != slot ==> self.bits@[s] == before.bits@[s],
            forall|i: u64| i < 64 && i != j ==> #[trigger] ((self.bits@[slot] >> i) & 1u64) == ((before.bits@[slot] >> i) & 1u64),
        ensures
            self.wf(),
            self@ == before@.update(slot * 64 + j, word_bit(self.bits@[slot], j)),
    {
        assert forall|i: int| 0 <= i < self.bits.len() * 64 && i != slot * 64 + j implies
            #[trigger] word_bit(self.bits@[i / 64], i % 64) == word_bit(before.bits@[i / 64], i % 64) by {
            let s = i / 64;
            let t = i % 64;
            lemma_word_index(s, t);
            if s == slot {
                assert(t != j);
                assert(((self.bits@[slot] >> (t as u64)) & 1u64) == ((before.bits@[slot] >> (t as u64)) & 1u64));
            }
        }
        lemma_word_index(slot, j);
        assert(self@ =~= before@.update(slot * 64 + j, word_bit(self.bits@[slot], j)));
    }

    pub fn test(&self, position: usize) -> (r: bool)
        requires
            self.wf(),
            position < self@.len(),
        ensures
            r == self@[position as int],
    {
        proof {
            lemma_position(position);
        }
        let j = (position & 63) as u64;
        let w = self.bits[self.get_slot(position)];
        proof {
            lemma_word_set(w, j);
        }
        w & self.get_mask(position) != 0
    }
}


/// Walks the indices of the set bits of a bitmap in increasing order.
pub struct AtomicBitMaskIter<'a> {
    pub mask: &'a AtomicBitMask,
    current_slot_idx: usize,
    current_value: u64,
    finished: bool,
}

impl<'a> AtomicBitMaskIter<'a> {
    /// The bitmap being walked.
    pub closed spec fn spec_mask(&self) -> AtomicBitMask {
        *self.mask
    }

    /// The indices still to be returned.
    pub closed spec fn remaining(&self) -> Set<int> {
        if self.finished {
            Set::empty()
        } else {
            Set::new(
                |i: int|
                    (self.current_slot_idx * 64 <= i < self.current_slot_idx * 64 + 64 && word_bit(
                        self.current_value,
                        i - self.current_slot_idx * 64,
                    )) || ((self.current_slot_idx + 1) * 64 <= i < self.mask@.len()
                        && self.mask@[i]),
            )
        }
    }

    pub closed spec fn wf(&self) -> bool {
        &&& self.mask.wf()
        &&& !self.finished ==> self.current_slot_idx < self.mask.spec_words().len()
        &&& !self.finished ==> forall|j: int|
            0 <= j < 64 && #[trigger] word_bit(self.current_value, j) ==> self.current_slot_idx * 64
                + j < self.mask@.len() && self.mask@[self.current_slot_idx * 64 + j]
    }

    /// The next set index, or `None` once all have been returned.
    pub fn next(&mut self) -> (r: Option<usize>)
        requires
            old(self).wf(),
        ensures
            final(self).wf(),
            final(self).spec_mask() == old(self).spec_mask(),
            r is None <==> old(self).remaining().is_empty(),
            r is None ==> final(self).remaining().is_empty(),
            r matches Some(i) ==> {
                &&& old(self).remaining().contains(i as int)
                &&& forall|j: int| #[trigger] old(self).remaining().contains(j) ==> i <= j
                &&& final(self).remaining() == old(self).remaining().remove(i as int)
            },
    {
        if self.finished {
            return None;
        }
        let ghost start = self.remaining();
        loop
            invariant
                self.wf(),
                !self.finished,
                self.mask == old(self).mask,
                self.remaining() == start,
                start == old(self).remaining(),
            decreases self.mask.spec_words().len() - self.current_slot_idx,
        {
            let tz = self.current_value.trailing_zeros();
            let v = self.current_value;
            let slot = self.current_slot_idx;
            proof {
                vstd::std_specs::bits::axiom_u64_trailing_zeros(v);
            }
            if tz < 64 {
                let t = tz as u64;
                let nv = v ^ (1u64 << t);
                assert(forall|i: u64| i < 64 ==> #[trigger] ((nv >> i) & 1u64) == (if i == t { 0u64 } else { (v >> i) & 1u64 })) by (bit_vector)
                    requires
                        t < 64,
                        nv == v ^ (1u64 << t),
                        (v >> t) & 1u64 == 1u64,
                ;
                self.current_value = nv;
                let idx = slot * 64 + tz as usize;
                proof {
                    let b = slot * 64;
                    assert(word_bit(v, tz as int));
                    assert forall|j: int| #[trigger] start.contains(j) implies idx <= j by {
                        if b <= j < b + 64 && word_bit(v, j - b) {
                            if j - b < tz {
                                assert((v >> ((j - b) as u64)) & 1u64 == 0u64);
                            }
                        }
                    }
                    assert forall|j: int| 0 <= j < 64 && #[trigger] word_bit(nv, j) implies word_bit(v, j) by {
                        assert(((nv >> (j as u64)) & 1u64) == (if j as u64 == t { 0u64 } else { (v >> (j as u64)) & 1u64 }));
                    }
                    assert(self.remaining() =~= start.remove(idx as int)) by {
                        assert forall|j: int| b <= j < b + 64 implies #[trigger] word_bit(nv, j - b) == (word_bit(v, j - b) && j != idx) by {
                            assert(((nv >> ((j - b) as u64)) & 1u64) == (if (j - b) as u64 == t { 0u64 } else { (v >> ((j - b) as u64)) & 1u64 }));
                        }
                    }
                }
                return Some(idx);
            }
            proof {
                assert forall|j: int| 0 <= j < 64 implies !#[trigger] word_bit(v, j) by {
                    assert((v >> (j as u64)) & 1u64 == 0u64);
                }
            }
            self.current_slot_idx = slot + 1;
            if self.current_slot_idx >= self.mask.bits.len() {
                self.finished = true;
                proof {
                    assert forall|j: int| !start.contains(j) by {
                        if (slot + 1) * 64 <= j < self.mask@.len() && self.mask@[j] {
                            assert(j < self.mask.bits.len() * 64);
                        }
                    }
                    assert(start =~= Set::<int>::empty());
                }
                return None;
            }
            self.current_value = self.mask.bits[slot + 1];
            proof {
                let m = self.mask;
                let s1 = (slot + 1) as int;
                assert forall|j: int| 0 <= j < 64 && #[trigger] word_bit(self.current_value, j) implies s1 * 64 + j < m@.len() && m@[s1 * 64 + j] by {
                    lemma_word_index(s1, j);
                }
                assert(self.remaining() =~= start) by {
                    assert forall|i: int| s1 * 64 <= i < s1 * 64 + 64 && i < m@.len() implies #[trigger] word_bit(self.current_value, i - s1 * 64) == m@[i] by {
                        lemma_word_index(s1, i - s1 * 64);
                    }
                    assert forall|i: int| s1 * 64 <= i < s1 * 64 + 64 && i >= m@.len() implies !#[trigger] word_bit(self.current_value, i - s1 * 64) by {
                        lemma_word_index(s1, i - s1 * 64);
                    }
                }
            }
        }
    }
}

impl AtomicBitMask {
    /// An iterator over the indices of the set bits, in increasing order.
    pub fn iter_set(&self) -> (r: AtomicBitMaskIter<'_>)
        requires
            self.wf(),
        ensures
            r.wf(),
            r.spec_mask() == *self,
            r.remaining() == Set::new(|i: int| 0 <= i < self@.len() && self@[i]),
    {
        if self.bits.len() == 0 {
            let r = AtomicBitMaskIter { mask: self, current_slot_idx: 0, current_value: 0, finished: true };
            assert(r.remaining() =~= Set::new(|i: int| 0 <= i < self@.len() && self@[i]));
            return r;
        }
        let r = AtomicBitMaskIter { mask: self, current_slot_idx: 0, current_value: self.bits[0], finished: false };
        proof {
            assert forall|j: int| 0 <= j < 64 && #[trigger] word_bit(r.current_value, j) implies j < self@.len() && self@[j] by {
                lemma_word_index(0, j);
            }
            assert(r.remaining() =~= Set::new(|i: int| 0 <= i < self@.len() && self@[i])) by {
                assert forall|i: int| 0 <= i < 64 && i < self@.len() implies #[trigger] word_bit(r.current_value, i) == self@[i] by {
                    lemma_word_index(0, i);
                }
                assert forall|i: int| 0 <= i < 64 && i >= self@.len() implies !#[trigger] word_bit(r.current_value, i) by {
                    lemma_word_index(0, i);
                }
            }
        }
        r
    }
}

/// Setting a bit makes it read as set; clearing it afterwards makes it read as clear,
/// and no other bit changes on the way.
pub proof fn lemma_set_then_clear(bits: Seq<bool>, i: int)
    requires
        0 <= i < bits.len(),
    ensures
        bits.update(i, true)[i],
        !bits.update(i, true).update(i, false)[i],
        forall|j: int| 0 <= j < bits.len() && j != i ==> #[trigger] bits.update(i, true).update(i, false)[j] == bits[j],
{
}
} // verus!
