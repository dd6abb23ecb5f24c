//! A two-level allocation bitmap.
//!
//! Every bit of `data` marks one slot as allocated. Every 128 slots form a
//! range whose two-bit summary in `l1` is `0b00` (empty), `0b01` (partially
//! allocated) or `0b11` (full), so allocation skips full ranges and starts
//! empty ones without scanning them.

use vstd::prelude::*;

verus! {

/// Bits in one data word.
pub const BITS_PER_WORD: usize = 64;
/// Slots summarized by one two-bit entry of the first level.
pub const L1_CHILDREN: usize = 128;
/// Two-bit summaries held by one first-level word.
pub const L1_SLOTS_PER_WORD: usize = 32;

/// Whether bit `b` of `w` is set.
pub open spec fn bit_of(w: u64, b: int) -> bool {
    (w >> (b as u64)) & 1u64 == 1u64
}

/// The two-bit summary `s` held by the first-level word `w`.
pub open spec fn slot_of(w: u64, s: int) -> u64 {
    (w >> ((2 * s) as u64)) & 3u64
}

proof fn lemma_set_bit(w: u64, b: u64, j: u64)
    requires
        b < 64,
        j < 64,
    ensures
        ((w | (1u64 << b)) >> j) & 1u64 == 1u64 <==> (j == b || (w >> j) & 1u64 == 1u64),
        (w | (1u64 << b)) != 0,
        (w & (1u64 << b)) == 0 <==> (w >> b) & 1u64 != 1u64,
{
    assert({
        &&& ((w | (1u64 << b)) >> j) & 1u64 == 1u64 <==> (j == b || (w >> j) & 1u64 == 1u64)
        &&& (w | (1u64 << b)) != 0
        &&& (w & (1u64 << b)) == 0 <==> (w >> b) & 1u64 != 1u64
    }) by (bit_vector)
        requires
            b < 64,
            j < 64,
    ;
}

proof fn lemma_clear_bit(w: u64, b: u64, j: u64)
    requires
        b < 64,
        j < 64,
    ensures
        ((w & !(1u64 << b)) >> j) & 1u64 == 1u64 <==> (j != b && (w >> j) & 1u64 == 1u64),
        (w & !(1u64 << b)) != 0xffff_ffff_ffff_ffffu64,
        (w & (1u64 << b)) != 0 <==> (w >> b) & 1u64 == 1u64,
{
    assert({
        &&& ((w & !(1u64 << b)) >> j) & 1u64 == 1u64 <==> (j != b && (w >> j) & 1u64 == 1u64)
        &&& (w & !(1u64 << b)) != 0xffff_ffff_ffff_ffffu64
        &&& (w & (1u64 << b)) != 0 <==> (w >> b) & 1u64 == 1u64
    }) by (bit_vector)
        requires
            b < 64,
            j < 64,
    ;
}

proof fn lemma_word_bits(w: u64, j: u64)
    requires
        j < 64,
    ensures
        w == 0 ==> (w >> j) & 1u64 != 1u64,
        w == 0xffff_ffff_ffff_ffffu64 ==> (w >> j) & 1u64 == 1u64,
        ((!w) >> j) & 1u64 == 1u64 <==> (w >> j) & 1u64 != 1u64,
        ((!w) >> j) & 1u64 == 0u64 <==> (w >> j) & 1u64 == 1u64,
        w != 0xffff_ffff_ffff_ffffu64 <==> !w != 0,
{
    assert({
        &&& w == 0 ==> (w >> j) & 1u64 != 1u64
        &&& w == 0xffff_ffff_ffff_ffffu64 ==> (w >> j) & 1u64 == 1u64
        &&& ((!w) >> j) & 1u64 == 1u64 <==> (w >> j) & 1u64 != 1u64
        &&& ((!w) >> j) & 1u64 == 0u64 <==> (w >> j) & 1u64 == 1u64
        &&& w != 0xffff_ffff_ffff_ffffu64 <==> !w != 0
    }) by (bit_vector)
        requires
            j < 64,
    ;
}

/// Writing the summary `v` into slot `s` changes that slot only.
proof fn lemma_slot_write(w: u64, s: u64, t: u64, v: u64)
    requires
        s < 32,
        t < 32,
        v <= 3,
    ensures
        (((w & !(3u64 << (2 * s))) | (v << (2 * s))) >> (2 * t)) & 3u64 == if t == s {
            v
        } else {
            (w >> (2 * t)) & 3u64
        },
{
    assert((((w & !(3u64 << (2 * s))) | (v << (2 * s))) >> (2 * t)) & 3u64 == if t == s {
        v
    } else {
        (w >> (2 * t)) & 3u64
    }) by (bit_vector)
        requires
            s < 32,
            t < 32,
            v <= 3,
    ;
}

/// Or-ing `v` into slot `s` changes that slot only: from empty to partial
/// with `0b01`, from partial to full with `0b10`.
proof fn lemma_slot_or(w: u64, s: u64, t: u64, v: u64)
    requires
        s < 32,
        t < 32,
        v <= 3,
    ensures
        t != s ==> ((w | (v << (2 * s))) >> (2 * t)) & 3u64 == (w >> (2 * t)) & 3u64,
        ((w >> (2 * s)) & 3u64 == 0 && v == 1) ==> ((w | (v << (2 * s))) >> (2 * s)) & 3u64
            == 1,
        ((w >> (2 * s)) & 3u64 == 1 && v == 2) ==> ((w | (v << (2 * s))) >> (2 * s)) & 3u64
            == 3,
{
    assert({
        &&& t != s ==> ((w | (v << (2 * s))) >> (2 * t)) & 3u64 == (w >> (2 * t)) & 3u64
        &&& ((w >> (2 * s)) & 3u64 == 0 && v == 1) ==> ((w | (v << (2 * s))) >> (2 * s)) & 3u64
            == 1
        &&& ((w >> (2 * s)) & 3u64 == 1 && v == 2) ==> ((w | (v << (2 * s))) >> (2 * s)) & 3u64
            == 3
    }) by (bit_vector)
        requires
            s < 32,
            t < 32,
            v <= 3,
    ;
}

/// A word that is not zero has a bit set.
proof fn lemma_nonzero_bit(w: u64)
    requires
        w != 0,
    ensures
        exists|j: int| 0 <= j < 64 && #[trigger] bit_of(w, j),
    decreases w,
{
    if (w >> 0u64) & 1u64 == 1u64 {
        assert(bit_of(w, 0));
    } else {
        let v = w >> 1u64;
        assert(w & 1u64 != 1u64) by (bit_vector)
            requires
                (w >> 0u64) & 1u64 != 1u64,
        ;
        assert(v != 0) by (bit_vector)
            requires
                w != 0u64,
                w & 1u64 != 1u64,
                v == w >> 1u64,
        ;
        assert(v < w) by (bit_vector)
            requires
                w != 0u64,
                v == w >> 1u64,
        ;
        lemma_nonzero_bit(v);
        let j = choose|j: int| 0 <= j < 64 && #[trigger] bit_of(v, j);
        let ju = j as u64;
        assert(ju < 63) by {
            if ju == 63 {
                assert((v >> 63u64) & 1u64 == 0u64) by (bit_vector)
                    requires
                        v == w >> 1u64,
                ;
            }
        }
        assert((w >> (ju + 1)) & 1u64 == (v >> ju) & 1u64) by (bit_vector)
            requires
                v == w >> 1u64,
                ju < 63,
        ;
        assert(bit_of(w, j + 1));
    }
}

/// A word that is not all ones has a bit clear.
proof fn lemma_nonfull_bit(w: u64)
    requires
        w != 0xffff_ffff_ffff_ffffu64,
    ensures
        exists|j: int| 0 <= j < 64 && !#[trigger] bit_of(w, j),
{
    lemma_word_bits(w, 0);
    lemma_nonzero_bit(!w);
    let j = choose|j: int| 0 <= j < 64 && #[trigger] bit_of(!w, j);
    lemma_word_bits(w, j as u64);
    assert(!bit_of(w, j));
}

/// Slot `i` lives in word `i / 64` at bit `i % 64`; ranges hold two words.
proof fn lemma_index_split(i: int)
    requires
        0 <= i,
    ensures
        i / 128 == (i / 64) / 2,
        i == 64 * (i / 64) + i % 64,
        0 <= i % 64 < 64,
{
}

/// A set of allocated slots, each a number below the bitmap's size.
pub struct Bitmap {
    data: Vec<u64>,
    l1: Vec<u64>,
    size: usize,
}

impl Bitmap {
    /// The number of slots.
    pub closed spec fn spec_size(&self) -> nat {
        self.size as nat
    }

    /// Whether slot `i` is allocated.
    pub closed spec fn is_allocated(&self, i: int) -> bool {
        bit_of(self.data@[i / 64], i % 64)
    }

    /// The allocated slots.
    pub open spec fn allocated(&self) -> Set<int> {
        Set::new(|i: int| 0 <= i < self.spec_size() && self.is_allocated(i))
    }

    spec fn range_state(&self, r: int) -> u64 {
        slot_of(self.l1@[r / 32], r % 32)
    }

    spec fn range_ok(&self, r: int) -> bool {
        let st = self.range_state(r);
        let w0 = self.data@[2 * r];
        let w1 = self.data@[2 * r + 1];
        &&& st == 0 || st == 1 || st == 3
        &&& st == 0 <==> (w0 == 0 && w1 == 0)
        &&& st == 3 <==> (w0 == 0xffff_ffff_ffff_ffffu64 && w1 == 0xffff_ffff_ffff_ffffu64)
    }

    spec fn shape_ok(&self) -> bool {
        &&& self.size % 128 == 0
        &&& self.data@.len() * 64 == self.size
        &&& self.l1@.len() == (self.size / 128 + 31) / 32
    }

    /// The bitmap's internal invariant.
    pub closed spec fn wf(&self) -> bool {
        &&& self.shape_ok()
        &&& forall|r: int| 0 <= r < self.size / 128 ==> #[trigger] self.range_ok(r)
    }

    /// The two-bit summary of the range of 128 slots that starts at slot
    /// `128 * r`.
    pub closed spec fn range_summary(&self, r: int) -> u64 {
        self.range_state(r)
    }

    /// Slot `128 * r + 64 * h + j` is bit `j` of word `2 * r + h`.
    proof fn lemma_slot_word(&self, r: int, h: int, j: int)
        requires
            0 <= r,
            0 <= h < 2,
            0 <= j < 64,
        ensures
            self.is_allocated(128 * r + 64 * h + j) == bit_of(self.data@[2 * r + h], j),
    {
        let i = 128 * r + 64 * h + j;
        assert(i / 64 == 2 * r + h && i % 64 == j) by (nonlinear_arith)
            requires
                i == 128 * r + 64 * h + j,
                0 <= r,
                0 <= h < 2,
                0 <= j < 64,
        ;
    }

    /// Law: the summary of each range of 128 slots is `0b00` exactly when
    /// none of its slots is allocated, `0b11` exactly when all of them are,
    /// and `0b01` otherwise.
    pub proof fn lemma_range_summary(&self, r: int)
        requires
            self.wf(),
            0 <= r < self.spec_size() / 128,
        ensures
            self.range_summary(r) == 0 <==> forall|i: int|
                128 * r <= i < 128 * r + 128 ==> !#[trigger] self.allocated().contains(i),
            self.range_summary(r) == 3 <==> forall|i: int|
                128 * r <= i < 128 * r + 128 ==> #[trigger] self.allocated().contains(i),
            self.range_summary(r) == 1 <==> (exists|i: int|
                128 * r <= i < 128 * r + 128 && #[trigger] self.allocated().contains(i)) && (exists|i: int|
                128 * r <= i < 128 * r + 128 && !#[trigger] self.allocated().contains(i)),
    {
        assert(self.range_ok(r));
        let w0 = self.data@[2 * r];
        let w1 = self.data@[2 * r + 1];
        assert(128 * r + 128 <= self.spec_size()) by (nonlinear_arith)
            requires
                0 <= r < self.spec_size() / 128,
                self.spec_size() % 128 == 0,
        ;
        // Each slot of the range is a bit of one of its two words.
        assert forall|i: int| 128 * r <= i < 128 * r + 128 implies #[trigger] self.allocated().contains(i)
            == bit_of(self.data@[2 * r + (i - 128 * r) / 64], (i - 128 * r) % 64) by {
            let h = (i - 128 * r) / 64;
            let j = (i - 128 * r) % 64;
            self.lemma_slot_word(r, h, j);
        }
        if self.range_summary(r) == 0 {
            assert forall|i: int| 128 * r <= i < 128 * r + 128 implies !#[trigger] self.allocated().contains(i) by {
                let h = (i - 128 * r) / 64;
                let j = (i - 128 * r) % 64;
                lemma_word_bits(self.data@[2 * r + h], j as u64);
            }
        }
        if self.range_summary(r) == 3 {
            assert forall|i: int| 128 * r <= i < 128 * r + 128 implies #[trigger] self.allocated().contains(i) by {
                let h = (i - 128 * r) / 64;
                let j = (i - 128 * r) % 64;
                lemma_word_bits(self.data@[2 * r + h], j as u64);
            }
        }
        if self.range_summary(r) != 0 {
            // Some word is not zero, so some slot is allocated.
            let h: int = if w0 != 0 { 0 } else { 1 };
            lemma_nonzero_bit(self.data@[2 * r + h]);
            let j = choose|j: int| 0 <= j < 64 && #[trigger] bit_of(self.data@[2 * r + h], j);
            self.lemma_slot_word(r, h, j);
            assert(self.allocated().contains(128 * r + 64 * h + j));
        }
        if self.range_summary(r) != 3 {
            let h: int = if w0 != 0xffff_ffff_ffff_ffffu64 { 0 } else { 1 };
            lemma_nonfull_bit(self.data@[2 * r + h]);
            let j = choose|j: int| 0 <= j < 64 && !#[trigger] bit_of(self.data@[2 * r + h], j);
            self.lemma_slot_word(r, h, j);
            assert(!self.allocated().contains(128 * r + 64 * h + j));
        }
    }

    proof fn lemma_full_range(&self, r: int, i: int)
        requires
            self.wf(),
            0 <= r < self.size / 128,
            self.range_state(r) == 3,
            128 * r <= i < 128 * r + 128,
        ensures
            self.is_allocated(i),
    {
        lemma_index_split(i);
        assert(self.range_ok(r));
        lemma_word_bits(self.data@[i / 64], (i % 64) as u64);
    }

    /// Creates a bitmap of `size` free slots.
    pub fn new(size: usize) -> (bitmap: Self)
        requires
            size % L1_CHILDREN == 0,
        ensures
            bitmap.wf(),
            bitmap.spec_size() == size,
            bitmap.allocated() == Set::<int>::empty(),
    {
        let data_len = size / BITS_PER_WORD;
        let l1_len = (size / L1_CHILDREN + (L1_SLOTS_PER_WORD - 1)) / L1_SLOTS_PER_WORD;
        let mut data: Vec<u64> = Vec::new();
        let mut i: usize = 0;
        while i < data_len
            invariant
                i <= data_len,
                data@.len() == i,
                forall|k: int| 0 <= k < i ==> data@[k] == 0,
            decreases data_len - i,
        {
            data.push(0);
            i += 1;
        }
        let mut l1: Vec<u64> = Vec::new();
        let mut j: usize = 0;
        while j < l1_len
            invariant
                j <= l1_len,
                l1@.len() == j,
                forall|k: int| 0 <= k < j ==> l1@[k] == 0,
            decreases l1_len - j,
        {
            l1.push(0);
            j += 1;
        }
        let bitmap = Bitmap { data, l1, size };
        assert forall|r: int| 0 <= r < bitmap.size / 128 implies #[trigger] bitmap.range_ok(r) by {
            assert(slot_of(0u64, r % 32) == 0) by {
                let s = (r % 32) as u64;
                assert((0u64 >> (2 * s)) & 3u64 == 0) by (bit_vector);
            }
        }
        assert forall|i: int| 0 <= i < size implies !bitmap.is_allocated(i) by {
            lemma_index_split(i);
            lemma_word_bits(0u64, (i % 64) as u64);
        }
        assert(bitmap.allocated() =~= Set::<int>::empty());
        bitmap
    }

    /// Whether every slot of range `l1_idx` is allocated.
    fn l1_range_is_full(&self, l1_idx: usize) -> (full: bool)
        requires
            self.shape_ok(),
            l1_idx < self.spec_size() / 128,
        ensures
            full == (self.data@[2 * l1_idx] == 0xffff_ffff_ffff_ffffu64 && self.data@[2 * l1_idx
                + 1] == 0xffff_ffff_ffff_ffffu64),
    {
        let data_word_begin = l1_idx * L1_CHILDREN / BITS_PER_WORD;
        let mut data_word_end = data_word_begin + L1_CHILDREN / BITS_PER_WORD;
        if data_word_end > self.data.len() {
            data_word_end = self.data.len();
        }
        let mut k = data_word_begin;
        while k < data_word_end
            invariant
                self.shape_ok(),
                l1_idx < self.spec_size() / 128,
                data_word_begin == 2 * l1_idx,
                data_word_end == 2 * l1_idx + 2,
                data_word_begin <= k <= data_word_end,
                forall|j: int|
                    data_word_begin <= j < k ==> self.data@[j] == 0xffff_ffff_ffff_ffffu64,
            decreases data_word_end - k,
        {
            if self.data[k] != 0xffff_ffff_ffff_ffffu64 {
                return false;
            }
            k += 1;
        }
        true
    }

    /// Whether no slot of range `l1_idx` is allocated.
    fn l1_range_is_empty(&self, l1_idx: usize) -> (empty: bool)
        requires
            self.shape_ok(),
            l1_idx < self.spec_size() / 128,
        ensures
            empty == (self.data@[2 * l1_idx] == 0 && self.data@[2 * l1_idx + 1] == 0),
    {
        let data_word_begin = l1_idx * L1_CHILDREN / BITS_PER_WORD;
        let mut data_word_end = data_word_begin + L1_CHILDREN / BITS_PER_WORD;
        if data_word_end > self.data.len() {
            data_word_end = self.data.len();
        }
        let mut k = data_word_begin;
        while k < data_word_end
            invariant
                self.shape_ok(),
                l1_idx < self.spec_size() / 128,
                data_word_begin == 2 * l1_idx,
                data_word_end == 2 * l1_idx + 2,
                data_word_begin <= k <= data_word_end,
                forall|j: int| data_word_begin <= j < k ==> self.data@[j] == 0,
            decreases data_word_end - k,
        {
            if self.data[k] != 0 {
                return false;
            }
            k += 1;
        }
        true
    }

    /// Allocates the lowest free slot, or returns `None` when every slot is
    /// allocated.
    pub fn allocate(&mut self) -> (result: Option<usize>)
        requires
            old(self).wf(),
        ensures
            final(self).wf(),
            final(self).spec_size() == old(self).spec_size(),
            match result {
                Some(i) => {
                    &&& i < old(self).spec_size()
                    &&& !old(self).allocated().contains(i as int)
                    &&& final(self).allocated() == old(self).allocated().insert(i as int)
                    &&& forall|j: int| 0 <= j < i ==> old(self).allocated().contains(j)
                },
                None => {
                    &&& final(self).allocated() == old(self).allocated()
                    &&& forall|j: int|
                        0 <= j < old(self).spec_size() ==> old(self).allocated().contains(j)
                },
            },
    {
        let ghost prev = *self;
        let l1_len = self.size / L1_CHILDREN;
        let mut l1_idx: usize = 0;
        while l1_idx < l1_len
            invariant
                self.wf(),
                *self == prev,
                prev == *old(self),
                l1_len == self.size / 128,
                l1_idx <= l1_len,
                forall|q: int| 0 <= q < l1_idx ==> #[trigger] self.range_state(q) == 3,
            decreases l1_len - l1_idx,
        {
            let l1_word_idx = l1_idx / L1_SLOTS_PER_WORD;
            let l1_shift = ((l1_idx % L1_SLOTS_PER_WORD) * 2) as u64;
            let state = (self.l1[l1_word_idx] >> l1_shift) & 0b11;
            proof {
                assert(self.range_ok(l1_idx as int));
            }
            if state == 0b00 {
                let data_idx = l1_idx * L1_CHILDREN;
                let word_idx = data_idx / BITS_PER_WORD;
                let bit = (data_idx % BITS_PER_WORD) as u64;
                let word = self.data[word_idx];
                self.data.set(word_idx, word | (1u64 << bit));
                let l1_word = self.l1[l1_word_idx];
                self.l1.set(l1_word_idx, l1_word | (0b01u64 << l1_shift));
                proof {
                    lemma_index_split(data_idx as int);
                    assert(self.data@[2 * l1_idx + 1] == 0);
                    assert forall|t: int| 0 <= t < 32 implies slot_of(
                        self.l1@[l1_word_idx as int],
                        t,
                    ) == if t == l1_idx % 32 {
                        1u64
                    } else {
                        slot_of(l1_word, t)
                    } by {
                        lemma_slot_or(l1_word, (l1_idx % 32) as u64, t as u64, 1);
                    }
                    prev.lemma_below_full(l1_idx as int);
                    self.lemma_update(prev, word_idx as int, bit as int, true);
                    lemma_word_bits(0u64, 0u64);
                }
                return Some(data_idx);
            } else if state == 0b01 {
                let data_word_begin = l1_idx * L1_CHILDREN / BITS_PER_WORD;
                let mut data_word_end = data_word_begin + L1_CHILDREN / BITS_PER_WORD;
                if data_word_end > self.data.len() {
                    data_word_end = self.data.len();
                }
                let mut found: Option<usize> = None;
                let mut data_word_idx = data_word_begin;
                while data_word_idx < data_word_end
                    invariant_except_break
                        found is None,
                    invariant
                        self.wf(),
                        *self == prev,
                        l1_idx < l1_len,
                        l1_len == self.size / 128,
                        data_word_begin == 2 * l1_idx,
                        data_word_end == 2 * l1_idx + 2,
                        data_word_begin <= data_word_idx <= data_word_end,
                        forall|j: int|
                            data_word_begin <= j < data_word_idx ==> self.data@[j]
                                == 0xffff_ffff_ffff_ffffu64,
                    ensures
                        found matches Some(k) ==> {
                            &&& data_word_begin <= k < data_word_end
                            &&& self.data@[k as int] != 0xffff_ffff_ffff_ffffu64
                            &&& forall|j: int|
                                data_word_begin <= j < k ==> self.data@[j]
                                    == 0xffff_ffff_ffff_ffffu64
                        },
                        found is None ==> forall|j: int|
                            data_word_begin <= j < data_word_end ==> self.data@[j]
                                == 0xffff_ffff_ffff_ffffu64,
                    decreases data_word_end - data_word_idx,
                {
                    let free_bits = !self.data[data_word_idx];
                    proof {
                        lemma_word_bits(self.data@[data_word_idx as int], 0);
                    }
                    if free_bits == 0 {
                        data_word_idx += 1;
                        continue;
                    }
                    found = Some(data_word_idx);
                    break;
                }
                proof {
                    assert(found is Some);
                }
                let word_idx = found.expect("a partial L1 range must contain a free bit");
                let word = self.data[word_idx];
                let free_bits = !word;
                let bit_idx = free_bits.trailing_zeros() as u64;
                proof {
                    vstd::std_specs::bits::axiom_u64_trailing_zeros(free_bits);
                    lemma_word_bits(word, 0);
                }
                self.data.set(word_idx, word | (1u64 << bit_idx));
                let result = word_idx * BITS_PER_WORD + bit_idx as usize;
                if self.l1_range_is_full(l1_idx) {
                    let l1_word = self.l1[l1_word_idx];
                    self.l1.set(l1_word_idx, l1_word | (0b10u64 << l1_shift));
                    proof {
                        assert forall|t: int| 0 <= t < 32 implies slot_of(
                            self.l1@[l1_word_idx as int],
                            t,
                        ) == if t == l1_idx % 32 {
                            3u64
                        } else {
                            slot_of(l1_word, t)
                        } by {
                            lemma_slot_or(l1_word, (l1_idx % 32) as u64, t as u64, 2);
                        }
                    }
                }
                proof {
                    lemma_word_bits(word, bit_idx);
                    self.lemma_update(prev, word_idx as int, bit_idx as int, true);
                    prev.lemma_below_full(l1_idx as int);
                    assert forall|j: int| 0 <= j < result implies prev.allocated().contains(j) by {
                        if j >= 128 * l1_idx {
                            lemma_index_split(j);
                            let jw = j / 64;
                            if jw < word_idx {
                                lemma_word_bits(prev.data@[jw], (j % 64) as u64);
                            } else {
                                let jb = (j % 64) as u64;
                                assert((free_bits >> jb) & 1u64 == 0u64);
                                lemma_word_bits(word, jb);
                            }
                        }
                    }
                }
                return Some(result);
            } else {
                l1_idx += 1;
            }
        }
        proof {
            prev.lemma_below_full(l1_len as int);
        }
        None
    }

    /// Every slot of the ranges below `r` is allocated when they are full.
    proof fn lemma_below_full(&self, r: int)
        requires
            self.wf(),
            0 <= r <= self.size / 128,
            forall|q: int| 0 <= q < r ==> #[trigger] self.range_state(q) == 3,
        ensures
            forall|j: int| 0 <= j < 128 * r ==> self.allocated().contains(j),
    {
        assert forall|j: int| 0 <= j < 128 * r implies self.allocated().contains(j) by {
            lemma_index_split(j);
            let q = j / 128;
            assert(self.range_state(q) == 3);
            self.lemma_full_range(q, j);
        }
    }

    /// Marks the free slot `index` as allocated.
    pub fn alloc_at(&mut self, index: usize)
        requires
            old(self).wf(),
            index < old(self).spec_size(),
            !old(self).allocated().contains(index as int),
        ensures
            final(self).wf(),
            final(self).spec_size() == old(self).spec_size(),
            final(self).allocated() == old(self).allocated().insert(index as int),
    {
        let ghost prev = *self;
        let word_idx = index / BITS_PER_WORD;
        let bit = (index % BITS_PER_WORD) as u64;
        let data_mask = 1u64 << bit;
        let word = self.data[word_idx];
        proof {
            lemma_index_split(index as int);
            lemma_set_bit(word, bit, bit);
        }
        assert(word & data_mask == 0);
        self.data.set(word_idx, word | data_mask);

        let l1_idx = index / L1_CHILDREN;
        let l1_shift = ((l1_idx % L1_SLOTS_PER_WORD) * 2) as u64;
        let l1_mask = 3u64 << l1_shift;
        let state: u64 = if self.l1_range_is_full(l1_idx) {
            0b11
        } else {
            0b01
        };
        let l1_word_idx = l1_idx / L1_SLOTS_PER_WORD;
        let l1_word = self.l1[l1_word_idx];
        self.l1.set(l1_word_idx, (l1_word & !l1_mask) | (state << l1_shift));
        proof {
            assert forall|t: int| 0 <= t < 32 implies slot_of(self.l1@[l1_word_idx as int], t)
                == if t == l1_idx % 32 {
                state
            } else {
                slot_of(l1_word, t)
            } by {
                lemma_slot_write(l1_word, (l1_idx % 32) as u64, t as u64, state);
            }
            self.lemma_update(prev, word_idx as int, bit as int, true);
        }
    }

    /// Marks the allocated slot `index` as free.
    pub fn dealloc(&mut self, index: usize)
        requires
            old(self).wf(),
            index < old(self).spec_size(),
            old(self).allocated().contains(index as int),
        ensures
            final(self).wf(),
            final(self).spec_size() == old(self).spec_size(),
            final(self).allocated() == old(self).allocated().remove(index as int),
    {
        let ghost prev = *self;
        let word_idx = index / BITS_PER_WORD;
        let bit = (index % BITS_PER_WORD) as u64;
        let data_mask = 1u64 << bit;
        let word = self.data[word_idx];
        proof {
            lemma_index_split(index as int);
            lemma_clear_bit(word, bit, bit);
        }
        assert(word & data_mask != 0);
        self.data.set(word_idx, word & !data_mask);

        let l1_idx = index / L1_CHILDREN;
        let l1_shift = ((l1_idx % L1_SLOTS_PER_WORD) * 2) as u64;
        let l1_mask = 3u64 << l1_shift;
        let state: u64 = if self.l1_range_is_empty(l1_idx) {
            0b00
        } else {
            0b01
        };
        let l1_word_idx = l1_idx / L1_SLOTS_PER_WORD;
        let l1_word = self.l1[l1_word_idx];
        self.l1.set(l1_word_idx, (l1_word & !l1_mask) | (state << l1_shift));
        proof {
            assert forall|t: int| 0 <= t < 32 implies slot_of(self.l1@[l1_word_idx as int], t)
                == if t == l1_idx % 32 {
                state
            } else {
                slot_of(l1_word, t)
            } by {
                lemma_slot_write(l1_word, (l1_idx % 32) as u64, t as u64, state);
            }
            self.lemma_update(prev, word_idx as int, bit as int, false);
        }
    }

    /// After one bit of word `k` changed and the summary of its range was
    /// rewritten to match, the invariant holds and one slot changed.
    proof fn lemma_update(&self, prev: Bitmap, k: int, b: int, set: bool)
        requires
            prev.wf(),
            self.size == prev.size,
            0 <= k < prev.data@.len(),
            0 <= b < 64,
            self.data@.len() == prev.data@.len(),
            self.l1@.len() == prev.l1@.len(),
            forall|j: int| 0 <= j < self.data@.len() && j != k ==> self.data@[j] == prev.data@[j],
            set ==> self.data@[k] == prev.data@[k] | (1u64 << (b as u64)),
            !set ==> self.data@[k] == prev.data@[k] & !(1u64 << (b as u64)),
            forall|j: int| 0 <= j < self.l1@.len() && j != (k / 2) / 32 ==> self.l1@[j] == prev.l1@[j],
            forall|t: int|
                0 <= t < 32 && t != (k / 2) % 32 ==> #[trigger] slot_of(self.l1@[(k / 2) / 32], t) == slot_of(
                    prev.l1@[(k / 2) / 32],
                    t,
                ),
            ({
                let r = k / 2;
                let st: u64 = if set {
                    if self.data@[2 * r] == 0xffff_ffff_ffff_ffffu64 && self.data@[2 * r + 1]
                        == 0xffff_ffff_ffff_ffffu64 {
                        3
                    } else {
                        1
                    }
                } else {
                    if self.data@[2 * r] == 0 && self.data@[2 * r + 1] == 0 {
                        0
                    } else {
                        1
                    }
                };
                slot_of(self.l1@[r / 32], r % 32) == st
            }),
        ensures
            self.wf(),
            set ==> self.allocated() == prev.allocated().insert(64 * k + b),
            !set ==> self.allocated() == prev.allocated().remove(64 * k + b),
    {
        let r = k / 2;
        let w = prev.data@[k];
        if set {
            lemma_set_bit(w, b as u64, b as u64);
        } else {
            lemma_clear_bit(w, b as u64, b as u64);
        }
        assert forall|q: int| 0 <= q < self.size / 128 implies #[trigger] self.range_ok(q) by {
            assert(prev.range_ok(q));
            let st: u64 = if set {
                if self.data@[2 * r] == 0xffff_ffff_ffff_ffffu64 && self.data@[2 * r + 1]
                    == 0xffff_ffff_ffff_ffffu64 {
                    3
                } else {
                    1
                }
            } else {
                if self.data@[2 * r] == 0 && self.data@[2 * r + 1] == 0 {
                    0
                } else {
                    1
                }
            };
        }
        assert forall|i: int| 0 <= i < self.size implies #[trigger] self.is_allocated(i) == (if set {
            prev.is_allocated(i) || i == 64 * k + b
        } else {
            prev.is_allocated(i) && i != 64 * k + b
        }) by {
            lemma_index_split(i);
            if i / 64 == k {
                if set {
                    lemma_set_bit(w, b as u64, (i % 64) as u64);
                } else {
                    lemma_clear_bit(w, b as u64, (i % 64) as u64);
                }
            }
        }
        if set {
            assert(self.allocated() =~= prev.allocated().insert(64 * k + b));
        } else {
            assert(self.allocated() =~= prev.allocated().remove(64 * k + b));
        }
    }
}

} // verus!
