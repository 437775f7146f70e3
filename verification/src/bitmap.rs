//! Bitmap of free slots, scanned word by word from a moving cursor.
use vstd::prelude::*;
use vstd::arithmetic::power2::*;
use vstd::arithmetic::div_mod::*;
use vstd::std_specs::bits::*;

verus! {

/// Slots per bitmap word.
pub const BITS_PER_WORD: usize = usize::BITS as usize;

/// The word that holds a slot. A word is as wide as a `usize`: 64 bits or 32.
pub open spec fn word_of(slot: int) -> int {
    if usize::BITS == 64 {
        slot / 64
    } else {
        slot / 32
    }
}

/// The bit of its word that stands for a slot.
pub open spec fn bit_of(slot: int) -> int {
    if usize::BITS == 64 {
        slot % 64
    } else {
        slot % 32
    }
}

/// Slots that come before the word `w`.
pub open spec fn slots_before(w: int) -> int {
    if usize::BITS == 64 {
        w * 64
    } else {
        w * 32
    }
}

/// Words that hold `slot_count` slots.
pub open spec fn words_for(slot_count: nat) -> nat {
    word_of(slot_count + usize::BITS - 1) as nat
}

/// Words that a scan visits: the word count rounded up to a power of two.
pub open spec fn scan_words(slot_count: nat) -> nat {
    crate::bits::ceil_pow2(words_for(slot_count))
}

/// What a bitmap stands for: which slots are free, and where the next scan
/// starts.
#[verifier::ext_equal]
pub struct BitmapView {
    pub free: Seq<bool>,
    pub cursor: nat,
}

impl BitmapView {
    /// The word at which the next scan starts.
    pub open spec fn start_word(self) -> int {
        self.cursor as int % scan_words(self.free.len()) as int
    }

    /// Position of `slot` in the order in which the next scan meets the slots:
    /// words from the start word on, wrapping round, and upwards in each word.
    pub open spec fn rank(self, slot: int) -> int {
        let word = word_of(slot);
        let start = self.start_word();
        let ahead = if word >= start {
            word - start
        } else {
            word - start + scan_words(self.free.len())
        };
        slots_before(ahead) + bit_of(slot)
    }

    /// `slot` is the free slot that the next scan meets first.
    pub open spec fn picks(self, slot: int) -> bool {
        &&& 0 <= slot < self.free.len()
        &&& self.free[slot]
        &&& forall|other: int|
            0 <= other < self.free.len() && #[trigger] self.free[other] ==> self.rank(slot)
                <= self.rank(other)
    }

    /// Some slot is free.
    pub open spec fn any_free(self) -> bool {
        exists|slot: int| 0 <= slot < self.free.len() && #[trigger] self.free[slot]
    }

    /// The bitmap after a scan has moved the cursor on.
    pub open spec fn scanned(self) -> BitmapView {
        BitmapView {
            free: self.free,
            cursor: if self.cursor == usize::MAX {
                0
            } else {
                self.cursor + 1
            },
        }
    }

    /// The bitmap with one slot marked free or taken.
    pub open spec fn with(self, slot: int, free: bool) -> BitmapView {
        BitmapView { free: self.free.update(slot, free), cursor: self.cursor }
    }

    /// A bitmap of `slot_count` free slots that was never scanned.
    pub open spec fn fresh(slot_count: nat) -> BitmapView {
        BitmapView { free: Seq::new(slot_count, |i: int| true), cursor: 0 }
    }

    /// The bitmap after allocations that handed out these slots in turn.
    pub open spec fn drawn(self, slots: Seq<int>) -> BitmapView
        decreases slots.len(),
    {
        if slots.len() == 0 {
            self
        } else {
            self.drawn(slots.drop_last()).scanned().with(slots.last(), false)
        }
    }

    /// Allocations in a row hand out exactly these slots in turn.
    pub open spec fn draws(self, slots: Seq<int>) -> bool
        decreases slots.len(),
    {
        slots.len() > 0 ==> self.draws(slots.drop_last()) && self.drawn(slots.drop_last()).picks(
            slots.last(),
        )
    }

    /// The bitmap with the slots `start..end` marked free.
    pub open spec fn with_range(self, start: int, end: int) -> BitmapView {
        BitmapView {
            free: Seq::new(
                self.free.len(),
                |i: int|
                    if start <= i < end {
                        true
                    } else {
                        self.free[i]
                    },
            ),
            cursor: self.cursor,
        }
    }
}

/// Bitmap of slots: a set bit is a free slot, a clear bit a taken one.
///
/// A scan starts at the word that the cursor names, so that consecutive
/// allocations are spread over the words. The words are padded to a power of
/// two with words that hold no free bit.
#[derive(Debug)]
pub struct Bitmap {
    words: Vec<usize>,
    cursor: usize,
    scan_words: usize,
    word_mask: usize,
    slot_count: usize,
}

impl View for Bitmap {
    type V = BitmapView;

    closed spec fn view(&self) -> BitmapView {
        BitmapView {
            free: Seq::new(
                self.slot_count as nat,
                |i: int| crate::bits::bit(self.words@[word_of(i)], bit_of(i)),
            ),
            cursor: self.cursor as nat,
        }
    }
}

impl Bitmap {
    /// No bit beyond the last slot is set, and the scan covers every word.
    pub closed spec fn wf(&self) -> bool {
        &&& self.words@.len() == scan_words(self.slot_count as nat)
        &&& self.scan_words == self.words@.len()
        &&& self.word_mask == self.scan_words - 1
        &&& forall|w: int, b: int|
            0 <= w < self.words@.len() && #[trigger] crate::bits::bit(self.words@[w], b)
                ==> slots_before(w) + b < self.slot_count
    }

    proof fn lemma_shape(&self)
        requires
            self.wf(),
        ensures
            self.words@.len() >= 1,
            is_pow2(self.words@.len() as int),
            self.words@.len() <= usize::MAX / 2,
            self.slot_count <= slots_before(self.words@.len() as int),
    {
        crate::bits::lemma_ceil_pow2(words_for(self.slot_count as nat));
        reveal(is_pow2);
    }

    /// A bitmap of `slot_count` slots, all free.
    pub fn new(slot_count: usize) -> (r: Self)
        ensures
            r.wf(),
            r@ == BitmapView::fresh(slot_count as nat),
    {
        Self::with_allocation_state(slot_count, true)
    }

    /// A bitmap of `slot_count` slots, all taken.
    pub fn new_empty(slot_count: usize) -> (r: Self)
        ensures
            r.wf(),
            r@ == (BitmapView { free: Seq::new(slot_count as nat, |i: int| false), cursor: 0 }),
    {
        Self::with_allocation_state(slot_count, false)
    }

    fn with_allocation_state(slot_count: usize, initially_free: bool) -> (r: Self)
        ensures
            r.wf(),
            r@ == (BitmapView {
                free: Seq::new(slot_count as nat, |i: int| initially_free),
                cursor: 0,
            }),
    {
        let actual_words = words_needed(slot_count);
        proof {
            crate::bits::lemma_ceil_pow2(words_for(slot_count as nat));
            crate::bits::lemma_constant_words();
        }
        let scan_words: usize = crate::bits::checked_next_power_of_two(actual_words).unwrap();
        let mut words: Vec<usize> = Vec::with_capacity(scan_words);
        let mut remaining: usize = slot_count;
        let mut w: usize = 0;
        while w < scan_words
            invariant
                w == words@.len(),
                w <= scan_words,
                remaining <= slot_count,
                slots_before(w as int) <= slot_count ==> remaining == slot_count - slots_before(
                    w as int,
                ),
                slots_before(w as int) > slot_count ==> remaining == 0,
                forall|v: int, b: int|
                    0 <= v < words@.len() && 0 <= b < usize::BITS ==> #[trigger] crate::bits::bit(
                        words@[v],
                        b,
                    ) == (initially_free && slots_before(v) + b < slot_count),
                forall|j: int| 0 <= j < usize::BITS ==> #[trigger] crate::bits::bit(usize::MAX, j),
                forall|j: int| !(#[trigger] crate::bits::bit(0usize, j)),
            decreases scan_words - w,
        {
            let valid_bits: usize = if remaining < BITS_PER_WORD {
                remaining
            } else {
                BITS_PER_WORD
            };
            let free_mask: usize = if valid_bits == BITS_PER_WORD {
                usize::MAX
            } else {
                proof {
                    crate::bits::lemma_low_ones(valid_bits);
                }
                (1usize << valid_bits) - 1
            };
            let initial: usize = if initially_free {
                free_mask
            } else {
                0
            };
            words.push(initial);
            remaining = remaining - valid_bits;
            w = w + 1;
        }
        let r = Bitmap {
            words,
            cursor: 0,
            scan_words,
            word_mask: scan_words - 1,
            slot_count,
        };
        assert(r@.free =~= Seq::new(slot_count as nat, |i: int| initially_free)) by {
            assert forall|i: int| 0 <= i < slot_count implies r@.free[i] == initially_free by {
                lemma_place(i);
                assert(0 <= word_of(i) < r.words@.len());
            }
        }
        r
    }

    /// Number of slots.
    pub fn slot_count(&self) -> (r: usize)
        ensures
            r == self@.free.len(),
    {
        self.slot_count
    }

    /// Takes the free slot that the scan meets first, or returns `None` when
    /// every slot is taken. The cursor moves on in either case, except on a
    /// bitmap without slots.
    pub fn try_alloc(&mut self) -> (r: Option<usize>)
        requires
            old(self).wf(),
        ensures
            final(self).wf(),
            match r {
                Some(slot) => {
                    &&& old(self)@.picks(slot as int)
                    &&& final(self)@ == old(self)@.scanned().with(slot as int, false)
                },
                None => {
                    &&& !old(self)@.any_free()
                    &&& final(self)@ == if old(self)@.free.len() == 0 {
                        old(self)@
                    } else {
                        old(self)@.scanned()
                    }
                },
            },
    {
        if self.slot_count == 0 {
            return None;
        }
        proof {
            self.lemma_shape();
            crate::bits::lemma_mask_is_mod(self.cursor, self.scan_words);
        }
        let start: usize = self.cursor & self.word_mask;
        self.cursor = self.cursor.wrapping_add(1);
        assert(self@ == old(self)@.scanned());
        let mut i: usize = 0;
        while i < self.scan_words
            invariant
                old(self).wf(),
                self.wf(),
                self.words@ == old(self).words@,
                self.words@.len() <= usize::MAX / 2,
                is_pow2(self.words@.len() as int),
                self.slot_count == old(self).slot_count,
                self.slot_count <= slots_before(self.words@.len() as int),
                self@ == old(self)@.scanned(),
                start == old(self)@.start_word(),
                start < self.words@.len(),
                i <= self.scan_words,
                forall|k: int|
                    0 <= k < i ==> #[trigger] self.words@[wrapped(
                        start as int,
                        k,
                        self.words@.len() as int,
                    )] == 0,
            decreases self.scan_words - i,
        {
            let word_idx: usize = (start + i) & self.word_mask;
            proof {
                crate::bits::lemma_mask_is_mod((start + i) as usize, self.scan_words);
                lemma_wrapped(start as int, i as int, self.scan_words as int);
                assert(word_idx == wrapped(start as int, i as int, self.words@.len() as int));
            }
            match self.try_claim_word(word_idx) {
                Some(slot) => {
                    proof {
                        old(self).lemma_picks(start as int, i as int, slot as int);
                    }
                    return Some(slot);
                },
                None => {},
            }
            i = i + 1;
        }
        proof {
            old(self).lemma_exhausted(start as int);
        }
        None
    }

    /// Takes the lowest free slot of one word, if the word has one.
    fn try_claim_word(&mut self, word_idx: usize) -> (r: Option<usize>)
        requires
            old(self).wf(),
            word_idx < old(self).words@.len(),
        ensures
            final(self).wf(),
            match r {
                Some(slot) => {
                    &&& word_of(slot as int) == word_idx
                    &&& slot < old(self).slot_count
                    &&& old(self)@.free[slot as int]
                    &&& forall|b: int|
                        0 <= b < bit_of(slot as int) ==> !(#[trigger] crate::bits::bit(
                            old(self).words@[word_idx as int],
                            b,
                        ))
                    &&& final(self)@ == old(self)@.with(slot as int, false)
                },
                None => {
                    &&& old(self).words@[word_idx as int] == 0
                    &&& *final(self) == *old(self)
                },
            },
    {
        let bits: usize = self.words[word_idx];
        if bits == 0 {
            return None;
        }
        proof {
            crate::bits::lemma_lowest_bit(bits);
        }
        let bit: usize = (bits as u64).trailing_zeros() as usize;
        proof {
            crate::bits::lemma_bit_update(bits, bit);
            assert(slots_before(word_idx as int) + bit < self.slot_count);
        }
        let mask: usize = 1usize << bit;
        self.words[word_idx] = bits & !mask;
        let slot: usize = word_idx * BITS_PER_WORD + bit;
        proof {
            self.lemma_word_written(old(self), slot as int, false);
        }
        Some(slot)
    }

    /// Returns a taken slot to the pool.
    pub fn free(&mut self, slot: usize)
        requires
            old(self).wf(),
            slot < old(self)@.free.len(),
            !old(self)@.free[slot as int],
        ensures
            final(self).wf(),
            final(self)@ == old(self)@.with(slot as int, true),
    {
        self.mark(slot);
    }

    /// Sets the bit of one slot.
    fn mark(&mut self, slot: usize)
        requires
            old(self).wf(),
            slot < old(self)@.free.len(),
        ensures
            final(self).wf(),
            final(self)@ == old(self)@.with(slot as int, true),
    {
        proof {
            self.lemma_shape();
        }
        let (word_idx, bit) = place(slot);
        let mask: usize = 1usize << bit;
        let prev: usize = self.words[word_idx];
        proof {
            crate::bits::lemma_bit_update(prev, bit);
        }
        self.words[word_idx] = prev | mask;
        proof {
            self.lemma_word_written(old(self), slot as int, true);
        }
    }

    /// Takes exactly this slot; reports whether it was free.
    pub fn try_claim_exact(&mut self, slot: usize) -> (r: bool)
        requires
            old(self).wf(),
            slot < old(self)@.free.len(),
        ensures
            final(self).wf(),
            r == old(self)@.free[slot as int],
            final(self)@ == old(self)@.with(slot as int, false),
    {
        proof {
            self.lemma_shape();
        }
        let (word_idx, bit) = place(slot);
        let mask: usize = 1usize << bit;
        let prev: usize = self.words[word_idx];
        proof {
            crate::bits::lemma_bit_update(prev, bit);
        }
        self.words[word_idx] = prev & !mask;
        proof {
            self.lemma_word_written(old(self), slot as int, false);
        }
        prev & mask != 0
    }

    /// Whether some slot is free.
    pub fn any_free(&self) -> (r: bool)
        requires
            self.wf(),
        ensures
            r == self@.any_free(),
    {
        let actual_words = words_needed(self.slot_count);
        proof {
            self.lemma_shape();
            crate::bits::lemma_ceil_pow2(words_for(self.slot_count as nat));
            crate::bits::lemma_constant_words();
        }
        let mut word_idx: usize = 0;
        while word_idx < actual_words
            invariant
                self.wf(),
                actual_words == words_for(self.slot_count as nat),
                actual_words <= self.words@.len(),
                word_idx <= actual_words,
                forall|w: int| 0 <= w < word_idx ==> #[trigger] self.words@[w] == 0,
            decreases actual_words - word_idx,
        {
            let bits: usize = self.words[word_idx];
            if bits != 0 {
                proof {
                    crate::bits::lemma_lowest_bit(bits);
                    let slot = slots_before(word_idx as int) + crate::bits::lowest_bit(bits);
                    assert(self@.free[slot]);
                }
                return true;
            }
            word_idx = word_idx + 1;
        }
        assert forall|slot: int| 0 <= slot < self.slot_count implies !(#[trigger] self@.free[slot]) by {
            assert(0 <= word_of(slot) < actual_words);
            assert(self.words@[word_of(slot)] == 0);
        }
        false
    }

    /// Whether `slot` is free.
    pub fn is_free(&self, slot: usize) -> (r: bool)
        requires
            self.wf(),
            slot < self@.free.len(),
        ensures
            r == self@.free[slot as int],
    {
        proof {
            self.lemma_shape();
        }
        let (word_idx, bit) = place(slot);
        let mask: usize = 1usize << bit;
        let bits: usize = self.words[word_idx];
        proof {
            crate::bits::lemma_bit_update(bits, bit);
        }
        bits & mask != 0
    }

    /// Number of free slots.
    pub fn free_count(&self) -> (r: usize)
        requires
            self.wf(),
        ensures
            r == crate::bits::count_true(self@.free),
    {
        let mut total: usize = 0;
        let mut slot: usize = 0;
        while slot < self.slot_count
            invariant
                self.wf(),
                slot <= self.slot_count,
                total <= slot,
                self.slot_count == self@.free.len(),
                total == crate::bits::count_true(self@.free.take(slot as int)),
            decreases self.slot_count - slot,
        {
            assert(self@.free.take(slot + 1).drop_last() =~= self@.free.take(slot as int));
            if self.is_free(slot) {
                total = total + 1;
            }
            slot = slot + 1;
        }
        assert(self@.free.take(slot as int) =~= self@.free);
        total
    }

    /// Marks every slot of `start..end`.
    pub fn set_range(&mut self, start: usize, end: usize)
        requires
            old(self).wf(),
            start <= end <= old(self)@.free.len(),
        ensures
            final(self).wf(),
            final(self)@ == old(self)@.with_range(start as int, end as int),
    {
        let mut slot: usize = start;
        assert(self@ =~= old(self)@.with_range(start as int, slot as int));
        while slot < end
            invariant
                self.wf(),
                start <= slot <= end,
                end <= old(self)@.free.len(),
                self@ == old(self)@.with_range(start as int, slot as int),
            decreases end - slot,
        {
            self.mark(slot);
            slot = slot + 1;
            assert(self@ =~= old(self)@.with_range(start as int, slot as int));
        }
    }

    /// Whether every slot of `start..end` is marked.
    pub fn all_set_in_range(&self, start: usize, end: usize) -> (r: bool)
        requires
            self.wf(),
            start <= end <= self@.free.len(),
        ensures
            r == (forall|i: int| start <= i < end ==> #[trigger] self@.free[i]),
    {
        let mut slot: usize = start;
        while slot < end
            invariant
                self.wf(),
                start <= slot <= end,
                end <= self@.free.len(),
                forall|i: int| start <= i < slot ==> #[trigger] self@.free[i],
            decreases end - slot,
        {
            if !self.is_free(slot) {
                return false;
            }
            slot = slot + 1;
        }
        true
    }

    /// Writing one bit of one word moves one slot of the view.
    proof fn lemma_word_written(&self, pre: &Bitmap, slot: int, free: bool)
        requires
            pre.wf(),
            0 <= slot < pre.slot_count,
            self.slot_count == pre.slot_count,
            self.cursor == pre.cursor,
            self.scan_words == pre.scan_words,
            self.word_mask == pre.word_mask,
            self.words@ == pre.words@.update(word_of(slot), self.words@[word_of(slot)]),
            forall|b: int|
                0 <= b < usize::BITS ==> #[trigger] crate::bits::bit(self.words@[word_of(slot)], b) == if b
                    == bit_of(slot) {
                    free
                } else {
                    crate::bits::bit(pre.words@[word_of(slot)], b)
                },
        ensures
            self.wf(),
            self@ == pre@.with(slot, free),
    {
        pre.lemma_shape();
        assert(0 <= word_of(slot) < pre.words@.len());
        assert(slots_before(word_of(slot)) + bit_of(slot) == slot);
        assert forall|i: int| 0 <= i < pre.slot_count implies self@.free[i] == pre@.with(
            slot,
            free,
        ).free[i] by {
            assert(slots_before(word_of(i)) + bit_of(i) == i);
            assert(0 <= word_of(i) < pre.words@.len());
            if word_of(i) == word_of(slot) && bit_of(i) == bit_of(slot) {
                assert(i == slot);
            }
        }
        assert(self@.free =~= pre@.with(slot, free).free);
        assert forall|w: int, b: int|
            0 <= w < self.words@.len() && #[trigger] crate::bits::bit(
                self.words@[w],
                b,
            ) implies slots_before(w) + b < self.slot_count by {
            if w == word_of(slot) {
                if b != bit_of(slot) {
                    assert(crate::bits::bit(pre.words@[w], b));
                }
            } else {
                assert(self.words@[w] == pre.words@[w]);
            }
        }
    }

    /// The lowest bit of the first non-empty word is the first free slot.
    proof fn lemma_picks(&self, start: int, i: int, slot: int)
        requires
            self.wf(),
            start == self@.start_word(),
            0 <= start < self.words@.len(),
            0 <= i < self.words@.len(),
            0 <= slot < self.slot_count,
            word_of(slot) == wrapped(start, i, self.words@.len() as int),
            self@.free[slot],
            forall|b: int|
                0 <= b < bit_of(slot) ==> !(#[trigger] crate::bits::bit(self.words@[word_of(slot)], b)),
            forall|k: int|
                0 <= k < i ==> #[trigger] self.words@[wrapped(
                    start,
                    k,
                    self.words@.len() as int,
                )] == 0,
        ensures
            self@.picks(slot),
    {
        self.lemma_shape();
        crate::bits::lemma_constant_words();
        let n = self.words@.len() as int;
        assert(self@.rank(slot) == slots_before(i) + bit_of(slot));
        assert forall|other: int|
            0 <= other < self.slot_count && #[trigger] self@.free[other] implies self@.rank(slot)
            <= self@.rank(other) by {
            let w = word_of(other);
            assert(0 <= w < n);
            let k = if w >= start {
                w - start
            } else {
                w - start + n
            };
            assert(wrapped(start, k, n) == w);
            assert(crate::bits::bit(self.words@[w], bit_of(other)));
            if k < i {
                assert(self.words@[wrapped(start, k, n)] == 0);
            } else if k == i {
                assert(w == word_of(slot));
            }
        }
    }

    /// When every word is zero, no slot is free.
    proof fn lemma_exhausted(&self, start: int)
        requires
            self.wf(),
            0 <= start < self.words@.len(),
            forall|k: int|
                0 <= k < self.words@.len() ==> #[trigger] self.words@[wrapped(
                    start,
                    k,
                    self.words@.len() as int,
                )] == 0,
        ensures
            !self@.any_free(),
    {
        self.lemma_shape();
        crate::bits::lemma_constant_words();
        let n = self.words@.len() as int;
        assert forall|slot: int| 0 <= slot < self.slot_count implies !(#[trigger] self@.free[slot]) by {
            let w = word_of(slot);
            assert(0 <= w < n);
            let k = if w >= start {
                w - start
            } else {
                w - start + n
            };
            assert(wrapped(start, k, n) == w);
            assert(self.words@[wrapped(start, k, n)] == 0);
        }
    }
}

/// `start + k` wrapped round at `n`, for `start` and `k` below `n`.
spec fn wrapped(start: int, k: int, n: int) -> int {
    if start + k < n {
        start + k
    } else {
        start + k - n
    }
}

proof fn lemma_wrapped(start: int, k: int, n: int)
    requires
        0 <= start < n,
        0 <= k < n,
    ensures
        (start + k) % n == wrapped(start, k, n),
        0 <= wrapped(start, k, n) < n,
{
    if start + k < n {
        lemma_small_mod((start + k) as nat, n as nat);
    } else {
        lemma_small_mod((start + k - n) as nat, n as nat);
        lemma_mod_sub_multiples_vanish(start + k, n);
    }
}

/// A slot is its bit past the slots of the words before.
proof fn lemma_place(slot: int)
    ensures
        slots_before(word_of(slot)) + bit_of(slot) == slot,
        0 <= bit_of(slot) < usize::BITS,
{
}

/// Word and bit of a slot.
fn place(slot: usize) -> (r: (usize, usize))
    ensures
        r.0 == word_of(slot as int),
        r.1 == bit_of(slot as int),
        r.1 < usize::BITS,
{
    (slot / BITS_PER_WORD, slot % BITS_PER_WORD)
}

/// Words that hold `slot_count` slots.
fn words_needed(slot_count: usize) -> (r: usize)
    ensures
        r == words_for(slot_count as nat),
{
    let (whole, rest) = place(slot_count);
    if rest == 0 {
        whole
    } else {
        whole + 1
    }
}

/// The scan order is total: two slots of one bitmap never share a rank, so at
/// most one slot is picked.
pub proof fn law_pick_is_unique(view: BitmapView, a: int, b: int)
    requires
        view.picks(a),
        view.picks(b),
    ensures
        a == b,
{
    crate::bits::lemma_ceil_pow2(words_for(view.free.len()));
    lemma_mod_bound(view.cursor as int, scan_words(view.free.len()) as int);
    assert(view.rank(a) == view.rank(b));
    assert(slots_before(word_of(a)) + bit_of(a) == a);
    assert(slots_before(word_of(b)) + bit_of(b) == b);
}

/// A bitmap with a free slot always has one to hand out.
pub proof fn law_some_slot_is_picked(view: BitmapView) -> (slot: int)
    requires
        view.any_free(),
    ensures
        view.picks(slot),
{
    let seed = choose|slot: int| 0 <= slot < view.free.len() && #[trigger] view.free[slot];
    crate::bits::lemma_ceil_pow2(words_for(view.free.len()));
    lemma_mod_bound(view.cursor as int, scan_words(view.free.len()) as int);
    lemma_least_rank(view, seed, view.rank(seed))
}

proof fn lemma_least_rank(view: BitmapView, best: int, bound: int) -> (slot: int)
    requires
        0 <= best < view.free.len(),
        view.free[best],
        bound == view.rank(best),
        scan_words(view.free.len()) >= 1,
        0 <= view.start_word() < scan_words(view.free.len()),
    ensures
        view.picks(slot),
    decreases bound,
{
    assert(bound >= 0);
    if view.picks(best) {
        best
    } else {
        let better = choose|other: int|
            0 <= other < view.free.len() && #[trigger] view.free[other] && view.rank(other)
                < view.rank(best);
        assert(view.rank(better) >= 0);
        lemma_least_rank(view, better, view.rank(better))
    }
}

/// Freeing a slot just taken restores the set of free slots.
pub proof fn law_free_undoes_alloc(view: BitmapView, slot: int)
    requires
        view.picks(slot),
    ensures
        view.scanned().with(slot, false).with(slot, true) == view.scanned(),
{
    assert(view.scanned().with(slot, false).with(slot, true).free =~= view.free);
}

/// Taking a slot lowers the number of free slots by exactly one.
pub proof fn law_alloc_uses_one_slot(view: BitmapView, slot: int)
    requires
        view.picks(slot),
    ensures
        crate::bits::count_true(view.scanned().with(slot, false).free) + 1
            == crate::bits::count_true(view.free),
{
    crate::bits::lemma_count_update(view.free, slot, false);
}

/// An allocation is refused exactly when the number of free slots is 0.
pub proof fn law_refused_when_exhausted(view: BitmapView)
    ensures
        view.any_free() <==> crate::bits::count_true(view.free) > 0,
{
    crate::bits::lemma_count_bounds(view.free);
}

/// Allocations in a row on a new bitmap hand out every slot once: no slot
/// comes twice, none is refused before all are out, and the next one is.
pub proof fn law_fresh_bitmap_serves_each_slot_once(slot_count: nat, slots: Seq<int>)
    requires
        BitmapView::fresh(slot_count).draws(slots),
    ensures
        slots.no_duplicates(),
        forall|i: int| 0 <= i < slots.len() ==> 0 <= #[trigger] slots[i] < slot_count,
        slots.len() <= slot_count,
        BitmapView::fresh(slot_count).drawn(slots).any_free() <==> slots.len() < slot_count,
        slots.len() == slot_count ==> forall|slot: int|
            0 <= slot < slot_count ==> #[trigger] slots.contains(slot),
{
    let after = BitmapView::fresh(slot_count).drawn(slots);
    lemma_drawn(slot_count, slots);
    law_refused_when_exhausted(after);
    if slots.len() == slot_count {
        assert forall|slot: int| 0 <= slot < slot_count implies #[trigger] slots.contains(slot) by {
            assert(!after.free[slot]);
        }
    }
}

proof fn lemma_drawn(slot_count: nat, slots: Seq<int>)
    requires
        BitmapView::fresh(slot_count).draws(slots),
    ensures
        ({
            let after = BitmapView::fresh(slot_count).drawn(slots);
            &&& after.free.len() == slot_count
            &&& crate::bits::count_true(after.free) + slots.len() == slot_count
            &&& slots.no_duplicates()
            &&& forall|i: int| 0 <= i < slots.len() ==> 0 <= #[trigger] slots[i] < slot_count
            &&& forall|slot: int|
                0 <= slot < slot_count ==> #[trigger] after.free[slot] == !slots.contains(slot)
        }),
    decreases slots.len(),
{
    let fresh = BitmapView::fresh(slot_count);
    if slots.len() == 0 {
        crate::bits::lemma_count_bounds(fresh.free);
    } else {
        let prior = slots.drop_last();
        let last = slots.last();
        let before = fresh.drawn(prior);
        lemma_drawn(slot_count, prior);
        crate::bits::lemma_count_update(before.free, last, false);
        assert(before.free[last]);
        assert(!prior.contains(last));
        let after = fresh.drawn(slots);
        assert forall|slot: int| 0 <= slot < slot_count implies #[trigger] after.free[slot]
            == !slots.contains(slot) by {
            assert(before.free[slot] == !prior.contains(slot));
            if prior.contains(slot) {
                let k = choose|k: int| 0 <= k < prior.len() && prior[k] == slot;
                assert(slots[k] == slot);
            }
            if slot == last {
                assert(slots[slots.len() - 1] == slot);
            } else if slots.contains(slot) {
                let k = choose|k: int| 0 <= k < slots.len() && slots[k] == slot;
                assert(prior[k] == slot);
            }
        }
        assert forall|i: int, j: int| 0 <= i < slots.len() && 0 <= j < slots.len() && i
            != j implies slots[i] != slots[j] by {
            if i < prior.len() && j < prior.len() {
                assert(prior[i] == slots[i] && prior[j] == slots[j]);
            } else if i < prior.len() {
                assert(prior[i] == slots[i]);
                assert(prior.contains(slots[i]));
            } else {
                assert(prior[j] == slots[j]);
                assert(prior.contains(slots[j]));
            }
        }
        assert forall|i: int| 0 <= i < slots.len() implies 0 <= #[trigger] slots[i]
            < slot_count by {
            if i < prior.len() {
                assert(prior[i] == slots[i]);
            }
        }
    }
}

/// Word and bit of a slot are quotient and remainder by the width of a word.
pub proof fn lemma_word_and_bit(slot: int)
    ensures
        word_of(slot) == slot / usize::BITS as int,
        bit_of(slot) == slot % usize::BITS as int,
        slots_before(word_of(slot)) + bit_of(slot) == slot,
        0 <= bit_of(slot) < usize::BITS,
        0 <= slot ==> 0 <= word_of(slot),
{
    lemma_place(slot);
}

/// A power-of-two number of words that holds the slots, and no fewer.
pub proof fn lemma_slots_in_words(slot_count: nat, n: int)
    requires
        n == scan_words(slot_count),
    ensures
        slot_count <= n * usize::BITS as int,
        n == 1 || (n / 2) * (usize::BITS as int) < slot_count,
        forall|slot: int| 0 <= slot < slot_count ==> 0 <= #[trigger] word_of(slot) < n,
{
    reveal(is_pow2);
    let words = words_for(slot_count);
    crate::bits::lemma_ceil_pow2(words);
    if n > 1 {
        assert(is_pow2(n / 2));
        if words <= n / 2 {
            assert(crate::bits::ceil_pow2(words) <= n / 2);
        }
    }
}

} // verus!
