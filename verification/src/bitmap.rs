use vstd::prelude::*;

verus! {

/// Number of bits held by one word of a bitmap.
pub const BITMAP_WORD_BITS: usize = 32;

/// Whether bit `b` of the word `w` is set.
pub open spec fn word_bit(w: u32, b: u32) -> bool {
    (w >> b) & 1u32 == 1u32
}

/// Number of words needed to hold `n` bits.
pub open spec fn words_for(n: nat) -> nat {
    ((n + 31) / 32) as nat
}

/// Setting bit `b` of a word sets exactly that bit.
pub proof fn lemma_word_set_bit(w: u32, b: u32, c: u32)
    requires
        b < 32,
        c < 32,
    ensures
        word_bit(w | (1u32 << b), c) == (c == b || word_bit(w, c)),
{
    assert(((w | (1u32 << b)) >> c) & 1u32 == 1u32 <==> (c == b || (w >> c) & 1u32 == 1u32))
        by (bit_vector)
        requires
            b < 32,
            c < 32,
    ;
}

/// Clearing bit `b` of a word clears exactly that bit.
pub proof fn lemma_word_clear_bit(w: u32, b: u32, c: u32)
    requires
        b < 32,
        c < 32,
    ensures
        word_bit(w & !(1u32 << b), c) == (c != b && word_bit(w, c)),
{
    assert(((w & !(1u32 << b)) >> c) & 1u32 == 1u32 <==> (c != b && (w >> c) & 1u32 == 1u32))
        by (bit_vector)
        requires
            b < 32,
            c < 32,
    ;
}

/// No bit of the zero word is set.
pub proof fn lemma_word_zero(c: u32)
    requires
        c < 32,
    ensures
        !word_bit(0u32, c),
{
    assert((0u32 >> c) & 1u32 != 1u32) by (bit_vector);
}

/// A bitmap of `max_idx + 1` bits, packed into 32-bit words.
pub struct BitMap {
    pub map: Vec<u32>,
    pub max_idx: usize,
}

/// Size in bytes of the storage of a bitmap holding `bits_cnt` bits.
pub open spec fn spec_bitmap_size(bits_cnt: nat) -> nat {
    words_for(bits_cnt) * 4
}

/// Size in bytes of the storage of a bitmap holding `bits_cnt` bits.
pub fn bitmap_size(bits_cnt: usize) -> (r: usize)
    requires
        bits_cnt + 31 <= usize::MAX,
    ensures
        r == spec_bitmap_size(bits_cnt as nat),
{
    ((bits_cnt + 31) / 32) * 4
}

impl View for BitMap {
    type V = Seq<bool>;

    open spec fn view(&self) -> Seq<bool> {
        Seq::new(
            (self.max_idx + 1) as nat,
            |i: int| word_bit(self.map@[i / 32], (i % 32) as u32),
        )
    }
}

impl BitMap {
    /// The storage holds exactly the words needed for `max_idx + 1` bits.
    pub open spec fn wf(&self) -> bool {
        &&& self.max_idx < usize::MAX
        &&& self.map@.len() == words_for((self.max_idx + 1) as nat)
    }

    /// Number of bits held by the bitmap.
    pub open spec fn nbits(&self) -> nat {
        (self.max_idx + 1) as nat
    }

    /// A bitmap of `max_idx + 1` bits, all clear.
    pub fn new(max_idx: usize) -> (bm: BitMap)
        requires
            max_idx + 32 <= usize::MAX,
        ensures
            bm.wf(),
            bm.max_idx == max_idx,
            bm@ == Seq::new((max_idx + 1) as nat, |i: int| false),
    {
        let nwords = (max_idx + 1 + 31) / 32;
        let mut map: Vec<u32> = Vec::new();
        let mut k: usize = 0;
        while k < nwords
            invariant
                k <= nwords,
                map@.len() == k,
                forall|j: int| 0 <= j < k ==> map@[j] == 0u32,
            decreases nwords - k,
        {
            map.push(0u32);
            k = k + 1;
        }
        let bm = BitMap { map, max_idx };
        assert forall|i: int| 0 <= i < bm.nbits() implies !#[trigger] bm@[i] by {
            lemma_word_zero((i % 32) as u32);
        }
        assert(bm@ =~= Seq::new((max_idx + 1) as nat, |i: int| false));
        bm
    }

    /// Whether bit `idx` is set.
    pub fn check(&self, idx: usize) -> (r: bool)
        requires
            self.wf(),
            idx <= self.max_idx,
        ensures
            r == self@[idx as int],
    {
        let w = self.map[idx / 32];
        let b = (idx % 32) as u32;
        (w >> b) & 1u32 == 1u32
    }

    /// Sets bit `idx`.
    pub fn set(&mut self, idx: usize)
        requires
            old(self).wf(),
            idx <= old(self).max_idx,
        ensures
            final(self).wf(),
            final(self).max_idx == old(self).max_idx,
            final(self)@ == old(self)@.update(idx as int, true),
    {
        let ghost old_view = self@;
        let wi = idx / 32;
        let b = (idx % 32) as u32;
        let w = self.map[wi];
        self.map.set(wi, w | (1u32 << b));
        assert forall|j: int| 0 <= j < self.nbits() implies #[trigger] self@[j] == old_view.update(
            idx as int,
            true,
        )[j] by {
            if j / 32 == wi as int {
                lemma_word_set_bit(w, b, (j % 32) as u32);
            }
        }
        assert(self@ =~= old_view.update(idx as int, true));
    }

    /// Clears bit `idx`.
    pub fn clear(&mut self, idx: usize)
        requires
            old(self).wf(),
            idx <= old(self).max_idx,
        ensures
            final(self).wf(),
            final(self).max_idx == old(self).max_idx,
            final(self)@ == old(self)@.update(idx as int, false),
    {
        let ghost old_view = self@;
        let wi = idx / 32;
        let b = (idx % 32) as u32;
        let w = self.map[wi];
        self.map.set(wi, w & !(1u32 << b));
        assert forall|j: int| 0 <= j < self.nbits() implies #[trigger] self@[j] == old_view.update(
            idx as int,
            false,
        )[j] by {
            if j / 32 == wi as int {
                lemma_word_clear_bit(w, b, (j % 32) as u32);
            }
        }
        assert(self@ =~= old_view.update(idx as int, false));
    }

    /// Sets every bit of the inclusive range `start..=end`.
    pub fn set_range(&mut self, start: usize, end: usize)
        requires
            old(self).wf(),
            end <= old(self).max_idx,
        ensures
            final(self).wf(),
            final(self).max_idx == old(self).max_idx,
            final(self)@.len() == old(self)@.len(),
            forall|j: int|
                0 <= j < old(self)@.len() ==> #[trigger] final(self)@[j] == if start <= j <= end {
                    true
                } else {
                    old(self)@[j]
                },
    {
        let ghost old_view = self@;
        let mut i = start;
        while i <= end
            invariant
                self.wf(),
                self.max_idx == old_view.len() - 1,
                end <= self.max_idx,
                start <= i,
                i <= end + 1 || i == start,
                self@.len() == old_view.len(),
                forall|j: int|
                    0 <= j < old_view.len() ==> #[trigger] self@[j] == if start <= j < i {
                        true
                    } else {
                        old_view[j]
                    },
            decreases end + 1 - i,
        {
            self.set(i);
            i = i + 1;
        }
    }

    /// Clears every bit of the inclusive range `start..=end`.
    pub fn clear_range(&mut self, start: usize, end: usize)
        requires
            old(self).wf(),
            end <= old(self).max_idx,
        ensures
            final(self).wf(),
            final(self).max_idx == old(self).max_idx,
            final(self)@.len() == old(self)@.len(),
            forall|j: int|
                0 <= j < old(self)@.len() ==> #[trigger] final(self)@[j] == if start <= j <= end {
                    false
                } else {
                    old(self)@[j]
                },
    {
        let ghost old_view = self@;
        let mut i = start;
        while i <= end
            invariant
                self.wf(),
                self.max_idx == old_view.len() - 1,
                end <= self.max_idx,
                start <= i,
                i <= end + 1 || i == start,
                self@.len() == old_view.len(),
                forall|j: int|
                    0 <= j < old_view.len() ==> #[trigger] self@[j] == if start <= j < i {
                        false
                    } else {
                        old_view[j]
                    },
            decreases end + 1 - i,
        {
            self.clear(i);
            i = i + 1;
        }
    }
}

} // verus!
