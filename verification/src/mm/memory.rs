//! Physical memory as an arena of page frames, reached only through checked
//! views that are indexed by page number.
use vstd::prelude::*;
use vstd::slice::slice_subrange;
use crate::mm::address::PhysPageNum;

verus! {

/// The 64-bit word that eight bytes hold, the least significant byte first.
pub open spec fn le_word(b: Seq<u8>) -> u64 {
    (b[0] as u64) | (b[1] as u64) << 8 | (b[2] as u64) << 16 | (b[3] as u64) << 24 | (b[4] as u64)
        << 32 | (b[5] as u64) << 40 | (b[6] as u64) << 48 | (b[7] as u64) << 56
}

/// The eight bytes of a 64-bit word, the least significant byte first.
pub open spec fn le_bytes(x: u64) -> Seq<u8> {
    seq![
        (x & 0xff) as u8,
        ((x >> 8) & 0xff) as u8,
        ((x >> 16) & 0xff) as u8,
        ((x >> 24) & 0xff) as u8,
        ((x >> 32) & 0xff) as u8,
        ((x >> 40) & 0xff) as u8,
        ((x >> 48) & 0xff) as u8,
        ((x >> 56) & 0xff) as u8,
    ]
}

/// The `idx`-th 64-bit word of a frame.
pub open spec fn word_at(frame: Seq<u8>, idx: int) -> u64 {
    le_word(frame.subrange(8 * idx, 8 * idx + 8))
}

/// The frame with its `idx`-th 64-bit word replaced by `value`.
pub open spec fn with_word(frame: Seq<u8>, idx: int, value: u64) -> Seq<u8> {
    frame.subrange(0, 8 * idx) + le_bytes(value) + frame.subrange(8 * idx + 8, frame.len() as int)
}

/// The frame with the bytes from `offset` on replaced by `data`.
pub open spec fn with_bytes(frame: Seq<u8>, offset: int, data: Seq<u8>) -> Seq<u8> {
    frame.subrange(0, offset) + data + frame.subrange(offset + data.len(), frame.len() as int)
}

/// A frame of 4096 zero bytes.
pub open spec fn zero_frame() -> Seq<u8> {
    Seq::new(4096, |i: int| 0u8)
}

/// Reading back the bytes of a word gives the word.
pub proof fn lemma_le_round_trip(x: u64)
    ensures
        le_bytes(x).len() == 8,
        le_word(le_bytes(x)) == x,
{
    let b = le_bytes(x);
    assert(b[0] == (x & 0xff) as u8 && b[1] == ((x >> 8) & 0xff) as u8 && b[2] == ((x >> 16)
        & 0xff) as u8 && b[3] == ((x >> 24) & 0xff) as u8 && b[4] == ((x >> 32) & 0xff) as u8
        && b[5] == ((x >> 40) & 0xff) as u8 && b[6] == ((x >> 48) & 0xff) as u8 && b[7] == ((x
        >> 56) & 0xff) as u8);
    assert((((x & 0xff) as u8) as u64) | ((((x >> 8) & 0xff) as u8) as u64) << 8 | ((((x >> 16)
        & 0xff) as u8) as u64) << 16 | ((((x >> 24) & 0xff) as u8) as u64) << 24 | ((((x >> 32)
        & 0xff) as u8) as u64) << 32 | ((((x >> 40) & 0xff) as u8) as u64) << 40 | ((((x >> 48)
        & 0xff) as u8) as u64) << 48 | ((((x >> 56) & 0xff) as u8) as u64) << 56 == x)
        by (bit_vector);
}

/// The words of a frame after one of them was replaced.
pub proof fn lemma_with_word(frame: Seq<u8>, idx: int, value: u64)
    requires
        frame.len() == 4096,
        0 <= idx < 512,
    ensures
        with_word(frame, idx, value).len() == 4096,
        word_at(with_word(frame, idx, value), idx) == value,
        forall|j: int|
            0 <= j < 512 && j != idx ==> #[trigger] word_at(with_word(frame, idx, value), j)
                == word_at(frame, j),
{
    lemma_le_round_trip(value);
    let after = with_word(frame, idx, value);
    assert(after.subrange(8 * idx, 8 * idx + 8) =~= le_bytes(value));
    assert forall|j: int| 0 <= j < 512 && j != idx implies #[trigger] word_at(after, j) == word_at(
        frame,
        j,
    ) by {
        assert(after.subrange(8 * j, 8 * j + 8) =~= frame.subrange(8 * j, 8 * j + 8));
    }
}

/// Every word of a zero frame is zero.
pub proof fn lemma_zero_frame_words(idx: int)
    requires
        0 <= idx < 512,
    ensures
        word_at(zero_frame(), idx) == 0,
{
    let b = zero_frame().subrange(8 * idx, 8 * idx + 8);
    assert(b[0] == 0 && b[1] == 0 && b[2] == 0 && b[3] == 0 && b[4] == 0 && b[5] == 0 && b[6] == 0
        && b[7] == 0);
    assert((0u8 as u64) | (0u8 as u64) << 8 | (0u8 as u64) << 16 | (0u8 as u64) << 24 | (0u8 as u64)
        << 32 | (0u8 as u64) << 40 | (0u8 as u64) << 48 | (0u8 as u64) << 56 == 0)
        by (bit_vector);
}

/// Physical memory: the frames with the page numbers from `base()` up to
/// `base() + frame_count()`, 4096 bytes each.
pub struct PhysMemory {
    base: u64,
    bytes: Vec<u8>,
}

impl PhysMemory {
    /// The page number of the first frame.
    pub closed spec fn base(&self) -> u64 {
        self.base
    }

    /// The number of frames.
    pub closed spec fn frame_count(&self) -> nat {
        self.bytes@.len() / 4096
    }

    /// The arena holds whole frames, with page numbers of at most 44 bits.
    pub closed spec fn wf(&self) -> bool {
        &&& self.bytes@.len() % 4096 == 0
        &&& self.base + self.bytes@.len() / 4096 <= 0x1000_0000_0000
    }

    /// The arena holds the frame with this page number.
    pub open spec fn contains(&self, ppn: u64) -> bool {
        self.base() <= ppn < self.base() + self.frame_count()
    }

    /// The 4096 bytes of a frame of the arena; empty for any other page number.
    pub closed spec fn frame(&self, ppn: u64) -> Seq<u8> {
        if self.base <= ppn < self.base + self.bytes@.len() / 4096 {
            self.bytes@.subrange((ppn - self.base) * 4096, (ppn - self.base) * 4096 + 4096)
        } else {
            Seq::empty()
        }
    }

    /// The `idx`-th 64-bit word of a frame.
    pub open spec fn word(&self, ppn: u64, idx: int) -> u64 {
        word_at(self.frame(ppn), idx)
    }

    /// The two memories have the same extent, and the same contents but for
    /// the frame `ppn`.
    pub open spec fn agrees_except(&self, other: &PhysMemory, ppn: u64) -> bool {
        &&& self.base() == other.base()
        &&& self.frame_count() == other.frame_count()
        &&& forall|p: u64| p != ppn ==> #[trigger] self.frame(p) == other.frame(p)
    }

    /// A frame of a well-formed arena has 4096 bytes.
    pub proof fn lemma_frame_len(&self, ppn: u64)
        requires
            self.wf(),
            self.contains(ppn),
        ensures
            self.frame(ppn).len() == 4096,
            self.base() + self.frame_count() <= 0x1000_0000_0000,
    {
    }

    /// An arena of `frames` zero-filled frames, the first with number `base`.
    pub fn new(base: PhysPageNum, frames: usize) -> (r: Self)
        requires
            base.0 + frames <= 0x1000_0000_0000,
            frames * 4096 <= usize::MAX,
        ensures
            r.wf(),
            r.base() == base.0,
            r.frame_count() == frames,
            forall|p: u64| r.contains(p) ==> #[trigger] r.frame(p) == zero_frame(),
    {
        let r = PhysMemory { base: base.0, bytes: vec![0u8; frames * 4096] };
        assert forall|p: u64| r.contains(p) implies #[trigger] r.frame(p) == zero_frame() by {
            assert(r.frame(p) =~= zero_frame());
        }
        r
    }

    /// The page number of the first frame.
    pub fn base_ppn(&self) -> (r: PhysPageNum)
        ensures
            r.0 == self.base(),
    {
        PhysPageNum(self.base)
    }

    /// The number of frames.
    pub fn frames(&self) -> (r: usize)
        ensures
            r == self.frame_count(),
    {
        self.bytes.len() / 4096
    }

    /// Whether the arena holds the frame with this page number.
    pub fn contains_frame(&self, ppn: PhysPageNum) -> (r: bool)
        requires
            self.wf(),
        ensures
            r == self.contains(ppn.0),
    {
        ppn.0 >= self.base && ppn.0 - self.base < (self.bytes.len() / 4096) as u64
    }

    fn start_of(&self, ppn: PhysPageNum) -> (r: usize)
        requires
            self.wf(),
            self.contains(ppn.0),
        ensures
            r == (ppn.0 - self.base) * 4096,
            r + 4096 <= self.bytes@.len(),
            r + 4096 <= usize::MAX,
            self.frame(ppn.0) == self.bytes@.subrange(r as int, r + 4096),
    {
        let frames: usize = self.bytes.len() / 4096;
        let index: u64 = ppn.0 - self.base;
        assert(index < frames);
        assert(frames * 4096 <= self.bytes@.len());
        (index as usize) * 4096
    }

    /// The bytes of a frame.
    pub fn frame_bytes(&self, ppn: PhysPageNum) -> (r: &[u8])
        requires
            self.wf(),
            self.contains(ppn.0),
        ensures
            r@ == self.frame(ppn.0),
            r@.len() == 4096,
    {
        let start: usize = self.start_of(ppn);
        slice_subrange(self.bytes.as_slice(), start, start + 4096)
    }

    /// The bytes of a frame from offset `from` up to offset `to`.
    pub fn frame_slice(&self, ppn: PhysPageNum, from: usize, to: usize) -> (r: &[u8])
        requires
            self.wf(),
            self.contains(ppn.0),
            from <= to <= 4096,
        ensures
            r@ == self.frame(ppn.0).subrange(from as int, to as int),
    {
        let start: usize = self.start_of(ppn);
        let r = slice_subrange(self.bytes.as_slice(), start + from, start + to);
        assert(r@ =~= self.frame(ppn.0).subrange(from as int, to as int));
        r
    }

    /// Reads the `idx`-th 64-bit word of a frame.
    pub fn read_word(&self, ppn: PhysPageNum, idx: usize) -> (r: u64)
        requires
            self.wf(),
            self.contains(ppn.0),
            idx < 512,
        ensures
            r == self.word(ppn.0, idx as int),
    {
        let at: usize = self.start_of(ppn) + 8 * idx;
        let ghost b = self.frame(ppn.0).subrange(8 * idx, 8 * idx + 8);
        assert(forall|k: int| 0 <= k < 8 ==> b[k] == self.bytes@[at + k]);
        let b0: u64 = self.bytes[at] as u64;
        let b1: u64 = self.bytes[at + 1] as u64;
        let b2: u64 = self.bytes[at + 2] as u64;
        let b3: u64 = self.bytes[at + 3] as u64;
        let b4: u64 = self.bytes[at + 4] as u64;
        let b5: u64 = self.bytes[at + 5] as u64;
        let b6: u64 = self.bytes[at + 6] as u64;
        let b7: u64 = self.bytes[at + 7] as u64;
        assert(b0 == b[0] && b1 == b[1] && b2 == b[2] && b3 == b[3] && b4 == b[4] && b5 == b[5]
            && b6 == b[6] && b7 == b[7]);
        b0 | b1 << 8 | b2 << 16 | b3 << 24 | b4 << 32 | b5 << 40 | b6 << 48 | b7 << 56
    }

    /// Replaces `data.len()` bytes of a frame, from `offset` on, by `data`.
    pub fn write_bytes(&mut self, ppn: PhysPageNum, offset: usize, data: &[u8])
        requires
            old(self).wf(),
            old(self).contains(ppn.0),
            offset + data@.len() <= 4096,
        ensures
            final(self).wf(),
            final(self).agrees_except(old(self), ppn.0),
            final(self).frame(ppn.0) == with_bytes(old(self).frame(ppn.0), offset as int, data@),
    {
        let at: usize = self.start_of(ppn) + offset;
        let n: usize = data.len();
        let mut k: usize = 0;
        while k < n
            invariant
                k <= n,
                n == data@.len(),
                at + n <= self.bytes@.len(),
                at + n <= usize::MAX,
                self.base == old(self).base,
                self.bytes@.len() == old(self).bytes@.len(),
                forall|i: int|
                    0 <= i < self.bytes@.len() && !(at <= i < at + k) ==> self.bytes@[i] == old(
                        self,
                    ).bytes@[i],
                forall|i: int| 0 <= i < k ==> self.bytes@[at + i] == data@[i],
            decreases n - k,
        {
            self.bytes[at + k] = data[k];
            k += 1;
        }
        proof {
            assert(self.frame(ppn.0) =~= with_bytes(old(self).frame(ppn.0), offset as int, data@));
            assert forall|p: u64| p != ppn.0 implies #[trigger] self.frame(p) == old(self).frame(
                p,
            ) by {
                assert(self.frame(p) =~= old(self).frame(p));
            }
        }
    }

    /// Replaces the `idx`-th 64-bit word of a frame.
    pub fn write_word(&mut self, ppn: PhysPageNum, idx: usize, value: u64)
        requires
            old(self).wf(),
            old(self).contains(ppn.0),
            idx < 512,
        ensures
            final(self).wf(),
            final(self).agrees_except(old(self), ppn.0),
            final(self).frame(ppn.0) == with_word(old(self).frame(ppn.0), idx as int, value),
            final(self).word(ppn.0, idx as int) == value,
            forall|j: int|
                0 <= j < 512 && j != idx ==> #[trigger] final(self).word(ppn.0, j) == old(
                    self,
                ).word(ppn.0, j),
    {
        assert(value & 0xff < 256 && (value >> 8) & 0xff < 256 && (value >> 16) & 0xff < 256 && (
        value >> 24) & 0xff < 256 && (value >> 32) & 0xff < 256 && (value >> 40) & 0xff < 256 && (
        value >> 48) & 0xff < 256 && (value >> 56) & 0xff < 256) by (bit_vector);
        let word: [u8; 8] = [
            (value & 0xff) as u8,
            ((value >> 8) & 0xff) as u8,
            ((value >> 16) & 0xff) as u8,
            ((value >> 24) & 0xff) as u8,
            ((value >> 32) & 0xff) as u8,
            ((value >> 40) & 0xff) as u8,
            ((value >> 48) & 0xff) as u8,
            ((value >> 56) & 0xff) as u8,
        ];
        assert(word@ =~= le_bytes(value));
        self.write_bytes(ppn, 8 * idx, word.as_slice());
        proof {
            old(self).lemma_frame_len(ppn.0);
            lemma_with_word(old(self).frame(ppn.0), idx as int, value);
        }
    }

    /// Fills a frame with zero bytes.
    pub fn clear_frame(&mut self, ppn: PhysPageNum)
        requires
            old(self).wf(),
            old(self).contains(ppn.0),
        ensures
            final(self).wf(),
            final(self).agrees_except(old(self), ppn.0),
            final(self).frame(ppn.0) == zero_frame(),
    {
        let at: usize = self.start_of(ppn);
        let mut k: usize = 0;
        while k < 4096
            invariant
                k <= 4096,
                at + 4096 <= self.bytes@.len(),
                at + 4096 <= usize::MAX,
                self.base == old(self).base,
                self.bytes@.len() == old(self).bytes@.len(),
                forall|i: int|
                    0 <= i < self.bytes@.len() && !(at <= i < at + k) ==> self.bytes@[i] == old(
                        self,
                    ).bytes@[i],
                forall|i: int| at <= i < at + k ==> self.bytes@[i] == 0,
            decreases 4096 - k,
        {
            self.bytes[at + k] = 0;
            k += 1;
        }
        proof {
            assert(self.frame(ppn.0) =~= zero_frame());
            assert forall|p: u64| p != ppn.0 implies #[trigger] self.frame(p) == old(self).frame(
                p,
            ) by {
                assert(self.frame(p) =~= old(self).frame(p));
            }
        }
    }
}

impl PhysPageNum {
    /// The bytes of the frame with this page number.
    pub fn get_bytes_array<'a>(&self, mem: &'a PhysMemory) -> (r: &'a [u8])
        requires
            mem.wf(),
            mem.contains(self.0),
        ensures
            r@ == mem.frame(self.0),
            r@.len() == 4096,
    {
        mem.frame_bytes(*self)
    }
}

} // verus!
