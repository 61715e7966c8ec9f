use vstd::prelude::*;

use crate::bits::{FromBit, ToBit};
use crate::memory::{ByteMemory, WriteAndReadWords, supported_align};

verus! {

/// The size of the working memory that `SimpleAllocator::new` asks for:
/// 20 GiB.
pub const DEFAULT_WORKING_MEMORY_SIZE: u64 = 21474836480;

/// One block of the heap: a header word at `start`, `size` bytes of data,
/// and a footer word that repeats the size.
#[derive(Clone, Copy, PartialEq, Eq, Structural, Debug)]
pub struct BlockInfo {
    pub start: usize,
    pub size: usize,
    pub filled: bool,
}

/// The first byte after a block.
pub open spec fn block_end(b: BlockInfo) -> int {
    b.start + b.size + 16
}

/// The header word of a block: its size with the filled flag in bit 0.
pub open spec fn header_value(size: int, filled: bool) -> int {
    size + if filled {
        1int
    } else {
        0
    }
}

/// Block `i` starts where block `i - 1` ends.
pub open spec fn follows(blocks: Seq<BlockInfo>, i: int) -> bool {
    blocks[i].start == block_end(blocks[i - 1])
}

/// The blocks lie one after another from offset 0 to `len`, each with an
/// even size.
pub open spec fn tiles(blocks: Seq<BlockInfo>, len: int) -> bool {
    &&& blocks.len() >= 1
    &&& len <= usize::MAX
    &&& blocks[0].start == 0
    &&& forall|i: int| 0 < i < blocks.len() ==> #[trigger] follows(blocks, i)
    &&& block_end(blocks.last()) == len
    &&& forall|i: int|
        0 <= i < blocks.len() ==> (#[trigger] blocks[i]).size % 2 == 0 && blocks[i].start % 2 == 0
}

/// No two free blocks are neighbours.
pub open spec fn coalesced(blocks: Seq<BlockInfo>) -> bool {
    forall|i: int| 0 <= i < blocks.len() - 1 ==> #[trigger] blocks[i].filled || blocks[i + 1].filled
}

/// The memory holds each block's header and footer.
pub open spec fn encodes(mem: ByteMemory, blocks: Seq<BlockInfo>) -> bool {
    forall|i: int|
        0 <= i < blocks.len() ==> {
            &&& mem.word_at(#[trigger] blocks[i].start as int) == header_value(blocks[i].size as int, blocks[i].filled)
            &&& mem.word_at(blocks[i].start + 8 + blocks[i].size) == blocks[i].size
        }
}

/// `v` rounded up to a multiple of the word size.
pub open spec fn align_word(v: int) -> int {
    if v % 8 != 0 {
        v + 8 - v % 8
    } else {
        v
    }
}

/// Every block starts on a word boundary, so every data offset that the
/// heap hands out is a multiple of the word size.
pub open spec fn word_aligned(blocks: Seq<BlockInfo>) -> bool {
    forall|i: int| 0 <= i < blocks.len() ==> (#[trigger] blocks[i]).start % 8 == 0
}

/// A block that can take `target` bytes.
pub open spec fn fits(b: BlockInfo, target: int) -> bool {
    !b.filled && b.size >= target
}

/// Some block can take `target` bytes.
pub open spec fn has_fit(blocks: Seq<BlockInfo>, target: int) -> bool {
    exists|i: int| 0 <= i < blocks.len() && fits(#[trigger] blocks[i], target)
}

/// `i` is the first block from block `k` on that can take `target` bytes.
pub open spec fn is_first_fit_from(blocks: Seq<BlockInfo>, target: int, k: int, i: int) -> bool {
    &&& 0 <= k <= i < blocks.len()
    &&& fits(blocks[i], target)
    &&& forall|j: int| k <= j < i ==> !fits(#[trigger] blocks[j], target)
}

/// `i` is the first block that can take `target` bytes.
pub open spec fn is_first_fit(blocks: Seq<BlockInfo>, target: int, i: int) -> bool {
    &&& 0 <= i < blocks.len()
    &&& fits(blocks[i], target)
    &&& forall|j: int| 0 <= j < i ==> !fits(#[trigger] blocks[j], target)
}

/// The first block that can take `target` bytes.
pub open spec fn first_fit(blocks: Seq<BlockInfo>, target: int) -> int {
    choose|i: int| is_first_fit(blocks, target, i)
}

/// Whether the first fitting block is split: only when what is left over
/// can hold a header, a footer and at least one more word.
pub open spec fn splits(size: int, target: int) -> bool {
    target + 3 * 8 < size
}

/// The blocks after `target` bytes are handed out of block `i`: the block
/// is filled, and split in two when it is large enough.
pub open spec fn alloc_at(blocks: Seq<BlockInfo>, i: int, target: int) -> Seq<BlockInfo> {
    let b = blocks[i];
    if splits(b.size as int, target) {
        Seq::new(
            (blocks.len() + 1) as nat,
            |m: int|
                if m < i {
                    blocks[m]
                } else if m == i {
                    BlockInfo { start: b.start, size: target as usize, filled: true }
                } else if m == i + 1 {
                    BlockInfo {
                        start: (b.start + target + 16) as usize,
                        size: (b.size - target - 16) as usize,
                        filled: false,
                    }
                } else {
                    blocks[m - 1]
                },
        )
    } else {
        blocks.update(i, BlockInfo { start: b.start, size: b.size, filled: true })
    }
}

/// The blocks after `target` bytes are handed out of the first block that
/// fits.
pub open spec fn after_alloc(blocks: Seq<BlockInfo>, target: int) -> Seq<BlockInfo> {
    alloc_at(blocks, first_fit(blocks, target), target)
}

/// The first block of the run that freeing block `i` merges into one.
pub open spec fn merge_low(blocks: Seq<BlockInfo>, i: int) -> int {
    if i > 0 && !blocks[i - 1].filled {
        i - 1
    } else {
        i
    }
}

/// The last block of the run that freeing block `i` merges into one.
pub open spec fn merge_high(blocks: Seq<BlockInfo>, i: int) -> int {
    if i + 1 < blocks.len() && !blocks[i + 1].filled {
        i + 1
    } else {
        i
    }
}

/// The block that a run of blocks `lo..=hi` merges into.
pub open spec fn merged_block(blocks: Seq<BlockInfo>, lo: int, hi: int) -> BlockInfo {
    BlockInfo {
        start: blocks[lo].start,
        size: (block_end(blocks[hi]) - blocks[lo].start - 16) as usize,
        filled: false,
    }
}

/// The blocks with the run `lo..=hi` merged into one free block.
pub open spec fn merge_range(blocks: Seq<BlockInfo>, lo: int, hi: int) -> Seq<BlockInfo> {
    Seq::new(
        (blocks.len() - (hi - lo)) as nat,
        |m: int|
            if m < lo {
                blocks[m]
            } else if m == lo {
                merged_block(blocks, lo, hi)
            } else {
                blocks[m + (hi - lo)]
            },
    )
}

/// The blocks after block `i` is freed: it is merged with the free blocks
/// next to it.
pub open spec fn after_dealloc(blocks: Seq<BlockInfo>, i: int) -> Seq<BlockInfo> {
    merge_range(blocks, merge_low(blocks, i), merge_high(blocks, i))
}

/// The block whose data starts at `ptr`.
pub open spec fn block_of_data(blocks: Seq<BlockInfo>, ptr: int) -> int {
    choose|i: int| 0 <= i < blocks.len() && blocks[i].start + 8 == ptr
}

/// A first-fit allocator over one region of memory, split into blocks that
/// each carry a header and a footer.
pub struct SimpleAllocator {
    working_memory_size: u64,
    memory: ByteMemory,
    ready: bool,
    blocks: Ghost<Seq<BlockInfo>>,
}

impl View for SimpleAllocator {
    type V = Seq<BlockInfo>;

    closed spec fn view(&self) -> Seq<BlockInfo> {
        self.blocks@
    }
}

/// Blocks that come later in a tiling start after earlier ones end.
pub proof fn lemma_tiles_ordered(blocks: Seq<BlockInfo>, len: int, j: int, k: int)
    requires
        tiles(blocks, len),
        0 <= j < k < blocks.len(),
    ensures
        block_end(blocks[j]) <= blocks[k].start,
    decreases k - j,
{
    if j + 1 < k {
        lemma_tiles_ordered(blocks, len, j, k - 1);
        assert(follows(blocks, k));
    } else {
        assert(follows(blocks, j + 1));
    }
}

/// Every block of a tiling lies within the region.
pub proof fn lemma_tiles_bounds(blocks: Seq<BlockInfo>, len: int, i: int)
    requires
        tiles(blocks, len),
        0 <= i < blocks.len(),
    ensures
        0 <= blocks[i].start,
        block_end(blocks[i]) <= len,
{
    if i < blocks.len() - 1 {
        lemma_tiles_ordered(blocks, len, i, blocks.len() - 1);
    }
    assert(blocks.last() == blocks[blocks.len() - 1]);
}

/// Distinct blocks of the heap never overlap: what one allocation hands
/// out is disjoint from every other block.
pub proof fn law_blocks_disjoint(blocks: Seq<BlockInfo>, len: int, j: int, k: int)
    requires
        tiles(blocks, len),
        0 <= j < blocks.len(),
        0 <= k < blocks.len(),
        j != k,
    ensures
        block_end(blocks[j]) <= blocks[k].start || block_end(blocks[k]) <= blocks[j].start,
{
    if j < k {
        lemma_tiles_ordered(blocks, len, j, k);
    } else {
        lemma_tiles_ordered(blocks, len, k, j);
    }
}

proof fn lemma_header_bits(h: usize, size: usize, filled: bool)
    requires
        size % 2 == 0,
        h == header_value(size as int, filled),
    ensures
        (h >> 1) << 1 == size,
        (h & 1 != 0) == filled,
{
    let b: usize = if filled { 1 } else { 0 };
    assert(h == size + b);
    assert((h >> 1) << 1 == size && ((h & 1) != 0) == (b == 1)) by (bit_vector)
        requires
            size % 2 == 0,
            b <= 1,
            h == size + b,
    ;
}

impl SimpleAllocator {
    /// What the allocator keeps true: once it has memory, the blocks tile
    /// the whole of it, free blocks are merged with free neighbours, and
    /// every header and footer is in place.
    pub closed spec fn wf(&self) -> bool {
        &&& self.memory@.len() <= usize::MAX
        &&& self.ready ==> {
            &&& self.memory@.len() == self.working_memory_size
            &&& tiles(self.blocks@, self.working_memory_size as int)
            &&& coalesced(self.blocks@)
            &&& word_aligned(self.blocks@)
            &&& encodes(self.memory, self.blocks@)
        }
        &&& !self.ready ==> self.memory@.len() == 0
    }

    /// The allocator has its working memory.
    pub closed spec fn is_ready(&self) -> bool {
        self.ready
    }

    /// Once the allocator has its memory, its blocks tile the whole working
    /// memory in address order, no two free blocks are neighbours, and every
    /// block starts on a word boundary.
    pub proof fn law_heap_shape(&self)
        requires
            self.wf(),
            self.is_ready(),
        ensures
            tiles(self@, self.memory_size()),
            coalesced(self@),
            word_aligned(self@),
    {
    }

    /// The size of the working memory, in bytes.
    pub closed spec fn memory_size(&self) -> int {
        self.working_memory_size as int
    }

    /// The word stored at byte `addr` of the working memory.
    pub closed spec fn memory_word(&self, addr: int) -> usize {
        self.memory.word_at(addr)
    }

    /// The word at `addr` lies whole in the data of a filled block.
    pub open spec fn in_filled(&self, addr: int) -> bool {
        exists|j: int|
            0 <= j < self@.len() && (#[trigger] self@[j]).filled && self@[j].start + 8 <= addr && addr + 8
                <= self@[j].start + 8 + self@[j].size
    }

    /// Every word in the data of a block that is filled in `old`, other
    /// than block `except`, holds the same value in `self`.
    pub open spec fn keeps_data(&self, old: &SimpleAllocator, except: int) -> bool {
        forall|j: int, w: int|
            #![trigger old@[j], self.memory_word(w)]
            0 <= j < old@.len() && j != except && old@[j].filled && old@[j].start + 8 <= w && w + 8 <= old@[j].start
                + 8 + old@[j].size ==> self.memory_word(w) == old.memory_word(w)
    }

    /// An allocator that will work in 20 GiB of memory.
    pub fn new() -> (a: Self)
        ensures
            a.wf(),
            !a.is_ready(),
            a.memory_size() == DEFAULT_WORKING_MEMORY_SIZE,
    {
        Self::with_working_memory_size(DEFAULT_WORKING_MEMORY_SIZE)
    }

    /// An allocator that will work in `working_memory_size` bytes.
    pub fn with_working_memory_size(working_memory_size: u64) -> (a: Self)
        ensures
            a.wf(),
            !a.is_ready(),
            a.memory_size() == working_memory_size,
    {
        SimpleAllocator {
            working_memory_size,
            memory: ByteMemory { bytes: Vec::new() },
            ready: false,
            blocks: Ghost(Seq::empty()),
        }
    }

    /// Takes the working memory and makes all of it one free block.
    pub fn install_memory(&mut self, memory: ByteMemory)
        requires
            old(self).wf(),
            !old(self).is_ready(),
            memory@.len() == old(self).memory_size(),
            old(self).memory_size() >= 16,
            old(self).memory_size() % 2 == 0,
        ensures
            final(self).wf(),
            final(self).is_ready(),
            final(self).memory_size() == old(self).memory_size(),
            final(self)@ == seq![
                BlockInfo { start: 0, size: (old(self).memory_size() - 16) as usize, filled: false },
            ],
    {
        self.memory = memory;
        let size: usize = self.memory.bytes.len() - 16;
        Self::write_block_headers(&mut self.memory, 0, size, false);
        self.ready = true;
        self.blocks = Ghost(Seq::<BlockInfo>::empty().push(BlockInfo { start: 0, size, filled: false }));
        proof {
            let bl = self.blocks@;
            assert(bl.last() == bl[0]);
        }
    }

    /// The number of bytes of working memory.
    pub fn working_memory_size(&self) -> (r: u64)
        ensures
            r == self.memory_size(),
    {
        self.working_memory_size
    }

    /// The offset just past the working memory.
    pub fn memory_end(&self) -> (e: usize)
        requires
            self.wf(),
            self.is_ready(),
        ensures
            e == self.memory_size(),
    {
        self.memory.bytes.len()
    }

    /// Splits a header word into the block size and the filled flag.
    pub fn unpack_header(header: usize) -> (r: (usize, bool))
        ensures
            r.0 == header - header % 2,
            r.1 == (header % 2 == 1),
    {
        let block_size = (header >> 1) << 1;
        let is_filled = bool::from_bit(header & 1);
        proof {
            assert((header >> 1) << 1 == header - header % 2 && ((header & 1) != 0) == (header % 2
                == 1)) by (bit_vector);
        }
        (block_size, is_filled)
    }

    /// Packs a block size (rounded up to even) and the filled flag into a
    /// header word.
    pub fn pack_header(block_size: usize, is_filled: bool) -> (h: usize)
        requires
            block_size % 2 == 1 ==> block_size < usize::MAX,
        ensures
            h == header_value(block_size + block_size % 2, is_filled),
    {
        proof {
            assert((block_size & 1) == block_size % 2) by (bit_vector);
        }
        let even_size = if (block_size & 1) == 1 {
            block_size + 1
        } else {
            block_size
        };
        let bit = is_filled.to_bit();
        proof {
            assert(even_size % 2 == 0);
            assert(even_size % 2 == 0 ==> (even_size | bit) == even_size + bit) by (bit_vector)
                requires
                    bit <= 1,
            ;
        }
        even_size | bit
    }

    /// The address of the block that follows one of `block_size` bytes.
    pub fn next_block_addr(ptr: usize, block_size: usize) -> (r: usize)
        requires
            ptr + block_size + 16 <= usize::MAX,
        ensures
            r == ptr + block_size + 16,
    {
        ptr + block_size + 16
    }

    /// Writes a block's header and footer.
    fn write_block_headers(mem: &mut ByteMemory, ptr: usize, block_size: usize, is_filled: bool)
        requires
            ptr + block_size + 16 <= old(mem)@.len(),
            old(mem)@.len() <= usize::MAX,
            block_size % 2 == 0,
        ensures
            final(mem)@.len() == old(mem)@.len(),
            final(mem).word_at(ptr as int) == header_value(block_size as int, is_filled),
            final(mem).word_at(ptr + 8 + block_size) == block_size,
            forall|b: int|
                0 <= b && b + 8 <= old(mem)@.len() && (b + 8 <= ptr || ptr + block_size + 16 <= b)
                    ==> #[trigger] final(mem).word_at(b) == old(mem).word_at(b),
    {
        let header = Self::pack_header(block_size, is_filled);
        mem.write_word(ptr, header);
        mem.write_word(ptr + block_size + 8, block_size);
    }

    /// Reads the header of the block at `ptr`.
    fn read_header(&self, Ghost(k): Ghost<int>, ptr: usize) -> (r: (usize, bool))
        requires
            self.wf(),
            self.ready,
            0 <= k < self.blocks@.len(),
            self.blocks@[k].start == ptr,
        ensures
            r.0 == self.blocks@[k].size,
            r.1 == self.blocks@[k].filled,
    {
        proof {
            lemma_tiles_bounds(self.blocks@, self.working_memory_size as int, k);
        }
        let h = self.memory.read_word(ptr);
        proof {
            let b = self.blocks@[k];
            assert(self.memory.word_at(b.start as int) == header_value(b.size as int, b.filled));
            lemma_header_bits(h, b.size, b.filled);
        }
        let r = Self::unpack_header(h);
        proof {
            assert((h >> 1) << 1 == h - h % 2 && ((h & 1) != 0) == (h % 2 == 1)) by (bit_vector);
        }
        r
    }

    /// Serves a request for `size` bytes aligned to `align`, as `GlobalAlloc`
    /// asks: the data offset of the first free block that can take `size`
    /// rounded up to a whole number of words. Every data offset is a
    /// multiple of the word size, so alignments that divide it are honoured
    /// and larger ones are refused. A refused request, or one that no free
    /// block can take, gets `None` and leaves the heap as it was.
    pub fn allocate(&mut self, size: usize, align: usize) -> (r: Option<usize>)
        requires
            old(self).wf(),
            old(self).is_ready(),
        ensures
            final(self).wf(),
            final(self).is_ready(),
            final(self).memory_size() == old(self).memory_size(),
            r is None <==> !(supported_align(align as int) && has_fit(old(self)@, align_word(size as int))),
            r is None ==> *final(self) == *old(self),
            r matches Some(ptr) ==> {
                &&& is_first_fit(old(self)@, align_word(size as int), first_fit(old(self)@, align_word(size as int)))
                &&& final(self)@ == after_alloc(old(self)@, align_word(size as int))
                &&& ptr == old(self)@[first_fit(old(self)@, align_word(size as int))].start + 8
                &&& ptr % align == 0
                &&& final(self).keeps_data(old(self), -1)
            },
    {
        if align == 0 || 8 % align != 0 {
            return None;
        }
        if size > usize::MAX - 7 {
            proof {
                let blocks = self.blocks@;
                let t = align_word(size as int);
                assert forall|i: int| 0 <= i < blocks.len() implies !fits(#[trigger] blocks[i], t) by {
                    lemma_tiles_bounds(blocks, self.working_memory_size as int, i);
                }
            }
            return None;
        }
        if !self.can_allocate(size) {
            return None;
        }
        let ghost blocks = self.blocks@;
        let ptr = self.allocate_first_fit(size);
        proof {
            let f = first_fit(blocks, align_word(size as int));
            lemma_tiles_bounds(blocks, self.working_memory_size as int, f);
            assert(blocks[f].start % 8 == 0);
            assert(ptr % 8 == 0);
            assert(ptr % align == 0) by (nonlinear_arith)
                requires
                    ptr % 8 == 0,
                    align > 0,
                    8usize % align == 0,
            {
                assert(align <= 8);
                assert(align == 1 || align == 2 || align == 4 || align == 8);
            }
        }
        Some(ptr)
    }

    /// Hands out `size` bytes, rounded up to a whole number of words, from
    /// the first free block that can take them; returns the offset of the
    /// data.
    #[verifier::spinoff_prover]
    fn allocate_first_fit(&mut self, size: usize) -> (ptr: usize)
        requires
            old(self).wf(),
            old(self).is_ready(),
            size + 7 <= usize::MAX,
            has_fit(old(self)@, align_word(size as int)),
        ensures
            final(self).wf(),
            final(self).is_ready(),
            final(self).memory_size() == old(self).memory_size(),
            is_first_fit(old(self)@, align_word(size as int), first_fit(old(self)@, align_word(size as int))),
            final(self)@ == after_alloc(old(self)@, align_word(size as int)),
            ptr == old(self)@[first_fit(old(self)@, align_word(size as int))].start + 8,
            final(self).keeps_data(old(self), -1),
    {
        let mut target_size = size;
        if target_size % 8 != 0 {
            target_size = target_size + 8 - (target_size % 8);
        }
        let ghost blocks = self.blocks@;
        let ghost len = self.working_memory_size as int;
        proof {
            lemma_first_fit_exists(blocks, target_size as int);
        }
        let (first_empty_block, header) = self.find_first_empty_block_after(Ghost(0), 0, target_size);
        let ghost i = first_fit(blocks, target_size as int);
        proof {
            let t = target_size as int;
            let j = choose|j: int|
                {
                    &&& is_first_fit_from(blocks, t, 0, j)
                    &&& first_empty_block == (#[trigger] blocks[j]).start
                    &&& header.0 == blocks[j].size
                };
            if j < i {
                assert(!fits(blocks[j], t));
            } else if i < j {
                assert(!fits(blocks[i], t));
            }
            assert(j == i);
            lemma_tiles_bounds(blocks, len, i);
            lemma_alloc_at_shape(blocks, len, i, target_size as int);
            assert(target_size % 8 == 0);
            lemma_alloc_word_aligned(blocks, len, i, target_size as int);
        }
        let ghost old_mem = self.memory;
        Self::fill_block(&mut self.memory, first_empty_block, header.0, target_size);
        self.blocks = Ghost(alloc_at(blocks, i, target_size as int));
        proof {
            lemma_alloc_encodes(old_mem, self.memory, blocks, len, i, target_size as int);
            lemma_keeps_data_outside(old(self), self, i, blocks[i].start as int, block_end(blocks[i]), -1);
        }
        first_empty_block + 8
    }

    /// Marks the free block at `ptr` filled, splitting off what is left
    /// when it is large enough.
    fn fill_block(mem: &mut ByteMemory, ptr: usize, block_size: usize, target_size: usize)
        requires
            ptr + block_size + 16 <= old(mem)@.len(),
            old(mem)@.len() <= usize::MAX,
            target_size <= block_size,
            target_size % 2 == 0,
            block_size % 2 == 0,
        ensures
            final(mem)@.len() == old(mem)@.len(),
            final(mem).word_at(ptr as int) == header_value(
                if splits(block_size as int, target_size as int) { target_size as int } else { block_size as int },
                true,
            ),
            splits(block_size as int, target_size as int) ==> {
                &&& final(mem).word_at(ptr + 8 + target_size) == target_size
                &&& final(mem).word_at(ptr + target_size + 16) == header_value(block_size - target_size - 16, false)
                &&& final(mem).word_at(ptr + block_size + 8) == block_size - target_size - 16
            },
            !splits(block_size as int, target_size as int) ==> final(mem).word_at(ptr + 8 + block_size)
                == block_size,
            forall|b: int|
                0 <= b && b + 8 <= old(mem)@.len() && (b + 8 <= ptr || ptr + block_size + 16 <= b)
                    ==> #[trigger] final(mem).word_at(b) == old(mem).word_at(b),
    {
        // split only when the rest can hold a header, a footer and a word
        if block_size > 3 * 8 && target_size < block_size - 3 * 8 {
            Self::split_block(mem, ptr, block_size, target_size);
        } else {
            Self::write_block_headers(mem, ptr, block_size, true);
        }
    }

    /// Fills the first `target_size` bytes of the free block at `ptr` and
    /// makes the rest of it a free block of its own.
    fn split_block(mem: &mut ByteMemory, ptr: usize, prev_size: usize, target_size: usize)
        requires
            ptr + prev_size + 16 <= old(mem)@.len(),
            old(mem)@.len() <= usize::MAX,
            target_size + 24 < prev_size,
            target_size % 2 == 0,
            prev_size % 2 == 0,
        ensures
            final(mem)@.len() == old(mem)@.len(),
            final(mem).word_at(ptr as int) == header_value(target_size as int, true),
            final(mem).word_at(ptr + 8 + target_size) == target_size,
            final(mem).word_at(ptr + target_size + 16) == header_value(prev_size - target_size - 16, false),
            final(mem).word_at(ptr + prev_size + 8) == prev_size - target_size - 16,
            forall|b: int|
                0 <= b && b + 8 <= old(mem)@.len() && (b + 8 <= ptr || ptr + prev_size + 16 <= b)
                    ==> #[trigger] final(mem).word_at(b) == old(mem).word_at(b),
    {
        let next_block_addr = Self::next_block_addr(ptr, target_size);
        Self::write_block_headers(mem, ptr, target_size, true);
        let ghost mid = *mem;
        Self::write_block_headers(mem, next_block_addr, prev_size - target_size - 16, false);
        proof {
            assert(mem.word_at(ptr as int) == mid.word_at(ptr as int));
            assert(mem.word_at(ptr + 8 + target_size) == mid.word_at(ptr + 8 + target_size));
        }
    }

    /// Returns the block with data at `ptr` to the free blocks, merging it
    /// with free neighbours.
    #[verifier::spinoff_prover]
    #[verifier::rlimit(40)]
    pub fn deallocate(&mut self, ptr: usize)
        requires
            old(self).wf(),
            old(self).is_ready(),
            exists|i: int| 0 <= i < old(self)@.len() && #[trigger] old(self)@[i].start + 8 == ptr,
        ensures
            final(self).wf(),
            final(self).is_ready(),
            final(self).memory_size() == old(self).memory_size(),
            0 <= block_of_data(old(self)@, ptr as int) < old(self)@.len(),
            old(self)@[block_of_data(old(self)@, ptr as int)].start + 8 == ptr,
            final(self)@ == after_dealloc(old(self)@, block_of_data(old(self)@, ptr as int)),
            final(self).keeps_data(old(self), block_of_data(old(self)@, ptr as int)),
    {
        let ghost blocks = self.blocks@;
        let ghost len = self.working_memory_size as int;
        let ghost i = block_of_data(blocks, ptr as int);
        proof {
            lemma_tiles_bounds(blocks, len, i);
        }
        let mut ptr = ptr - 8;
        let (block_size0, _) = self.read_header(Ghost(i), ptr);
        let mut block_size = block_size0;
        let ghost lo = merge_low(blocks, i);
        let ghost hi = merge_high(blocks, i);
        let has_previous_block = ptr != 0;
        if has_previous_block {
            proof {
                assert(i > 0);
                assert(follows(blocks, i));
                lemma_tiles_bounds(blocks, len, i - 1);
                assert(self.memory.word_at(blocks[i - 1].start + 8 + blocks[i - 1].size) == blocks[i - 1].size);
            }
            let previous_block_size = self.memory.read_word(ptr - 8);
            let previous_block_ptr = ptr - (8 * 2 + previous_block_size);
            let (_, previous_block_filled) = self.read_header(Ghost(i - 1), previous_block_ptr);
            if !previous_block_filled {
                ptr = previous_block_ptr;
                block_size = previous_block_size + 8 * 2 + block_size;
            }
        } else {
            proof {
                if i > 0 {
                    assert(follows(blocks, i));
                    lemma_tiles_bounds(blocks, len, i - 1);
                }
            }
        }
        proof {
            assert(ptr == blocks[lo].start);
            assert(ptr + 16 + block_size == block_end(blocks[i]));
            if i + 1 < blocks.len() {
                assert(follows(blocks, i + 1));
                lemma_tiles_bounds(blocks, len, i + 1);
            } else {
                assert(blocks.last() == blocks[i]);
            }
        }
        let memory_end = self.memory_end();
        let has_next_block = ptr + 8 * 2 + block_size != memory_end;
        if has_next_block {
            let next_block_ptr = ptr + 8 * 2 + block_size;
            let (next_block_size, next_block_filled) = self.read_header(Ghost(i + 1), next_block_ptr);
            if !next_block_filled {
                block_size = block_size + 8 * 2 + next_block_size;
            }
        }
        proof {
            assert(ptr + 16 + block_size == block_end(blocks[hi]));
            lemma_after_dealloc_shape(blocks, len, i);
            lemma_merge_range_tiles(blocks, len, lo, hi);
            if lo < hi {
                lemma_tiles_ordered(blocks, len, lo, hi);
            }
            assert(merged_block(blocks, lo, hi).size == block_size);
        }
        let ghost old_mem = self.memory;
        Self::write_block_headers(&mut self.memory, ptr, block_size, false);
        self.blocks = Ghost(after_dealloc(blocks, i));
        proof {
            lemma_dealloc_encodes(old_mem, self.memory, blocks, len, i);
            lemma_dealloc_word_aligned(blocks, i);
            lemma_keeps_data_merged(old(self), self, i, lo, hi);
        }
    }

    /// Whether a request for `size` bytes can be served: some free block
    /// holds `size` rounded up to a whole number of words.
    pub fn can_allocate(&self, size: usize) -> (r: bool)
        requires
            self.wf(),
            self.is_ready(),
            size + 7 <= usize::MAX,
        ensures
            r == has_fit(self@, align_word(size as int)),
    {
        let mut target_size = size;
        if target_size % 8 != 0 {
            target_size = target_size + 8 - (target_size % 8);
        }
        let list = self.block_list();
        let mut k: usize = 0;
        while k < list.len()
            invariant
                list@ == self.blocks@,
                target_size == align_word(size as int),
                0 <= k <= list@.len(),
                forall|j: int| 0 <= j < k ==> !fits(#[trigger] list@[j], target_size as int),
            decreases list@.len() - k,
        {
            if !list[k].filled && list[k].size >= target_size {
                proof {
                    assert(fits(self.blocks@[k as int], target_size as int));
                }
                return true;
            }
            k = k + 1;
        }
        false
    }

    /// The blocks of the heap, in address order, as read from their headers.
    pub fn block_list(&self) -> (r: Vec<BlockInfo>)
        requires
            self.wf(),
            self.is_ready(),
        ensures
            r@ == self@,
    {
        let ghost blocks = self.blocks@;
        let ghost len = self.working_memory_size as int;
        let mut list: Vec<BlockInfo> = Vec::new();
        let mut p: usize = 0;
        let end = self.memory_end();
        let ghost mut k: int = 0;
        while p != end
            invariant
                self.wf(),
                self.ready,
                blocks == self.blocks@,
                len == self.working_memory_size,
                end == len,
                0 <= k <= blocks.len(),
                k < blocks.len() ==> blocks[k].start == p,
                k == blocks.len() <==> p == end,
                list@ == blocks.subrange(0, k),
            decreases blocks.len() - k,
        {
            proof {
                if k == blocks.len() {
                    assert(false);
                }
                lemma_tiles_bounds(blocks, len, k);
            }
            let (size, filled) = self.read_header(Ghost(k), p);
            list.push(BlockInfo { start: p, size, filled });
            p = Self::next_block_addr(p, size);
            proof {
                assert(list@ =~= blocks.subrange(0, k + 1));
                if k + 1 < blocks.len() {
                    assert(follows(blocks, k + 1));
                    lemma_tiles_ordered(blocks, len, k, k + 1);
                    lemma_tiles_bounds(blocks, len, k + 1);
                } else {
                    assert(blocks.last() == blocks[k]);
                }
                if k + 1 < blocks.len() && p == end {
                    lemma_tiles_bounds(blocks, len, k + 1);
                }
                k = k + 1;
            }
        }
        proof {
            assert(list@ =~= blocks);
        }
        list
    }

    /// Walks the blocks from the one at `ptr` to the first free one that
    /// can take `target_size` bytes.
    fn find_first_empty_block_after(&self, Ghost(k0): Ghost<int>, ptr: usize, target_size: usize) -> (r: (
        usize,
        (usize, bool),
    ))
        requires
            self.wf(),
            self.ready,
            0 <= k0 < self.blocks@.len(),
            self.blocks@[k0].start == ptr,
            exists|j: int| k0 <= j < self.blocks@.len() && fits(#[trigger] self.blocks@[j], target_size as int),
        ensures
            exists|i: int|
                {
                    &&& is_first_fit_from(self.blocks@, target_size as int, k0, i)
                    &&& r.0 == (#[trigger] self.blocks@[i]).start
                    &&& r.1.0 == self.blocks@[i].size
                },
            !r.1.1,
    {
        let ghost blocks = self.blocks@;
        let mut p: usize = ptr;
        let ghost mut k: int = k0;
        let mut header = self.read_header(Ghost(k), p);
        while header.1 || header.0 < target_size
            invariant
                self.wf(),
                self.ready,
                blocks == self.blocks@,
                0 <= k0 <= k < blocks.len(),
                blocks[k].start == p,
                header.0 == blocks[k].size,
                header.1 == blocks[k].filled,
                forall|j: int| k0 <= j < k ==> !fits(#[trigger] blocks[j], target_size as int),
                exists|j: int| k0 <= j < blocks.len() && fits(#[trigger] blocks[j], target_size as int),
            decreases blocks.len() - k,
        {
            proof {
                let w = choose|w: int| k0 <= w < blocks.len() && fits(#[trigger] blocks[w], target_size as int);
                assert(!fits(blocks[k], target_size as int));
                if w <= k {
                    assert(w < k || w == k);
                }
                assert(k + 1 < blocks.len());
                assert(follows(blocks, k + 1));
                lemma_tiles_bounds(blocks, self.working_memory_size as int, k + 1);
            }
            p = Self::next_block_addr(p, header.0);
            proof {
                k = k + 1;
            }
            header = self.read_header(Ghost(k), p);
        }
        proof {
            assert(is_first_fit_from(blocks, target_size as int, k0, k));
            assert(p == blocks[k].start);
        }
        (p, header)
    }
}


} // verus!

verus! {

/// Handing out `target` bytes from a free block keeps the blocks a
/// coalesced tiling.
#[verifier::spinoff_prover]
#[verifier::rlimit(40)]
pub proof fn lemma_alloc_at_shape(blocks: Seq<BlockInfo>, len: int, i: int, target: int)
    requires
        tiles(blocks, len),
        coalesced(blocks),
        0 <= i < blocks.len(),
        fits(blocks[i], target),
        target >= 0,
        target % 2 == 0,
    ensures
        tiles(alloc_at(blocks, i, target), len),
        coalesced(alloc_at(blocks, i, target)),
{
    let b = blocks[i];
    let n = alloc_at(blocks, i, target);
    lemma_tiles_bounds(blocks, len, i);
    if splits(b.size as int, target) {
        assert forall|m: int| 0 < m < n.len() implies #[trigger] follows(n, m) by {
            if m <= i {
                assert(follows(blocks, m));
            } else if m == i + 2 {
                assert(follows(blocks, i + 1));
            } else if m > i + 2 {
                assert(follows(blocks, m - 1));
            }
        }
        assert forall|m: int| 0 <= m < n.len() implies (#[trigger] n[m]).size % 2 == 0 && n[m].start % 2 == 0 by {
            if m < i {
                assert(blocks[m].size % 2 == 0);
            } else if m > i + 1 {
                assert(blocks[m - 1].size % 2 == 0);
            }
        }
        assert(n.last() == n[n.len() - 1]);
        assert(blocks.last() == blocks[blocks.len() - 1]);
        assert forall|m: int| 0 <= m < n.len() - 1 implies #[trigger] n[m].filled || n[m + 1].filled by {
            if m < i {
                assert(blocks[m].filled || blocks[m + 1].filled);
            } else if m == i + 1 {
                assert(blocks[i].filled || blocks[i + 1].filled);
            } else if m > i + 1 {
                assert(blocks[m - 1].filled || blocks[m].filled);
            }
        }
    } else {
        assert forall|m: int| 0 < m < n.len() implies #[trigger] follows(n, m) by {
            assert(follows(blocks, m));
        }
        assert forall|m: int| 0 <= m < n.len() implies (#[trigger] n[m]).size % 2 == 0 && n[m].start % 2 == 0 by {
            assert(blocks[m].size % 2 == 0);
        }
        assert(n.last() == n[n.len() - 1]);
        assert(blocks.last() == blocks[blocks.len() - 1]);
        assert forall|m: int| 0 <= m < n.len() - 1 implies #[trigger] n[m].filled || n[m + 1].filled by {
            assert(blocks[m].filled || blocks[m + 1].filled);
        }
    }
}

/// Handing out a whole number of words from a block keeps every block on
/// a word boundary.
pub proof fn lemma_alloc_word_aligned(blocks: Seq<BlockInfo>, len: int, i: int, target: int)
    requires
        tiles(blocks, len),
        word_aligned(blocks),
        0 <= i < blocks.len(),
        fits(blocks[i], target),
        target >= 0,
        target % 8 == 0,
    ensures
        word_aligned(alloc_at(blocks, i, target)),
{
    let n = alloc_at(blocks, i, target);
    let b = blocks[i];
    lemma_tiles_bounds(blocks, len, i);
    assert(b.start % 8 == 0);
    assert forall|m: int| 0 <= m < n.len() implies (#[trigger] n[m]).start % 8 == 0 by {
        if splits(b.size as int, target) {
            if m < i {
                assert(blocks[m].start % 8 == 0);
            } else if m > i + 1 {
                assert(blocks[m - 1].start % 8 == 0);
            }
        } else {
            assert(blocks[m].start % 8 == 0);
        }
    }
}

/// Freeing a block keeps every block on a word boundary.
pub proof fn lemma_dealloc_word_aligned(blocks: Seq<BlockInfo>, i: int)
    requires
        word_aligned(blocks),
        0 <= i < blocks.len(),
    ensures
        word_aligned(after_dealloc(blocks, i)),
{
    let lo = merge_low(blocks, i);
    let hi = merge_high(blocks, i);
    let n = after_dealloc(blocks, i);
    assert forall|m: int| 0 <= m < n.len() implies (#[trigger] n[m]).start % 8 == 0 by {
        if m < lo {
            assert(blocks[m].start % 8 == 0);
        } else if m == lo {
            assert(blocks[lo].start % 8 == 0);
        } else {
            assert(blocks[m + (hi - lo)].start % 8 == 0);
        }
    }
}

/// When some block fits, the first fitting block exists.
pub proof fn lemma_first_fit_exists(blocks: Seq<BlockInfo>, target: int)
    requires
        has_fit(blocks, target),
    ensures
        is_first_fit(blocks, target, first_fit(blocks, target)),
    decreases blocks.len(),
{
    let w = choose|w: int| 0 <= w < blocks.len() && fits(#[trigger] blocks[w], target);
    let f = lemma_smallest_fit(blocks, target, w);
    assert(is_first_fit(blocks, target, f));
}

proof fn lemma_smallest_fit(blocks: Seq<BlockInfo>, target: int, w: int) -> (f: int)
    requires
        0 <= w < blocks.len(),
        fits(blocks[w], target),
    ensures
        is_first_fit(blocks, target, f),
    decreases w,
{
    if exists|j: int| 0 <= j < w && fits(#[trigger] blocks[j], target) {
        let j = choose|j: int| 0 <= j < w && fits(#[trigger] blocks[j], target);
        lemma_smallest_fit(blocks, target, j)
    } else {
        w
    }
}

/// Freeing a block keeps the blocks a coalesced tiling.
pub proof fn lemma_after_dealloc_shape(blocks: Seq<BlockInfo>, len: int, i: int)
    requires
        tiles(blocks, len),
        coalesced(blocks),
        0 <= i < blocks.len(),
    ensures
        tiles(after_dealloc(blocks, i), len),
        coalesced(after_dealloc(blocks, i)),
{
    lemma_dealloc_tiles(blocks, len, i);
    lemma_dealloc_coalesced(blocks, len, i);
}

proof fn lemma_dealloc_tiles(blocks: Seq<BlockInfo>, len: int, i: int)
    requires
        tiles(blocks, len),
        coalesced(blocks),
        0 <= i < blocks.len(),
    ensures
        tiles(after_dealloc(blocks, i), len),
{
    lemma_merge_range_tiles(blocks, len, merge_low(blocks, i), merge_high(blocks, i));
}

/// Merging a run of blocks into one keeps a tiling.
#[verifier::spinoff_prover]
#[verifier::rlimit(40)]
pub proof fn lemma_merge_range_tiles(blocks: Seq<BlockInfo>, len: int, lo: int, hi: int)
    requires
        tiles(blocks, len),
        0 <= lo <= hi < blocks.len(),
    ensures
        tiles(merge_range(blocks, lo, hi), len),
{
    let n = merge_range(blocks, lo, hi);
    let d = hi - lo;
    let merged = merged_block(blocks, lo, hi);
    lemma_tiles_bounds(blocks, len, lo);
    lemma_tiles_bounds(blocks, len, hi);
    if lo < hi {
        lemma_tiles_ordered(blocks, len, lo, hi);
    }
    assert(merged.size % 2 == 0) by {
        assert(blocks[hi].size % 2 == 0 && blocks[hi].start % 2 == 0);
        assert(blocks[lo].start % 2 == 0);
    }
    assert(n[lo] == merged);
    assert forall|m: int| 0 < m < lo implies #[trigger] follows(n, m) by {
        assert(follows(blocks, m));
    }
    if lo > 0 {
        assert(follows(blocks, lo));
        assert(follows(n, lo));
    }
    if lo + 1 < n.len() {
        assert(follows(blocks, hi + 1));
        assert(follows(n, lo + 1));
    }
    assert forall|m: int| lo + 1 < m < n.len() implies #[trigger] follows(n, m) by {
        assert(follows(blocks, m + d));
    }
    assert forall|m: int| 0 < m < n.len() implies #[trigger] follows(n, m) by {
        if m < lo {
        } else if m == lo {
        } else if m == lo + 1 {
        } else {
        }
    }
    assert forall|m: int| 0 <= m < n.len() implies (#[trigger] n[m]).size % 2 == 0 && n[m].start % 2 == 0 by {
        if m < lo {
            assert(blocks[m].size % 2 == 0);
        } else if m > lo {
            assert(blocks[m + d].size % 2 == 0);
        }
    }
    assert(n.last() == n[n.len() - 1]);
    assert(blocks.last() == blocks[blocks.len() - 1]);
}

#[verifier::spinoff_prover]
#[verifier::rlimit(40)]
proof fn lemma_dealloc_coalesced(blocks: Seq<BlockInfo>, len: int, i: int)
    requires
        tiles(blocks, len),
        coalesced(blocks),
        0 <= i < blocks.len(),
    ensures
        coalesced(after_dealloc(blocks, i)),
{
    let lo = merge_low(blocks, i);
    let hi = merge_high(blocks, i);
    let n = after_dealloc(blocks, i);
    let d = hi - lo;
    assert forall|m: int| 0 <= m < n.len() - 1 implies #[trigger] n[m].filled || n[m + 1].filled by {
        if m < lo - 1 {
            assert(n[m] == blocks[m] && n[m + 1] == blocks[m + 1]);
            assert(blocks[m].filled || blocks[m + 1].filled);
        } else if m == lo - 1 {
            assert(n[m] == blocks[m]);
            if lo == i - 1 {
                assert(blocks[i - 2].filled || blocks[i - 1].filled);
            } else {
                assert(blocks[i - 1].filled);
            }
        } else if m == lo {
            assert(n[m + 1] == blocks[hi + 1]);
            if hi == i + 1 {
                assert(blocks[i + 1].filled || blocks[i + 2].filled);
            } else {
                assert(blocks[i + 1].filled);
            }
        } else {
            assert(n[m] == blocks[m + d] && n[m + 1] == blocks[m + 1 + d]);
            assert(blocks[m + d].filled || blocks[m + d + 1].filled);
        }
    }
}

/// The headers and footers that handing out a block writes describe the
/// new blocks.
#[verifier::spinoff_prover]
#[verifier::rlimit(40)]
proof fn lemma_alloc_encodes(
    old_mem: ByteMemory,
    mem: ByteMemory,
    blocks: Seq<BlockInfo>,
    len: int,
    i: int,
    target: int,
)
    requires
        tiles(blocks, len),
        encodes(old_mem, blocks),
        old_mem@.len() == len,
        0 <= i < blocks.len(),
        fits(blocks[i], target),
        target >= 0,
        mem.word_at(blocks[i].start as int) == header_value(
            if splits(blocks[i].size as int, target) { target } else { blocks[i].size as int },
            true,
        ),
        splits(blocks[i].size as int, target) ==> {
            &&& mem.word_at(blocks[i].start + 8 + target) == target
            &&& mem.word_at(blocks[i].start + target + 16) == header_value(blocks[i].size - target - 16, false)
            &&& mem.word_at(blocks[i].start + blocks[i].size + 8) == blocks[i].size - target - 16
        },
        !splits(blocks[i].size as int, target) ==> mem.word_at(blocks[i].start + 8 + blocks[i].size)
            == blocks[i].size,
        forall|b: int|
            0 <= b && b + 8 <= len && (b + 8 <= blocks[i].start || block_end(blocks[i]) <= b)
                ==> #[trigger] mem.word_at(b) == old_mem.word_at(b),
    ensures
        encodes(mem, alloc_at(blocks, i, target)),
{
    let n = alloc_at(blocks, i, target);
    let split = splits(blocks[i].size as int, target);
    lemma_tiles_bounds(blocks, len, i);
    assert forall|m: int| 0 <= m < n.len() implies {
        &&& mem.word_at(#[trigger] n[m].start as int) == header_value(n[m].size as int, n[m].filled)
        &&& mem.word_at(n[m].start + 8 + n[m].size) == n[m].size
    } by {
        if m < i {
            lemma_tiles_ordered(blocks, len, m, i);
            assert(n[m] == blocks[m]);
            assert(old_mem.word_at(blocks[m].start as int) == header_value(blocks[m].size as int, blocks[m].filled));
        } else if m > i && !split {
            lemma_tiles_ordered(blocks, len, i, m);
            lemma_tiles_bounds(blocks, len, m);
            assert(n[m] == blocks[m]);
            assert(old_mem.word_at(blocks[m].start as int) == header_value(blocks[m].size as int, blocks[m].filled));
        } else if m > i + 1 && split {
            lemma_tiles_ordered(blocks, len, i, m - 1);
            lemma_tiles_bounds(blocks, len, m - 1);
            assert(n[m] == blocks[m - 1]);
            assert(old_mem.word_at(blocks[m - 1].start as int) == header_value(blocks[m - 1].size as int, blocks[m - 1].filled));
        }
    }
}

/// The header and footer that freeing a block writes describe the merged
/// block, and the other blocks keep theirs.
#[verifier::spinoff_prover]
#[verifier::rlimit(40)]
proof fn lemma_dealloc_encodes(old_mem: ByteMemory, mem: ByteMemory, blocks: Seq<BlockInfo>, len: int, i: int)
    requires
        tiles(blocks, len),
        encodes(old_mem, blocks),
        old_mem@.len() == len,
        0 <= i < blocks.len(),
        mem.word_at(blocks[merge_low(blocks, i)].start as int) == header_value(
            merged_block(blocks, merge_low(blocks, i), merge_high(blocks, i)).size as int,
            false,
        ),
        mem.word_at(blocks[merge_low(blocks, i)].start + 8 + merged_block(blocks, merge_low(blocks, i), merge_high(blocks, i)).size)
            == merged_block(blocks, merge_low(blocks, i), merge_high(blocks, i)).size,
        forall|b: int|
            0 <= b && b + 8 <= len && (b + 8 <= blocks[merge_low(blocks, i)].start || block_end(
                blocks[merge_high(blocks, i)],
            ) <= b) ==> #[trigger] mem.word_at(b) == old_mem.word_at(b),
    ensures
        encodes(mem, after_dealloc(blocks, i)),
{
    let lo = merge_low(blocks, i);
    let hi = merge_high(blocks, i);
    let n = after_dealloc(blocks, i);
    let d = hi - lo;
    lemma_tiles_bounds(blocks, len, lo);
    lemma_tiles_bounds(blocks, len, hi);
    if lo < hi {
        lemma_tiles_ordered(blocks, len, lo, hi);
    }
    assert(n[lo] == merged_block(blocks, lo, hi));
    assert forall|m: int| 0 <= m < n.len() implies {
        &&& mem.word_at(#[trigger] n[m].start as int) == header_value(n[m].size as int, n[m].filled)
        &&& mem.word_at(n[m].start + 8 + n[m].size) == n[m].size
    } by {
        if m < lo {
            lemma_tiles_ordered(blocks, len, m, lo);
            lemma_tiles_bounds(blocks, len, m);
            assert(n[m] == blocks[m]);
            assert(old_mem.word_at(blocks[m].start as int) == header_value(blocks[m].size as int, blocks[m].filled));
            assert(mem.word_at(blocks[m].start as int) == old_mem.word_at(blocks[m].start as int));
            assert(mem.word_at(blocks[m].start + 8 + blocks[m].size) == old_mem.word_at(blocks[m].start + 8 + blocks[m].size));
        } else if m > lo {
            lemma_tiles_ordered(blocks, len, hi, m + d);
            lemma_tiles_bounds(blocks, len, m + d);
            assert(n[m] == blocks[m + d]);
            assert(old_mem.word_at(blocks[m + d].start as int) == header_value(blocks[m + d].size as int, blocks[m + d].filled));
            assert(mem.word_at(blocks[m + d].start as int) == old_mem.word_at(blocks[m + d].start as int));
            assert(mem.word_at(blocks[m + d].start + 8 + blocks[m + d].size) == old_mem.word_at(blocks[m + d].start + 8 + blocks[m + d].size));
        }
    }
}

/// Handing out a block and freeing it again gives back the heap as it
/// was: the data offset handed out names the block, and freeing it merges
/// back whatever the allocation split off.
pub proof fn law_alloc_then_free_restores(blocks: Seq<BlockInfo>, len: int, target: int)
    requires
        tiles(blocks, len),
        coalesced(blocks),
        has_fit(blocks, target),
        target >= 0,
        target % 2 == 0,
    ensures
        block_of_data(after_alloc(blocks, target), blocks[first_fit(blocks, target)].start + 8)
            == first_fit(blocks, target),
        after_dealloc(after_alloc(blocks, target), first_fit(blocks, target)) == blocks,
{
    lemma_first_fit_exists(blocks, target);
    let i = first_fit(blocks, target);
    let n = after_alloc(blocks, target);
    lemma_alloc_at_shape(blocks, len, i, target);
    lemma_tiles_bounds(blocks, len, i);
    // the block handed out is the only one whose data starts there
    let k = block_of_data(n, blocks[i].start + 8);
    assert(n[i].start == blocks[i].start);
    assert(0 <= k < n.len() && n[k].start + 8 == blocks[i].start + 8);
    if k != i {
        law_blocks_disjoint(n, len, k, i);
    }
    assert(k == i);
    if i > 0 {
        assert(blocks[i - 1].filled || blocks[i].filled);
    }
    if splits(blocks[i].size as int, target) {
        assert(merge_low(n, i) == i);
        assert(merge_high(n, i) == i + 1);
        assert(after_dealloc(n, i) =~= blocks);
    } else {
        if i + 1 < blocks.len() {
            assert(blocks[i].filled || blocks[i + 1].filled);
        }
        assert(merge_low(n, i) == i);
        assert(merge_high(n, i) == i);
        assert(after_dealloc(n, i) =~= blocks);
    }
}


/// Handing out `target` bytes takes the first free block that can hold
/// them. When that block is more than three words larger than the request,
/// it keeps just the request and the rest, less a header and a footer,
/// becomes a free block right after it; otherwise the whole block is
/// handed out. Every other block stays as it was.
pub proof fn law_alloc_splits_off_the_rest(blocks: Seq<BlockInfo>, len: int, target: int)
    requires
        tiles(blocks, len),
        coalesced(blocks),
        has_fit(blocks, target),
        target >= 0,
    ensures
        ({
            let i = first_fit(blocks, target);
            let b = blocks[i];
            let n = after_alloc(blocks, target);
            &&& 0 <= i < blocks.len()
            &&& !b.filled && b.size >= target
            &&& forall|j: int| 0 <= j < i ==> #[trigger] n[j] == blocks[j]
            &&& target + 24 < b.size ==> {
                &&& n.len() == blocks.len() + 1
                &&& n[i] == BlockInfo { start: b.start, size: target as usize, filled: true }
                &&& n[i + 1] == BlockInfo {
                    start: (b.start + target + 16) as usize,
                    size: (b.size - target - 16) as usize,
                    filled: false,
                }
                &&& b.start + target + 16 + (b.size - target - 16) + 16 == block_end(b)
                &&& forall|j: int| i + 1 < j < n.len() ==> #[trigger] n[j] == blocks[j - 1]
            }
            &&& b.size <= target + 24 ==> {
                &&& n.len() == blocks.len()
                &&& n[i] == BlockInfo { start: b.start, size: b.size, filled: true }
                &&& forall|j: int| i < j < n.len() ==> #[trigger] n[j] == blocks[j]
            }
        }),
{
    lemma_first_fit_exists(blocks, target);
    let i = first_fit(blocks, target);
    lemma_tiles_bounds(blocks, len, i);
}

/// Writes confined to the bytes `lo..hi`, where only blocks that are free
/// or block `except` lie, keep the data of every other filled block.
proof fn lemma_keeps_data_outside(old_a: &SimpleAllocator, a: &SimpleAllocator, i: int, lo: int, hi: int, except: int)
    requires
        old_a.wf(),
        old_a.ready,
        0 <= i < old_a.blocks@.len(),
        lo == old_a.blocks@[i].start,
        hi == block_end(old_a.blocks@[i]),
        !old_a.blocks@[i].filled || i == except,
        a.memory@.len() == old_a.memory@.len(),
        forall|b: int|
            0 <= b && b + 8 <= old_a.memory@.len() && (b + 8 <= lo || hi <= b) ==> #[trigger] a.memory.word_at(b)
                == old_a.memory.word_at(b),
    ensures
        forall|j: int, w: int|
            #![trigger old_a.blocks@[j], a.memory_word(w)]
            0 <= j < old_a.blocks@.len() && j != except && old_a.blocks@[j].filled && old_a.blocks@[j].start + 8
                <= w && w + 8 <= old_a.blocks@[j].start + 8 + old_a.blocks@[j].size ==> a.memory_word(w)
                == old_a.memory_word(w),
{
    let blocks = old_a.blocks@;
    let len = old_a.working_memory_size as int;
    assert forall|j: int, w: int|
        #![trigger old_a.blocks@[j], a.memory_word(w)]
        0 <= j < blocks.len() && j != except && blocks[j].filled && blocks[j].start + 8 <= w && w + 8
            <= blocks[j].start + 8 + blocks[j].size implies a.memory_word(w) == old_a.memory_word(w) by {
        law_blocks_disjoint(blocks, len, j, i);
        lemma_tiles_bounds(blocks, len, j);
    }
}

/// Freeing block `i` writes only within the run `lo..=hi` it merges into,
/// so the data of every other filled block stays.
proof fn lemma_keeps_data_merged(old_a: &SimpleAllocator, a: &SimpleAllocator, i: int, lo: int, hi: int)
    requires
        old_a.wf(),
        old_a.ready,
        0 <= i < old_a.blocks@.len(),
        lo == merge_low(old_a.blocks@, i),
        hi == merge_high(old_a.blocks@, i),
        a.memory@.len() == old_a.memory@.len(),
        forall|b: int|
            0 <= b && b + 8 <= old_a.memory@.len() && (b + 8 <= old_a.blocks@[lo].start || block_end(old_a.blocks@[hi])
                <= b) ==> #[trigger] a.memory.word_at(b) == old_a.memory.word_at(b),
    ensures
        a.keeps_data(old_a, i),
{
    let blocks = old_a.blocks@;
    let len = old_a.working_memory_size as int;
    assert forall|j: int, w: int|
        #![trigger old_a@[j], a.memory_word(w)]
        0 <= j < old_a@.len() && j != i && old_a@[j].filled && old_a@[j].start + 8 <= w && w + 8 <= old_a@[j].start
            + 8 + old_a@[j].size implies a.memory_word(w) == old_a.memory_word(w) by {
        lemma_tiles_bounds(blocks, len, j);
        if j < lo {
            lemma_tiles_ordered(blocks, len, j, lo);
        } else {
            assert(j > hi);
            lemma_tiles_ordered(blocks, len, hi, j);
        }
    }
}


impl SimpleAllocator {
    /// Reads the word at `addr`, in the data of a filled block.
    pub fn read_word_at(&self, addr: usize) -> (w: usize)
        requires
            self.wf(),
            self.is_ready(),
            self.in_filled(addr as int),
        ensures
            w == self.memory_word(addr as int),
    {
        proof {
            let j = choose|j: int|
                0 <= j < self@.len() && (#[trigger] self@[j]).filled && self@[j].start + 8 <= addr && addr + 8
                    <= self@[j].start + 8 + self@[j].size;
            lemma_tiles_bounds(self.blocks@, self.working_memory_size as int, j);
        }
        self.memory.read_word(addr)
    }

    /// Stores `word` at `addr`, in the data of a filled block; the blocks
    /// stay as they are.
    pub fn write_word_at(&mut self, addr: usize, word: usize)
        requires
            old(self).wf(),
            old(self).is_ready(),
            old(self).in_filled(addr as int),
        ensures
            final(self).wf(),
            final(self).is_ready(),
            final(self).memory_size() == old(self).memory_size(),
            final(self)@ == old(self)@,
            final(self).memory_word(addr as int) == word,
            forall|w: int|
                0 <= w && w + 8 <= final(self).memory_size() && (w + 8 <= addr || addr + 8 <= w)
                    ==> #[trigger] final(self).memory_word(w) == old(self).memory_word(w),
    {
        let ghost j = choose|j: int|
            0 <= j < self@.len() && (#[trigger] self@[j]).filled && self@[j].start + 8 <= addr && addr + 8
                <= self@[j].start + 8 + self@[j].size;
        proof {
            lemma_tiles_bounds(self.blocks@, self.working_memory_size as int, j);
        }
        self.memory.write_word(addr, word);
        proof {
            lemma_written_data(old(self), self, addr as int, j);
        }
    }
}

/// Writing a word inside the data of a filled block leaves every header
/// and footer in place.
proof fn lemma_written_data(old_a: &SimpleAllocator, a: &SimpleAllocator, addr: int, j: int)
    requires
        old_a.wf(),
        old_a.ready,
        0 <= j < old_a.blocks@.len(),
        old_a.blocks@[j].filled,
        old_a.blocks@[j].start + 8 <= addr,
        addr + 8 <= old_a.blocks@[j].start + 8 + old_a.blocks@[j].size,
        a.ready == old_a.ready,
        a.working_memory_size == old_a.working_memory_size,
        a.blocks == old_a.blocks,
        a.memory@.len() == old_a.memory@.len(),
        forall|w: int|
            old_a.memory.holds_word(w) && (w + 8 <= addr || addr + 8 <= w) ==> #[trigger] a.memory.word_at(w)
                == old_a.memory.word_at(w),
    ensures
        a.wf(),
{
    let blocks = old_a.blocks@;
    let len = old_a.working_memory_size as int;
    assert forall|k: int| 0 <= k < blocks.len() implies {
        &&& a.memory.word_at(#[trigger] blocks[k].start as int) == header_value(blocks[k].size as int, blocks[k].filled)
        &&& a.memory.word_at(blocks[k].start + 8 + blocks[k].size) == blocks[k].size
    } by {
        lemma_tiles_bounds(blocks, len, k);
        if k != j {
            law_blocks_disjoint(blocks, len, k, j);
        }
    }
    assert(encodes(a.memory, blocks));
}

} // verus!
