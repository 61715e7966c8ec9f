use vstd::prelude::*;
use vstd::arithmetic::power2::{pow2, lemma_pow2_unfold, lemma_pow2_pos};

use crate::memory::{ByteMemory, WriteAndReadWords, WORD_SIZE, supported_align};

verus! {

/// The size of a page.
pub const PAGE_SIZE: usize = 16384;

/// The number of pages that `SlabAllocator::new` works with.
pub const TOTAL_PAGES: usize = 100000;

/// The number of size classes of block pages: one for each power of two
/// up to the page size.
pub const SIZE_CLASSES: usize = 14;

/// The machine word size.
pub fn word_size() -> (r: usize)
    ensures
        r == 8,
{
    WORD_SIZE
}

/// The number of pages that `bytes` bytes take, rounded up.
pub fn pages_ceil(bytes: usize) -> (r: usize)
    ensures
        r == bytes / PAGE_SIZE + if bytes % PAGE_SIZE != 0 {
            1int
        } else {
            0
        },
        r * PAGE_SIZE >= bytes,
        (r - 1) * PAGE_SIZE < bytes || r == 0,
{
    bytes / PAGE_SIZE + if bytes % PAGE_SIZE != 0 {
        1
    } else {
        0
    }
}

/// `v` rounded up to a multiple of the word size.
pub fn align(v: usize) -> (r: usize)
    requires
        v + 7 <= usize::MAX,
    ensures
        r == if v % 8 != 0 {
            v + 8 - v % 8
        } else {
            v as int
        },
        r % 8 == 0,
        v <= r < v + 8,
{
    if v % word_size() != 0 {
        v + word_size() - (v % word_size())
    } else {
        v
    }
}

/// The number of binary digits of `x`.
pub open spec fn bit_length(x: nat) -> nat
    decreases x,
{
    if x == 0 {
        0
    } else {
        1 + bit_length(x / 2)
    }
}

/// The smallest power of two that is at least `n`, as an exponent.
pub fn log2_ceil(number: usize) -> (log2: usize)
    requires
        number >= 1,
    ensures
        log2 == bit_length((number - 1) as nat),
        number <= pow2(log2 as nat),
        log2 > 0 ==> pow2((log2 - 1) as nat) < number,
{
    let mut log2: usize = 0;
    let mut number = number - 1;
    let ghost start = number as nat;
    proof {
        lemma_bit_length_bounds(start);
    }
    while number != 0
        invariant
            log2 + bit_length(number as nat) == bit_length(start),
            log2 <= 64,
            bit_length(start) <= 64,
        decreases number,
    {
        proof {
            assert(number >> 1 == number / 2) by (bit_vector);
        }
        number = number >> 1;
        log2 = log2 + 1;
    }
    log2
}

/// `x` lies between the powers of two around its bit length.
pub proof fn lemma_bit_length_bounds(x: nat)
    ensures
        x < pow2(bit_length(x)),
        bit_length(x) > 0 ==> pow2((bit_length(x) - 1) as nat) <= x,
        x <= usize::MAX ==> bit_length(x) <= 64,
    decreases x,
{
    if x > 0 {
        lemma_bit_length_bounds(x / 2);
        lemma_pow2_unfold(bit_length(x));
        if bit_length(x / 2) > 0 {
            lemma_pow2_unfold(bit_length(x / 2));
        }
        assert(pow2(0) == 1) by {
            vstd::arithmetic::power2::lemma2_to64();
        }
        if x <= usize::MAX {
            vstd::arithmetic::power2::lemma2_to64();
            lemma_bit_length_below(x, 64);
        }
    } else {
        assert(pow2(0) == 1) by {
            vstd::arithmetic::power2::lemma2_to64();
        }
    }
}

/// A number below `2^n` has at most `n` binary digits.
pub proof fn lemma_bit_length_below(x: nat, n: nat)
    requires
        x < pow2(n),
    ensures
        bit_length(x) <= n,
    decreases x,
{
    if x > 0 {
        if n == 0 {
            vstd::arithmetic::power2::lemma2_to64();
        } else {
            lemma_pow2_unfold(n);
            lemma_bit_length_below(x / 2, (n - 1) as nat);
        }
    }
}

/// What a page is used for.
#[derive(PartialEq, Eq, Structural, Clone, Copy, Debug)]
pub enum PageType {
    Free,
    Blocks,
    Multipage,
}

/// The word that stores a page type.
pub open spec fn type_code(t: PageType) -> usize {
    match t {
        PageType::Free => 0,
        PageType::Blocks => 1,
        PageType::Multipage => 2,
    }
}

/// The page type that a stored word stands for; any word but 1 and 2 reads
/// as free.
pub open spec fn type_of_code(w: usize) -> PageType {
    if w == 1 {
        PageType::Blocks
    } else if w == 2 {
        PageType::Multipage
    } else {
        PageType::Free
    }
}

/// The size of the blocks of size class `k`.
pub open spec fn class_block_size(k: int) -> int {
    pow2(k as nat) as int
}

/// The number of blocks on a page of size class `k`.
pub open spec fn class_block_count(k: int) -> int {
    PAGE_SIZE as int / class_block_size(k)
}

/// The free list of a freshly laid out page of size class `k`: every block,
/// in address order.
pub open spec fn fresh_free_list(k: int) -> Seq<int> {
    Seq::new(class_block_count(k) as nat, |i: int| i * class_block_size(k))
}

/// The size class that a request for `size` bytes is served from: the
/// smallest power of two that holds it, and at least a word.
pub open spec fn class_for_size(size: int) -> int {
    if bit_length((size - 1) as nat) < 3 {
        3
    } else {
        bit_length((size - 1) as nat) as int
    }
}

/// A slab allocator over `total_pages` pages: small requests are served
/// from pages cut into blocks of one power-of-two size, large ones from
/// runs of whole pages.
pub struct SlabAllocator {
    total_pages: usize,
    ready: bool,
    memory: ByteMemory,
    page_types: Vec<usize>,
    next_pages: Vec<usize>,
    free_block_offsets: Vec<usize>,
    first_block_pages: Vec<usize>,
    blocks_allocated: Vec<usize>,
    free_lists: Ghost<Map<int, Seq<int>>>,
    classes: Ghost<Map<int, int>>,
    chains: Ghost<Seq<Seq<int>>>,
    runs: Ghost<Map<int, int>>,
}

impl SlabAllocator {
    /// The number of pages.
    pub closed spec fn page_count(&self) -> int {
        self.total_pages as int
    }

    /// The allocator has its memory.
    pub closed spec fn is_ready(&self) -> bool {
        self.ready
    }

    /// The type of page `p`.
    pub closed spec fn page_type(&self, p: int) -> PageType {
        type_of_code(self.page_types@[p])
    }

    /// The free blocks of block page `p`, as offsets in the page, the next
    /// one to hand out first.
    pub closed spec fn free_list(&self, p: int) -> Seq<int> {
        self.free_lists@[p]
    }

    /// The size class of block page `p`.
    pub closed spec fn class_of(&self, p: int) -> int {
        self.classes@[p]
    }

    /// The pages of size class `k`, in the order their links run.
    pub closed spec fn chain(&self, k: int) -> Seq<int> {
        self.chains@[k]
    }

    /// The runs of pages handed out whole: each first page with the number
    /// of pages of its run.
    pub closed spec fn runs(&self) -> Map<int, int> {
        self.runs@
    }

    /// The page that follows page `p` in its chain or run.
    pub closed spec fn next_page(&self, p: int) -> usize {
        self.next_pages@[p]
    }

    /// The number of blocks handed out from page `p`.
    pub closed spec fn allocated_on(&self, p: int) -> usize {
        self.blocks_allocated@[p]
    }

    /// The word stored at byte `addr` of the pages.
    pub closed spec fn memory_word(&self, addr: int) -> usize {
        self.memory.word_at(addr)
    }

    /// Some page is free.
    pub open spec fn has_free_page(&self) -> bool {
        exists|p: int| 0 <= p < self.page_count() && #[trigger] self.page_type(p) == PageType::Free
    }

    /// The first free page.
    pub open spec fn first_free_page(&self) -> int {
        choose|p: int|
            0 <= p < self.page_count() && self.page_type(p) == PageType::Free && forall|q: int|
                0 <= q < p ==> #[trigger] self.page_type(q) != PageType::Free
    }

    /// The layout of block page `p` is sound: its free list holds distinct
    /// block offsets of its class, linked through the first word of each
    /// block, and it counts the blocks handed out.
    pub closed spec fn block_page_ok(&self, p: int) -> bool {
        let k = self.classes@[p];
        let f = self.free_lists@[p];
        &&& 3 <= k < SIZE_CLASSES
        &&& forall|i: int| 0 <= i < f.len() ==> 0 <= #[trigger] f[i] < PAGE_SIZE && f[i] % class_block_size(k) == 0
        &&& forall|i: int, j: int| 0 <= i < j < f.len() ==> #[trigger] f[i] != #[trigger] f[j]
        &&& self.free_block_offsets@[p] == if f.len() == 0 {
            usize::MAX as int
        } else {
            f[0]
        }
        &&& forall|i: int|
            0 <= i < f.len() ==> self.memory.word_at(p * PAGE_SIZE + #[trigger] f[i]) == if i + 1 < f.len() {
                f[i + 1]
            } else {
                usize::MAX as int
            }
        &&& self.blocks_allocated@[p] + f.len() == class_block_count(k)
    }

    /// The chain of size class `k` is sound: it starts at the registered
    /// first page, its pages are distinct block pages of that class other
    /// than page 0, and each links to the next, the last to 0.
    pub closed spec fn chain_ok(&self, k: int) -> bool {
        let c = self.chains@[k];
        &&& self.first_block_pages@[k] == if c.len() == 0 {
            0
        } else {
            c[0]
        }
        &&& forall|i: int|
            0 <= i < c.len() ==> {
                &&& 0 < #[trigger] c[i] < self.total_pages
                &&& self.page_type(c[i]) == PageType::Blocks
                &&& self.classes@[c[i]] == k
                &&& self.next_pages@[c[i]] == if i + 1 < c.len() {
                    c[i + 1]
                } else {
                    0
                }
            }
        &&& forall|i: int, j: int| 0 <= i < j < c.len() ==> #[trigger] c[i] != #[trigger] c[j]
        &&& k < 3 ==> c.len() == 0
    }

    /// Page `p` is in the chain of its class.
    pub closed spec fn chained(&self, p: int) -> bool {
        exists|i: int| 0 <= i < self.chains@[self.classes@[p]].len() && #[trigger] self.chains@[self.classes@[p]][i] == p
    }

    /// What the allocator keeps true, except that block page `pending`
    /// may not be in its chain yet.
    pub closed spec fn inv(&self, pending: int) -> bool {
        &&& self.total_pages * PAGE_SIZE <= usize::MAX
        &&& self.ready ==> self.inv_ready(pending)
        &&& !self.ready ==> self.memory@.len() == 0
    }

    /// The invariant once the allocator has its memory.
    pub closed spec fn inv_ready(&self, pending: int) -> bool {
        &&& self.inv_sizes()
        &&& self.inv_types()
        &&& self.inv_block_pages()
        &&& self.inv_chains(pending)
        &&& self.inv_multipage()
    }

    /// The tables have one entry per page (one per size class for the first
    /// pages) and the memory holds every page.
    pub closed spec fn inv_sizes(&self) -> bool {
        &&& self.page_types@.len() == self.total_pages
        &&& self.next_pages@.len() == self.total_pages
        &&& self.free_block_offsets@.len() == self.total_pages
        &&& self.blocks_allocated@.len() == self.total_pages
        &&& self.first_block_pages@.len() == SIZE_CLASSES
        &&& self.chains@.len() == SIZE_CLASSES
        &&& self.memory@.len() == self.total_pages * PAGE_SIZE
    }

    /// Page types are stored as 0, 1 or 2; the block pages are those with a
    /// size class; pages that are not block pages count no blocks.
    #[verifier::opaque]
    pub closed spec fn inv_types(&self) -> bool {
        &&& forall|p: int| 0 <= p < self.total_pages ==> #[trigger] self.page_types@[p] <= 2
        &&& forall|p: int|
            0 <= p < self.total_pages ==> (#[trigger] self.page_type(p) == PageType::Blocks) == self.classes@.contains_key(p)
        &&& forall|p: int| #[trigger] self.classes@.contains_key(p) ==> 0 <= p < self.total_pages
        &&& forall|p: int|
            0 <= p < self.total_pages && #[trigger] self.page_type(p) != PageType::Blocks ==> self.blocks_allocated@[p] == 0
    }

    /// Every block page has a sound layout.
    #[verifier::opaque]
    pub closed spec fn inv_block_pages(&self) -> bool {
        forall|p: int| #[trigger] self.classes@.contains_key(p) ==> self.free_lists@.contains_key(p) && self.block_page_ok(p)
    }

    /// The chains are sound; every block page but page 0 and `pending` is
    /// in its chain; page 0 and `pending`, when block pages, link nowhere.
    #[verifier::opaque]
    pub closed spec fn inv_chains(&self, pending: int) -> bool {
        &&& forall|p: int| 0 < p && p != pending && #[trigger] self.classes@.contains_key(p) ==> self.chained(p)
        &&& forall|p: int| (p == 0 || p == pending) && #[trigger] self.classes@.contains_key(p) ==> self.next_pages@[p] == 0
        &&& pending >= 0 ==> self.classes@.contains_key(pending) && !self.chained(pending)
        &&& forall|k: int| 0 <= k < SIZE_CLASSES ==> #[trigger] self.chain_ok(k)
    }

    /// The run of `self.runs@[h]` pages from page `h` is handed out whole:
    /// its pages are multipage pages, each linked to the next one, the last
    /// one to `usize::MAX`.
    pub closed spec fn run_ok(&self, h: int) -> bool {
        &&& 0 <= h
        &&& 1 <= self.runs@[h]
        &&& h + self.runs@[h] <= self.total_pages
        &&& forall|q: int| h <= q < h + self.runs@[h] ==> #[trigger] self.run_page_ok(h, q)
    }

    /// Page `q` of the run from page `h` is a multipage page linked to the
    /// next page of the run, or to `usize::MAX` when it is the last one.
    pub closed spec fn run_page_ok(&self, h: int, q: int) -> bool {
        &&& self.page_type(q) == PageType::Multipage
        &&& self.next_pages@[q] == if q + 1 < h + self.runs@[h] {
            q + 1
        } else {
            usize::MAX as int
        }
    }

    /// The runs are sound and do not overlap.
    #[verifier::opaque]
    pub closed spec fn inv_multipage(&self) -> bool {
        &&& forall|h: int| #[trigger] self.runs@.contains_key(h) ==> self.run_ok(h)
        &&& forall|h1: int, h2: int|
            #[trigger] self.runs@.contains_key(h1) && #[trigger] self.runs@.contains_key(h2) && h1 != h2 ==> h1
                + self.runs@[h1] <= h2 || h2 + self.runs@[h2] <= h1
    }

    /// What the allocator keeps true between calls.
    pub closed spec fn wf(&self) -> bool {
        self.inv(-1)
    }
}

/// Sets the first `arr_size` entries of `arr` to `value`.
pub fn fill_with(arr: &mut Vec<usize>, arr_size: usize, value: usize)
    requires
        arr_size <= old(arr)@.len(),
    ensures
        final(arr)@.len() == old(arr)@.len(),
        forall|i: int| 0 <= i < arr_size ==> #[trigger] final(arr)@[i] == value,
        forall|i: int| arr_size <= i < old(arr)@.len() ==> #[trigger] final(arr)@[i] == old(arr)@[i],
{
    let mut i: usize = 0;
    while i < arr_size
        invariant
            arr_size <= arr@.len(),
            arr@.len() == old(arr)@.len(),
            0 <= i <= arr_size,
            forall|j: int| 0 <= j < i ==> #[trigger] arr@[j] == value,
            forall|j: int| i <= j < old(arr)@.len() ==> #[trigger] arr@[j] == old(arr)@[j],
        decreases arr_size - i,
    {
        arr.set(i, value);
        i = i + 1;
    }
}

/// The offset of the first byte of page `page_index`.
pub fn page_start(page_index: usize) -> (r: usize)
    requires
        page_index * PAGE_SIZE <= usize::MAX,
    ensures
        r == page_index * PAGE_SIZE,
{
    page_index * PAGE_SIZE
}

/// The page that holds the byte at offset `offset`.
pub fn page_by_ptr(offset: usize) -> (r: usize)
    ensures
        r == offset / PAGE_SIZE,
{
    offset / PAGE_SIZE
}

/// The offset of block `block_offset` of size `block_size` on a page.
pub fn block_ptr(page_index: usize, block_offset: usize, block_size: usize) -> (r: usize)
    requires
        page_index * PAGE_SIZE + block_offset * block_size <= usize::MAX,
    ensures
        r == page_index * PAGE_SIZE + block_offset * block_size,
{
    proof {
        assert(0 <= block_offset * block_size) by (nonlinear_arith);
        assert(0 <= page_index * PAGE_SIZE) by (nonlinear_arith);
    }
    page_start(page_index) + block_offset * block_size
}

impl SlabAllocator {
    /// An allocator for `TOTAL_PAGES` pages.
    pub fn new() -> (a: Self)
        ensures
            a.wf(),
            !a.is_ready(),
            a.page_count() == TOTAL_PAGES,
    {
        Self::with_total_pages(TOTAL_PAGES)
    }

    /// An allocator for `total_pages` pages.
    pub fn with_total_pages(total_pages: usize) -> (a: Self)
        requires
            total_pages * PAGE_SIZE <= usize::MAX,
        ensures
            a.wf(),
            !a.is_ready(),
            a.page_count() == total_pages,
    {
        SlabAllocator {
            total_pages,
            ready: false,
            memory: ByteMemory { bytes: Vec::new() },
            page_types: Vec::new(),
            next_pages: Vec::new(),
            free_block_offsets: Vec::new(),
            first_block_pages: Vec::new(),
            blocks_allocated: Vec::new(),
            free_lists: Ghost(Map::empty()),
            classes: Ghost(Map::empty()),
            chains: Ghost(Seq::empty()),
            runs: Ghost(Map::empty()),
        }
    }

    /// Takes the pages and the bookkeeping tables, and clears the tables:
    /// every page is free and no size class has pages.
    pub fn install_memory(
        &mut self,
        memory: ByteMemory,
        page_types: Vec<usize>,
        next_pages: Vec<usize>,
        free_block_offsets: Vec<usize>,
        first_block_pages: Vec<usize>,
        blocks_allocated: Vec<usize>,
    )
        requires
            old(self).wf(),
            !old(self).is_ready(),
            memory@.len() == old(self).page_count() * PAGE_SIZE,
            page_types@.len() == old(self).page_count(),
            next_pages@.len() == old(self).page_count(),
            free_block_offsets@.len() == old(self).page_count(),
            blocks_allocated@.len() == old(self).page_count(),
            first_block_pages@.len() == SIZE_CLASSES,
        ensures
            final(self).wf(),
            final(self).is_ready(),
            final(self).page_count() == old(self).page_count(),
            forall|p: int| 0 <= p < final(self).page_count() ==> #[trigger] final(self).page_type(p) == PageType::Free,
            forall|k: int| 0 <= k < SIZE_CLASSES ==> #[trigger] final(self).chain(k).len() == 0,
            final(self).runs().is_empty(),
    {
        let n = self.total_pages;
        self.memory = memory;
        self.page_types = page_types;
        self.next_pages = next_pages;
        self.free_block_offsets = free_block_offsets;
        self.first_block_pages = first_block_pages;
        self.blocks_allocated = blocks_allocated;
        fill_with(&mut self.page_types, n, 0);
        fill_with(&mut self.next_pages, n, 0);
        fill_with(&mut self.free_block_offsets, n, 0);
        fill_with(&mut self.first_block_pages, SIZE_CLASSES, 0);
        fill_with(&mut self.blocks_allocated, n, 0);
        self.free_lists = Ghost(Map::empty());
        self.classes = Ghost(Map::empty());
        self.chains = Ghost(Seq::new(SIZE_CLASSES as nat, |k: int| Seq::<int>::empty()));
        self.runs = Ghost(Map::empty());
        self.ready = true;
        proof {
            assert forall|k: int| 0 <= k < SIZE_CLASSES implies #[trigger] self.chain_ok(k) by {}
            assert forall|p: int| 0 <= p < self.total_pages implies #[trigger] self.page_type(p) == PageType::Free by {
                assert(self.page_types@[p] == 0);
            }
            reveal(SlabAllocator::inv_types);
            reveal(SlabAllocator::inv_block_pages);
            reveal(SlabAllocator::inv_chains);
            reveal(SlabAllocator::inv_multipage);
        }
    }

    /// The number of pages.
    pub fn total_page_count(&self) -> (r: usize)
        ensures
            r == self.page_count(),
    {
        self.total_pages
    }

    /// The page types are stored for every page.
    pub closed spec fn types_stored(&self) -> bool {
        self.page_types@.len() == self.total_pages
    }

    /// The type of page `page_index`.
    pub fn get_page_type(&self, page_index: usize) -> (t: PageType)
        requires
            self.types_stored(),
            page_index < self.page_count(),
        ensures
            t == self.page_type(page_index as int),
    {
        match self.page_types[page_index] {
            1 => PageType::Blocks,
            2 => PageType::Multipage,
            _ => PageType::Free,
        }
    }

    /// Stores the type of page `page_index`.
    fn set_page_type(&mut self, page_index: usize, page_type: PageType)
        requires
            page_index < old(self).page_types@.len(),
        ensures
            final(self).page_types@ == old(self).page_types@.update(page_index as int, type_code(page_type)),
            final(self).next_pages == old(self).next_pages,
            final(self).free_block_offsets == old(self).free_block_offsets,
            final(self).first_block_pages == old(self).first_block_pages,
            final(self).blocks_allocated == old(self).blocks_allocated,
            final(self).memory == old(self).memory,
            final(self).total_pages == old(self).total_pages,
            final(self).ready == old(self).ready,
            final(self).free_lists == old(self).free_lists,
            final(self).classes == old(self).classes,
            final(self).chains == old(self).chains,
            final(self).runs == old(self).runs,
    {
        self.page_types.set(
            page_index,
            match page_type {
                PageType::Free => 0,
                PageType::Blocks => 1,
                PageType::Multipage => 2,
            },
        );
    }

    /// Marks the first free page with `page_type` and returns it.
    fn request_page(&mut self, page_type: PageType) -> (page: usize)
        requires
            old(self).page_types@.len() == old(self).total_pages,
            forall|p: int| 0 <= p < old(self).total_pages ==> #[trigger] old(self).page_types@[p] <= 2,
            old(self).has_free_page(),
        ensures
            page == old(self).first_free_page(),
            0 <= page < old(self).page_count(),
            old(self).page_type(page as int) == PageType::Free,
            forall|q: int| 0 <= q < page ==> #[trigger] old(self).page_type(q) != PageType::Free,
            final(self).page_types@ == old(self).page_types@.update(page as int, type_code(page_type)),
            final(self).next_pages == old(self).next_pages,
            final(self).free_block_offsets == old(self).free_block_offsets,
            final(self).first_block_pages == old(self).first_block_pages,
            final(self).blocks_allocated == old(self).blocks_allocated,
            final(self).memory == old(self).memory,
            final(self).total_pages == old(self).total_pages,
            final(self).ready == old(self).ready,
            final(self).free_lists == old(self).free_lists,
            final(self).classes == old(self).classes,
            final(self).chains == old(self).chains,
            final(self).runs == old(self).runs,
    {
        let mut i: usize = 0;
        while i < self.total_pages
            invariant
                self.page_types@.len() == self.total_pages,
                self == old(self),
                old(self).has_free_page(),
                0 <= i <= self.total_pages,
                forall|q: int| 0 <= q < i ==> #[trigger] self.page_type(q) != PageType::Free,
            decreases self.total_pages - i,
        {
            if self.get_page_type(i) == PageType::Free {
                proof {
                    lemma_first_free_page(old(self), i as int);
                }
                self.set_page_type(i, page_type);
                return i;
            }
            i = i + 1;
        }
        proof {
            let w = choose|p: int| 0 <= p < self.page_count() && #[trigger] self.page_type(p) == PageType::Free;
            assert(self.page_type(w) != PageType::Free);
        }
        0
    }
}

/// Page types are stored as 0, 1 or 2.
proof fn lemma_stored_types(s: &SlabAllocator)
    requires
        s.wf(),
        s.ready,
    ensures
        s.page_types@.len() == s.total_pages,
        forall|p: int| 0 <= p < s.total_pages ==> #[trigger] s.page_types@[p] <= 2,
{
    reveal(SlabAllocator::inv_types);
}

/// The first free page is the one before which no page is free.
proof fn lemma_first_free_page(s: &SlabAllocator, i: int)
    requires
        0 <= i < s.page_count(),
        s.page_type(i) == PageType::Free,
        forall|q: int| 0 <= q < i ==> #[trigger] s.page_type(q) != PageType::Free,
    ensures
        s.first_free_page() == i,
{
    let f = s.first_free_page();
    assert(0 <= f < s.page_count() && s.page_type(f) == PageType::Free && forall|q: int|
        0 <= q < f ==> #[trigger] s.page_type(q) != PageType::Free);
    if f < i {
        assert(s.page_type(f) != PageType::Free);
    } else if i < f {
        assert(s.page_type(i) != PageType::Free);
    }
}

/// Facts about the block sizes of the size classes in use.
pub proof fn lemma_class_facts(k: int)
    requires
        3 <= k < SIZE_CLASSES,
    ensures
        8 <= class_block_size(k) <= PAGE_SIZE / 2,
        PAGE_SIZE as int % class_block_size(k) == 0,
        class_block_count(k) * class_block_size(k) == PAGE_SIZE,
        class_block_count(k) >= 2,
        class_block_count(k) <= 2048,
        class_block_size(k) % 8 == 0,
{
    vstd::arithmetic::power2::lemma2_to64();
    assert(k == 3 || k == 4 || k == 5 || k == 6 || k == 7 || k == 8 || k == 9 || k == 10 || k == 11 || k == 12
        || k == 13);
}

/// A block at a multiple of the block size below the page size lies
/// wholly in the page, with room for a word.
pub proof fn lemma_block_in_page(k: int, off: int)
    requires
        3 <= k < SIZE_CLASSES,
        0 <= off < PAGE_SIZE,
        off % class_block_size(k) == 0,
    ensures
        off + class_block_size(k) <= PAGE_SIZE,
        off + 8 <= PAGE_SIZE,
{
    lemma_class_facts(k);
    let b = class_block_size(k);
    let c = class_block_count(k);
    assert(off + b <= PAGE_SIZE) by (nonlinear_arith)
        requires
            0 <= off < c * b,
            off % b == 0,
            b > 0,
            c * b == PAGE_SIZE,
    {
        let m = off / b;
        assert(off == m * b);
        assert(m < c);
        assert(m + 1 <= c);
        assert((m + 1) * b <= c * b);
    }
}

/// Everything the allocator hands out starts on a word boundary: a block
/// at a multiple of its power-of-two size within a page, a run at the
/// start of a page.
pub proof fn lemma_live_word_aligned(s: &SlabAllocator, a: int)
    requires
        s.wf(),
        s.is_ready(),
        s.is_live(a),
    ensures
        a % 8 == 0,
{
    if s.is_live_block(a) {
        let p = a / PAGE_SIZE as int;
        let off = a % PAGE_SIZE as int;
        lemma_free_offset(s, p);
        let k = s.classes@[p];
        lemma_class_facts(k);
        let c = class_block_size(k);
        assert(off % 8 == 0) by (nonlinear_arith)
            requires
                off % c == 0,
                c % 8 == 0,
                c > 0,
                off >= 0,
        {
            let q = off / c;
            let d = c / 8;
            assert(off == c * q);
            assert(c == 8 * d);
            assert(off == 8 * (d * q));
        }
    }
}

/// The word that block `i` of a freshly laid out page of class `k` holds:
/// the offset of the next block, or `usize::MAX` for the last one.
pub open spec fn fresh_link(k: int, i: int) -> int {
    if i + 1 < class_block_count(k) {
        (i + 1) * class_block_size(k)
    } else {
        usize::MAX as int
    }
}

impl SlabAllocator {
    /// The words of page `p` that lie outside the byte range `lo..hi` of
    /// the pages keep their values from `old`.
    pub closed spec fn memory_same_outside(&self, old: &SlabAllocator, lo: int, hi: int) -> bool {
        &&& self.memory@.len() == old.memory@.len()
        &&& forall|b: int|
            0 <= b && b + 8 <= old.memory@.len() && (b + 8 <= lo || hi <= b) ==> #[trigger] self.memory.word_at(b)
                == old.memory.word_at(b)
    }

    /// Takes the first free page for blocks of size class `k` and lays it
    /// out: every block is free and holds the offset of the next block.
    fn request_block_page(&mut self, block_size: usize, Ghost(k): Ghost<int>) -> (page: usize)
        requires
            old(self).wf(),
            old(self).is_ready(),
            old(self).has_free_page(),
            3 <= k < SIZE_CLASSES,
            block_size == class_block_size(k),
        ensures
            final(self).inv(page as int),
            final(self).is_ready(),
            page == old(self).first_free_page(),
            0 <= page < old(self).page_count(),
            final(self).page_types@ == old(self).page_types@.update(page as int, 1),
            final(self).next_pages@ == old(self).next_pages@.update(page as int, 0),
            final(self).free_block_offsets@ == old(self).free_block_offsets@.update(page as int, 0),
            final(self).first_block_pages == old(self).first_block_pages,
            final(self).blocks_allocated == old(self).blocks_allocated,
            final(self).total_pages == old(self).total_pages,
            final(self).free_lists@ == old(self).free_lists@.insert(page as int, fresh_free_list(k)),
            final(self).classes@ == old(self).classes@.insert(page as int, k),
            final(self).chains == old(self).chains,
            final(self).runs == old(self).runs,
            forall|i: int|
                0 <= i < class_block_count(k) ==> #[trigger] final(self).memory.word_at(
                    page * PAGE_SIZE + i * class_block_size(k),
                ) == fresh_link(k, i),
            final(self).memory_same_outside(old(self), page * PAGE_SIZE, (page + 1) * PAGE_SIZE),
            final(self).fresh_block_page_of(old(self), page as int, k),
    {
        proof {
            lemma_class_facts(k);
            lemma_stored_types(self);
        }
        let requested_page = self.request_page(PageType::Blocks);
        proof {
            assert(requested_page * PAGE_SIZE + PAGE_SIZE <= self.total_pages * PAGE_SIZE) by (nonlinear_arith)
                requires
                    requested_page < self.total_pages,
            ;
        }
        let total_blocks = PAGE_SIZE / block_size;
        write_fresh_links(&mut self.memory, page_start(requested_page), block_size, Ghost(k));
        self.free_block_offsets.set(requested_page, 0);
        self.next_pages.set(requested_page, 0);
        self.free_lists = Ghost(self.free_lists@.insert(requested_page as int, fresh_free_list(k)));
        self.classes = Ghost(self.classes@.insert(requested_page as int, k));
        proof {
            lemma_after_request_block_page(old(self), self, requested_page as int, k);
        }
        requested_page
    }
}

impl SlabAllocator {
    /// `self` is `old` with its free page `r` taken for blocks of size class
    /// `k` and laid out, not yet linked into its chain.
    pub closed spec fn fresh_block_page_of(&self, old: &SlabAllocator, r: int, k: int) -> bool {
        &&& old.wf()
        &&& old.ready
        &&& 3 <= k < SIZE_CLASSES
        &&& 0 <= r < old.total_pages
        &&& old.page_type(r) == PageType::Free
        &&& self.ready
        &&& self.total_pages == old.total_pages
        &&& self.page_types@ == old.page_types@.update(r, 1)
        &&& self.next_pages@ == old.next_pages@.update(r, 0)
        &&& self.free_block_offsets@ == old.free_block_offsets@.update(r, 0)
        &&& self.first_block_pages == old.first_block_pages
        &&& self.blocks_allocated == old.blocks_allocated
        &&& self.free_lists@ == old.free_lists@.insert(r, fresh_free_list(k))
        &&& self.classes@ == old.classes@.insert(r, k)
        &&& self.chains == old.chains
        &&& self.runs == old.runs
        &&& forall|i: int|
            0 <= i < class_block_count(k) ==> #[trigger] self.memory.word_at(r * PAGE_SIZE + i * class_block_size(k))
                == fresh_link(k, i)
        &&& self.memory_same_outside(old, r * PAGE_SIZE, (r + 1) * PAGE_SIZE)
    }
}

/// Laying out a fresh block page keeps the invariant, with the page not
/// yet linked into its chain.
proof fn lemma_after_request_block_page(old_s: &SlabAllocator, s: &SlabAllocator, r: int, k: int)
    requires
        s.fresh_block_page_of(old_s, r, k),
    ensures
        s.inv(r),
{
    lemma_fresh_types(old_s, s, r, k);
    lemma_fresh_block_pages(old_s, s, r, k);
    lemma_fresh_chains(old_s, s, r, k);
    lemma_fresh_multipage(old_s, s, r, k);
    assert(s.inv_sizes());
}

#[verifier::spinoff_prover]
proof fn lemma_fresh_types(old_s: &SlabAllocator, s: &SlabAllocator, r: int, k: int)
    requires
        s.fresh_block_page_of(old_s, r, k),
    ensures
        s.inv_types(),
{
    reveal(SlabAllocator::inv_types);
    assert forall|p: int| 0 <= p < s.total_pages implies #[trigger] s.page_types@[p] <= 2 by {
        if p != r {
            assert(old_s.page_types@[p] <= 2);
        }
    }
    assert forall|p: int| 0 <= p < s.total_pages implies (#[trigger] s.page_type(p) == PageType::Blocks)
        == s.classes@.contains_key(p) by {
        if p != r {
            assert(s.page_types@[p] == old_s.page_types@[p]);
            assert(old_s.page_type(p) == s.page_type(p));
        }
    }
    assert forall|p: int| 0 <= p < s.total_pages && #[trigger] s.page_type(p) != PageType::Blocks implies
        s.blocks_allocated@[p] == 0 by {
        assert(s.page_types@[p] == old_s.page_types@[p]);
        assert(old_s.page_type(p) == s.page_type(p));
    }
}

#[verifier::spinoff_prover]
proof fn lemma_fresh_multipage(old_s: &SlabAllocator, s: &SlabAllocator, r: int, k: int)
    requires
        s.fresh_block_page_of(old_s, r, k),
    ensures
        s.inv_multipage(),
{
    reveal(SlabAllocator::inv_multipage);
    assert forall|h: int| #[trigger] s.runs@.contains_key(h) implies s.run_ok(h) by {
        assert(old_s.run_ok(h));
        assert forall|q: int| h <= q < h + s.runs@[h] implies #[trigger] s.run_page_ok(h, q) by {
            assert(old_s.run_page_ok(h, q));
            assert(q != r);
            assert(s.page_types@[q] == old_s.page_types@[q]);
        }
    }
}

#[verifier::spinoff_prover]
proof fn lemma_fresh_block_pages(old_s: &SlabAllocator, s: &SlabAllocator, r: int, k: int)
    requires
        s.fresh_block_page_of(old_s, r, k),
    ensures
        s.inv_block_pages(),
{
    lemma_fresh_page_ok(old_s, s, r, k);
    lemma_fresh_other_pages_ok(old_s, s, r, k);
    reveal(SlabAllocator::inv_block_pages);
}

#[verifier::spinoff_prover]
proof fn lemma_fresh_page_ok(old_s: &SlabAllocator, s: &SlabAllocator, r: int, k: int)
    requires
        s.fresh_block_page_of(old_s, r, k),
    ensures
        s.block_page_ok(r),
{
    reveal(SlabAllocator::inv_types);
    lemma_class_facts(k);
    let f = fresh_free_list(k);
    let b = class_block_size(k);
    assert(s.free_lists@[r] == f);
    assert(s.classes@[r] == k);
    assert forall|i: int| 0 <= i < f.len() implies 0 <= #[trigger] f[i] < PAGE_SIZE && f[i] % b == 0 by {
        assert(i * b < class_block_count(k) * b) by (nonlinear_arith)
            requires
                i < class_block_count(k),
                b > 0,
        ;
        assert(0 <= i * b) by (nonlinear_arith)
            requires
                0 <= i,
                b > 0,
        ;
        assert((i * b) % b == 0) by (nonlinear_arith)
            requires
                b > 0,
        ;
    }
    assert forall|i: int, j: int| 0 <= i < j < f.len() implies #[trigger] f[i] != #[trigger] f[j] by {
        assert(i * b < j * b) by (nonlinear_arith)
            requires
                i < j,
                b > 0,
        ;
    }
    assert forall|i: int| 0 <= i < f.len() implies s.memory.word_at(r * PAGE_SIZE + #[trigger] f[i]) == if i + 1
        < f.len() {
        f[i + 1]
    } else {
        usize::MAX as int
    } by {
        assert(s.memory.word_at(r * PAGE_SIZE + i * b) == fresh_link(k, i));
    }
    assert(old_s.blocks_allocated@[r] == 0);
    assert(s.free_block_offsets@[r] == 0);
    assert(f[0] == 0);
}

#[verifier::spinoff_prover]
proof fn lemma_fresh_other_pages_ok(old_s: &SlabAllocator, s: &SlabAllocator, r: int, k: int)
    requires
        s.fresh_block_page_of(old_s, r, k),
    ensures
        forall|p: int| p != r && #[trigger] s.classes@.contains_key(p) ==> s.free_lists@.contains_key(p) && s.block_page_ok(p),
{
    reveal(SlabAllocator::inv_types);
    reveal(SlabAllocator::inv_block_pages);
    assert forall|p: int| p != r && #[trigger] s.classes@.contains_key(p) implies s.free_lists@.contains_key(p) && s.block_page_ok(p) by {
        assert(old_s.classes@.contains_key(p));
        assert(old_s.block_page_ok(p));
        let kp = old_s.classes@[p];
        let f = old_s.free_lists@[p];
        assert(s.free_lists@[p] == f);
        assert(s.classes@[p] == kp);
        assert(0 <= p < old_s.total_pages);
        assert forall|i: int| 0 <= i < f.len() implies s.memory.word_at(p * PAGE_SIZE + #[trigger] f[i]) == if i
            + 1 < f.len() {
            f[i + 1]
        } else {
            usize::MAX as int
        } by {
            lemma_block_in_page(kp, f[i]);
            lemma_pages_apart(p, r, f[i]);
            lemma_page_in_memory(p, old_s.total_pages as int);
        }
    }
}

#[verifier::spinoff_prover]
proof fn lemma_fresh_chains(old_s: &SlabAllocator, s: &SlabAllocator, r: int, k: int)
    requires
        s.fresh_block_page_of(old_s, r, k),
    ensures
        s.inv_chains(r),
{
    reveal(SlabAllocator::inv_chains);
    assert forall|kk: int| 0 <= kk < SIZE_CLASSES implies #[trigger] s.chain_ok(kk) by {
        assert(old_s.chain_ok(kk));
        let c = old_s.chains@[kk];
        assert forall|i: int| 0 <= i < c.len() implies c[i] != r by {
            assert(old_s.page_type(c[i]) == PageType::Blocks);
        }
        assert forall|i: int| 0 <= i < c.len() implies s.page_type(#[trigger] c[i]) == PageType::Blocks by {
            assert(c[i] != r);
            assert(s.page_types@[c[i]] == old_s.page_types@[c[i]]);
        }
    }
    assert forall|p: int| 0 < p && p != r && #[trigger] s.classes@.contains_key(p) implies s.chained(p) by {
        assert(old_s.classes@.contains_key(p));
        assert(old_s.chained(p));
        let i = choose|i: int| 0 <= i < old_s.chains@[old_s.classes@[p]].len() && #[trigger] old_s.chains@[old_s.classes@[p]][i] == p;
        assert(s.chains@[s.classes@[p]][i] == p);
    }
    assert forall|p: int| (p == 0 || p == r) && #[trigger] s.classes@.contains_key(p) implies s.next_pages@[p] == 0 by {
        if p != r {
            assert(old_s.classes@.contains_key(p));
        }
    }
    assert(!s.chained(r)) by {
        if s.chained(r) {
            let i = choose|i: int| 0 <= i < s.chains@[s.classes@[r]].len() && #[trigger] s.chains@[s.classes@[r]][i] == r;
            assert(old_s.chain_ok(k));
            assert(old_s.page_type(old_s.chains@[k][i]) == PageType::Blocks);
        }
    }
}

/// A page lies inside the memory of the pages.
proof fn lemma_page_in_memory(p: int, total: int)
    requires
        0 <= p < total,
    ensures
        0 <= p * PAGE_SIZE,
        p * PAGE_SIZE + PAGE_SIZE <= total * PAGE_SIZE,
{
    assert(0 <= p * PAGE_SIZE) by (nonlinear_arith)
        requires
            0 <= p,
    ;
    assert(p * PAGE_SIZE + PAGE_SIZE <= total * PAGE_SIZE) by (nonlinear_arith)
        requires
            p < total,
    ;
}

/// Bytes of different pages are apart: a word that starts in page `p`
/// with room before the page ends lies outside page `r`.
proof fn lemma_pages_apart(p: int, r: int, off: int)
    requires
        p != r,
        0 <= off,
        off + 8 <= PAGE_SIZE,
    ensures
        p * PAGE_SIZE + off + 8 <= r * PAGE_SIZE || (r + 1) * PAGE_SIZE <= p * PAGE_SIZE + off,
{
    if p < r {
        assert((p + 1) * PAGE_SIZE <= r * PAGE_SIZE) by (nonlinear_arith)
            requires
                p + 1 <= r,
        ;
    } else {
        assert((r + 1) * PAGE_SIZE <= p * PAGE_SIZE) by (nonlinear_arith)
            requires
                r + 1 <= p,
        ;
    }
}

/// Links the blocks of a fresh page: the first word of each block holds
/// the offset of the next block, the last one `usize::MAX`.
fn write_fresh_links(memory: &mut ByteMemory, base: usize, block_size: usize, Ghost(k): Ghost<int>)
    requires
        3 <= k < SIZE_CLASSES,
        block_size == class_block_size(k),
        base + PAGE_SIZE <= old(memory)@.len(),
        old(memory)@.len() <= usize::MAX,
    ensures
        final(memory)@.len() == old(memory)@.len(),
        forall|i: int|
            0 <= i < class_block_count(k) ==> #[trigger] final(memory).word_at(base + i * class_block_size(k))
                == fresh_link(k, i),
        forall|b: int|
            0 <= b && b + 8 <= old(memory)@.len() && (b + 8 <= base || base + PAGE_SIZE <= b)
                ==> #[trigger] final(memory).word_at(b) == old(memory).word_at(b),
{
    proof {
        lemma_class_facts(k);
    }
    let ghost mem0 = *memory;
    let mut ptr = base;
    let total_blocks = PAGE_SIZE / block_size;
    let mut i: usize = 0;
    while i < total_blocks
        invariant
            total_blocks == class_block_count(k),
            block_size == class_block_size(k),
            8 <= block_size,
            total_blocks * block_size == PAGE_SIZE,
            base + PAGE_SIZE <= memory@.len(),
            memory@.len() == mem0@.len(),
            mem0@.len() <= usize::MAX,
            0 <= i <= total_blocks,
            ptr == base + i * block_size,
            forall|j: int| 0 <= j < i ==> #[trigger] memory.word_at(base + j * block_size) == fresh_link(k, j),
            forall|b: int|
                0 <= b && b + 8 <= mem0@.len() && (b + 8 <= base || base + i * block_size <= b)
                    ==> #[trigger] memory.word_at(b) == mem0.word_at(b),
        decreases total_blocks - i,
    {
        proof {
            assert((i + 1) * block_size <= total_blocks * block_size) by (nonlinear_arith)
                requires
                    i + 1 <= total_blocks,
                    block_size >= 0,
            ;
            assert((i + 1) * block_size == i * block_size + block_size) by (nonlinear_arith);
        }
        let value = if i == total_blocks - 1 {
            usize::MAX
        } else {
            (i + 1) * block_size
        };
        let ghost before = *memory;
        memory.write_word(ptr, value);
        proof {
            assert forall|j: int| 0 <= j < i + 1 implies #[trigger] memory.word_at(base + j * block_size) == fresh_link(k, j) by {
                if j < i {
                    assert((j + 1) * block_size <= i * block_size) by (nonlinear_arith)
                        requires
                            j + 1 <= i,
                            block_size >= 0,
                    ;
                    assert((j + 1) * block_size == j * block_size + block_size) by (nonlinear_arith);
                    assert(0 <= j * block_size) by (nonlinear_arith)
                        requires
                            0 <= j,
                            block_size >= 0,
                    ;
                    assert(memory.word_at(base + j * block_size) == before.word_at(base + j * block_size));
                }
            }
        }
        ptr = ptr + block_size;
        i = i + 1;
    }
}


impl SlabAllocator {
    /// Page `p` is cut into blocks.
    pub closed spec fn is_block_page(&self, p: int) -> bool {
        self.classes@.contains_key(p)
    }

    /// Some page of the chain of size class `k` has a free block.
    pub open spec fn has_open_page(&self, k: int) -> bool {
        exists|i: int| 0 <= i < self.chain(k).len() && #[trigger] self.free_list(self.chain(k)[i]).len() > 0
    }

    /// Where in the chain of size class `k` its first page with a free
    /// block stands.
    pub open spec fn first_open_index(&self, k: int) -> int {
        choose|i: int|
            0 <= i < self.chain(k).len() && self.free_list(self.chain(k)[i]).len() > 0 && forall|j: int|
                0 <= j < i ==> #[trigger] self.free_list(self.chain(k)[j]).len() == 0
    }

    /// The page that the next block of size class `k` comes from: the
    /// first page of its chain with a free block, or else the first free
    /// page.
    pub open spec fn block_source(&self, k: int) -> int {
        if self.has_open_page(k) {
            self.chain(k)[self.first_open_index(k)]
        } else {
            self.first_free_page()
        }
    }

    /// A block of size class `k` can be handed out.
    pub open spec fn can_alloc_block(&self, k: int) -> bool {
        self.has_open_page(k) || self.has_free_page()
    }

    /// The block at `a` is handed out: it is a block of a block page and
    /// is not on the free list of its page.
    pub open spec fn is_live_block(&self, a: int) -> bool {
        let p = a / PAGE_SIZE as int;
        let off = a % PAGE_SIZE as int;
        &&& 0 <= a < self.page_count() * PAGE_SIZE
        &&& self.is_block_page(p)
        &&& off % class_block_size(self.class_of(p)) == 0
        &&& !self.free_list(p).contains(off)
    }

    /// The run of pages that starts at `a` is handed out.
    pub open spec fn is_live_run(&self, a: int) -> bool {
        &&& 0 <= a
        &&& a % PAGE_SIZE as int == 0
        &&& self.runs().contains_key(a / PAGE_SIZE as int)
    }

    /// The memory at `a` is handed out.
    pub open spec fn is_live(&self, a: int) -> bool {
        self.is_live_block(a) || self.is_live_run(a)
    }

    /// The number of bytes handed out at `a`.
    pub open spec fn extent(&self, a: int) -> int {
        if self.is_live_block(a) {
            class_block_size(self.class_of(a / PAGE_SIZE as int))
        } else {
            self.runs()[a / PAGE_SIZE as int] * PAGE_SIZE
        }
    }

    /// `self` is `old` after page `page` was made ready to hand out a block
    /// of size class `k`: taken from the chain as it was, or laid out fresh
    /// and added to the chain.
    pub closed spec fn grants_block_page(&self, old: &SlabAllocator, page: int, k: int) -> bool {
        &&& 0 <= page < self.total_pages
        &&& self.total_pages == old.total_pages
        &&& self.classes@ == old.classes@.insert(page, k)
        &&& self.free_lists@ == old.free_lists@.insert(page, self.free_lists@[page])
        &&& self.free_lists@[page] == if old.has_open_page(k) {
            old.free_lists@[page]
        } else {
            fresh_free_list(k)
        }
        &&& self.free_lists@[page].len() > 0
        &&& self.runs == old.runs
        &&& self.chains@ == if old.has_open_page(k) || page == 0 {
            old.chains@
        } else {
            old.chains@.update(k, old.chains@[k].push(page))
        }
        &&& self.blocks_allocated == old.blocks_allocated
        &&& self.memory_same_outside(old, page * PAGE_SIZE, (page + 1) * PAGE_SIZE)
        &&& old.has_open_page(k) ==> self.memory == old.memory
        &&& !old.has_open_page(k) ==> old.page_type(page) == PageType::Free
        &&& forall|a: int| #[trigger] self.is_live(a) == old.is_live(a)
    }

    /// Whether page `page` has a free block.
    fn has_free_blocks(&self, page: usize) -> (r: bool)
        requires
            page < self.free_block_offsets@.len(),
        ensures
            r == (self.free_block_offsets@[page as int] != usize::MAX),
    {
        self.free_block_offsets[page] != usize::MAX
    }

    /// Links page `page_index` to page `next_page_index`.
    fn set_next_page(&mut self, page_index: usize, next_page_index: usize)
        requires
            page_index < old(self).next_pages@.len(),
            page_index != next_page_index,
        ensures
            final(self).next_pages@ == old(self).next_pages@.update(page_index as int, next_page_index),
            final(self).page_types == old(self).page_types,
            final(self).free_block_offsets == old(self).free_block_offsets,
            final(self).first_block_pages == old(self).first_block_pages,
            final(self).blocks_allocated == old(self).blocks_allocated,
            final(self).memory == old(self).memory,
            final(self).total_pages == old(self).total_pages,
            final(self).ready == old(self).ready,
            final(self).free_lists == old(self).free_lists,
            final(self).classes == old(self).classes,
            final(self).chains == old(self).chains,
            final(self).runs == old(self).runs,
    {
        self.next_pages.set(page_index, next_page_index);
    }
}

/// A page with no block page pending is a sound state.
proof fn lemma_pending_zero(s: &SlabAllocator)
    requires
        s.inv(0),
    ensures
        s.inv(-1),
{
    reveal(SlabAllocator::inv_chains);
    if s.ready {
        assert(s.inv_chains(0));
        assert forall|p: int| 0 < p && p != -1 && #[trigger] s.classes@.contains_key(p) implies s.chained(p) by {
            assert(0 < p && p != 0 && s.classes@.contains_key(p));
        }
        assert forall|p: int| (p == 0 || p == -1) && #[trigger] s.classes@.contains_key(p) implies s.next_pages@[p]
            == 0 by {
            reveal(SlabAllocator::inv_types);
        }
        assert(s.inv_chains(-1));
    }
}

/// On a block page, the stored free offset is `usize::MAX` exactly when
/// the free list is empty.
proof fn lemma_free_offset(s: &SlabAllocator, p: int)
    requires
        s.wf(),
        s.ready,
        s.classes@.contains_key(p),
    ensures
        0 <= p < s.total_pages,
        s.block_page_ok(p),
        s.free_lists@.contains_key(p),
        (s.free_block_offsets@[p] != usize::MAX) == (s.free_lists@[p].len() > 0),
{
    reveal(SlabAllocator::inv_types);
    reveal(SlabAllocator::inv_block_pages);
    let k = s.classes@[p];
    if s.free_lists@[p].len() > 0 {
        assert(s.free_lists@[p][0] < PAGE_SIZE);
    }
}

/// Pages of a chain are block pages of its class.
proof fn lemma_chain_page(s: &SlabAllocator, k: int, i: int)
    requires
        s.wf(),
        s.ready,
        0 <= k < SIZE_CLASSES,
        0 <= i < s.chains@[k].len(),
    ensures
        s.chain_ok(k),
        s.classes@.contains_key(s.chains@[k][i]),
        s.classes@[s.chains@[k][i]] == k,
        0 < s.chains@[k][i] < s.total_pages,
        s.next_pages@[s.chains@[k][i]] == if i + 1 < s.chains@[k].len() {
            s.chains@[k][i + 1]
        } else {
            0
        },
{
    reveal(SlabAllocator::inv_types);
    reveal(SlabAllocator::inv_chains);
    assert(s.chain_ok(k));
    assert(s.page_type(s.chains@[k][i]) == PageType::Blocks);
}

/// The first page with a free block is the one before which no page of
/// the chain has one.
proof fn lemma_first_open(s: &SlabAllocator, k: int, i: int)
    requires
        0 <= i < s.chain(k).len(),
        s.free_list(s.chain(k)[i]).len() > 0,
        forall|j: int| 0 <= j < i ==> #[trigger] s.free_list(s.chain(k)[j]).len() == 0,
    ensures
        s.has_open_page(k),
        s.first_open_index(k) == i,
        s.block_source(k) == s.chain(k)[i],
{
    let f = s.first_open_index(k);
    if f < i {
        assert(s.free_list(s.chain(k)[f]).len() == 0);
    } else if i < f {
        assert(s.free_list(s.chain(k)[i]).len() == 0);
    }
}

/// Every block of a fresh page is on its free list.
proof fn lemma_fresh_contains(k: int, off: int)
    requires
        3 <= k < SIZE_CLASSES,
        0 <= off < PAGE_SIZE,
        off % class_block_size(k) == 0,
    ensures
        fresh_free_list(k).contains(off),
{
    lemma_class_facts(k);
    let b = class_block_size(k);
    let c = class_block_count(k);
    let i = off / b;
    assert(off == i * b && 0 <= i < c) by (nonlinear_arith)
        requires
            0 <= off < c * b,
            off % b == 0,
            b > 0,
            i == off / b,
    {
        assert(off == b * (off / b) + off % b);
        if i >= c {
            assert(i * b >= c * b);
        }
    }
    assert(fresh_free_list(k)[i] == off);
}

/// Laying out a fresh block page hands out nothing.
#[verifier::spinoff_prover]
proof fn lemma_fresh_live(old_s: &SlabAllocator, s: &SlabAllocator, r: int, k: int)
    requires
        s.fresh_block_page_of(old_s, r, k),
    ensures
        forall|a: int| #[trigger] s.is_live(a) == old_s.is_live(a),
{
    reveal(SlabAllocator::inv_types);
    assert forall|a: int| #[trigger] s.is_live(a) == old_s.is_live(a) by {
        let p = a / PAGE_SIZE as int;
        if p == r {
            assert(!old_s.classes@.contains_key(r));
            if s.is_live_block(a) {
                lemma_fresh_contains(k, a % PAGE_SIZE as int);
            }
        }
    }
}


impl SlabAllocator {
    /// `self` is `mid` with its pending block page `r` of size class `k`
    /// added at the end of the chain of `k`.
    pub closed spec fn attached_of(&self, mid: &SlabAllocator, r: int, k: int) -> bool {
        &&& mid.inv(r)
        &&& mid.ready
        &&& 3 <= k < SIZE_CLASSES
        &&& r > 0
        &&& mid.classes@.contains_key(r)
        &&& mid.classes@[r] == k
        &&& self.ready
        &&& self.total_pages == mid.total_pages
        &&& self.page_types == mid.page_types
        &&& self.free_block_offsets == mid.free_block_offsets
        &&& self.blocks_allocated == mid.blocks_allocated
        &&& self.memory == mid.memory
        &&& self.free_lists == mid.free_lists
        &&& self.classes == mid.classes
        &&& self.runs == mid.runs
        &&& self.chains@ == mid.chains@.update(k, mid.chains@[k].push(r))
        &&& if mid.chains@[k].len() == 0 {
            &&& self.first_block_pages@ == mid.first_block_pages@.update(k, r as usize)
            &&& self.next_pages == mid.next_pages
        } else {
            &&& self.first_block_pages == mid.first_block_pages
            &&& self.next_pages@ == mid.next_pages@.update(mid.chains@[k].last(), r as usize)
        }
    }
}

/// Adding the pending block page to the end of its chain restores the
/// invariant.
proof fn lemma_attach(mid: &SlabAllocator, s: &SlabAllocator, r: int, k: int)
    requires
        s.attached_of(mid, r, k),
    ensures
        s.inv(-1),
{
    lemma_attach_types(mid, s, r, k);
    lemma_attach_block_pages(mid, s, r, k);
    lemma_attach_multipage(mid, s, r, k);
    lemma_attach_chains(mid, s, r, k);
    assert(mid.inv_sizes());
    if mid.chains@[k].len() > 0 {
        assert(mid.chain_ok(k)) by {
            reveal(SlabAllocator::inv_chains);
        }
        assert(mid.chains@[k][mid.chains@[k].len() - 1] < mid.total_pages);
    }
    assert(s.first_block_pages@.len() == mid.first_block_pages@.len());
    assert(s.next_pages@.len() == mid.next_pages@.len());
    assert(s.inv_sizes());
}

proof fn lemma_attach_types(mid: &SlabAllocator, s: &SlabAllocator, r: int, k: int)
    requires
        s.attached_of(mid, r, k),
    ensures
        s.inv_types(),
{
    reveal(SlabAllocator::inv_types);
    assert forall|p: int| 0 <= p < s.total_pages implies #[trigger] s.page_type(p) == mid.page_type(p) by {}
}

proof fn lemma_attach_block_pages(mid: &SlabAllocator, s: &SlabAllocator, r: int, k: int)
    requires
        s.attached_of(mid, r, k),
    ensures
        s.inv_block_pages(),
{
    reveal(SlabAllocator::inv_block_pages);
    assert forall|p: int| #[trigger] s.classes@.contains_key(p) implies s.free_lists@.contains_key(p)
        && s.block_page_ok(p) by {
        assert(mid.block_page_ok(p));
    }
}

#[verifier::spinoff_prover]
proof fn lemma_attach_multipage(mid: &SlabAllocator, s: &SlabAllocator, r: int, k: int)
    requires
        s.attached_of(mid, r, k),
    ensures
        s.inv_multipage(),
{
    reveal(SlabAllocator::inv_multipage);
    if mid.chains@[k].len() > 0 {
        let t = mid.chains@[k].last();
        assert(mid.chain_ok(k)) by {
            reveal(SlabAllocator::inv_chains);
        }
        assert(mid.page_type(t) == PageType::Blocks);
        assert forall|h: int| #[trigger] s.runs@.contains_key(h) implies s.run_ok(h) by {
            assert(mid.run_ok(h));
            assert forall|q: int| h <= q < h + s.runs@[h] implies #[trigger] s.run_page_ok(h, q) by {
                assert(mid.run_page_ok(h, q));
                assert(q != t);
            }
        }
    } else {
        assert forall|h: int| #[trigger] s.runs@.contains_key(h) implies s.run_ok(h) by {
            assert(mid.run_ok(h));
            assert forall|q: int| h <= q < h + s.runs@[h] implies #[trigger] s.run_page_ok(h, q) by {
                assert(mid.run_page_ok(h, q));
            }
        }
    }
}

#[verifier::spinoff_prover]
proof fn lemma_attach_chains(mid: &SlabAllocator, s: &SlabAllocator, r: int, k: int)
    requires
        s.attached_of(mid, r, k),
    ensures
        s.inv_chains(-1),
{
    reveal(SlabAllocator::inv_chains);
    reveal(SlabAllocator::inv_types);
    let c = mid.chains@[k];
    let nc = c.push(r);
    assert(mid.chain_ok(k));
    assert(!mid.chained(r));
    assert forall|i: int| 0 <= i < c.len() implies #[trigger] c[i] != r by {
        if c[i] == r {
            assert(mid.chains@[mid.classes@[r]][i] == r);
        }
    }
    assert(s.chain_ok(k)) by {
        assert forall|i: int| 0 <= i < nc.len() implies {
            &&& 0 < #[trigger] nc[i] < s.total_pages
            &&& s.page_type(nc[i]) == PageType::Blocks
            &&& s.classes@[nc[i]] == k
            &&& s.next_pages@[nc[i]] == if i + 1 < nc.len() {
                nc[i + 1]
            } else {
                0
            }
        } by {
            if i < c.len() {
                assert(nc[i] == c[i]);
                if i + 1 < c.len() {
                    assert(c[i] != c.last());
                }
            } else {
                assert(nc[i] == r);
                assert(mid.page_type(r) == PageType::Blocks);
                if c.len() > 0 {
                    assert(c.last() != r);
                }
            }
        }
    }
    assert forall|kk: int| 0 <= kk < SIZE_CLASSES implies #[trigger] s.chain_ok(kk) by {
        if kk != k {
            assert(mid.chain_ok(kk));
            let d = mid.chains@[kk];
            assert(s.chains@[kk] == d);
            assert forall|i: int| 0 <= i < d.len() implies s.next_pages@[#[trigger] d[i]] == mid.next_pages@[d[i]] by {
                if c.len() > 0 {
                    assert(mid.classes@[d[i]] == kk);
                    assert(mid.classes@[c.last()] == k);
                }
            }
        }
    }
    assert forall|p: int| 0 < p && p != -1 && #[trigger] s.classes@.contains_key(p) implies s.chained(p) by {
        if p == r {
            assert(s.chains@[s.classes@[p]][c.len() as int] == p);
        } else {
            assert(mid.chained(p));
            assert(mid.block_page_ok(p)) by {
                reveal(SlabAllocator::inv_block_pages);
            }
            let kp = mid.classes@[p];
            let i = choose|i: int| 0 <= i < mid.chains@[kp].len() && #[trigger] mid.chains@[kp][i] == p;
            assert(s.chains@[kp][i] == p);
        }
    }
    assert forall|p: int| (p == 0 || p == -1) && #[trigger] s.classes@.contains_key(p) implies s.next_pages@[p]
        == 0 by {
        assert(p == 0);
        if c.len() > 0 {
            assert(c.last() != 0);
        }
    }
}


/// The exponent of a power of two is its `log2_ceil`.
pub proof fn lemma_log2_of_pow2(k: nat, log2: nat)
    requires
        pow2(k) <= pow2(log2),
        log2 > 0 ==> pow2((log2 - 1) as nat) < pow2(k),
    ensures
        log2 == k,
{
    if log2 < k {
        vstd::arithmetic::power2::lemma_pow2_strictly_increases(log2, k);
    } else if log2 > k {
        if (log2 - 1) as nat > k {
            vstd::arithmetic::power2::lemma_pow2_strictly_increases(k, (log2 - 1) as nat);
        }
    }
}

impl SlabAllocator {
    /// Finds, from page `page` on along the chain of size class `k`, the
    /// first page with a free block; where there is none, lays out a fresh
    /// page and adds it to the end of the chain. The walk starts at the
    /// head of the chain, or further along it once the pages before have
    /// been found full.
    fn page_with_free_blocks(
        &mut self,
        page: usize,
        block_size: usize,
        Ghost(k): Ghost<int>,
        Ghost(start): Ghost<int>,
    ) -> (r: usize)
        requires
            old(self).wf(),
            old(self).is_ready(),
            3 <= k < SIZE_CLASSES,
            block_size == class_block_size(k),
            0 <= start < old(self).chain(k).len(),
            page == old(self).chain(k)[start],
            forall|j: int| 0 <= j < start ==> #[trigger] old(self).free_list(old(self).chain(k)[j]).len() == 0,
            old(self).can_alloc_block(k),
        ensures
            final(self).wf(),
            final(self).is_ready(),
            r == old(self).block_source(k),
            final(self).grants_block_page(old(self), r as int, k),
    {
        let mut page = page;
        let ghost mut i: int = start;
        loop
            invariant
                *self == *old(self),
                self.wf(),
                self.is_ready(),
                3 <= k < SIZE_CLASSES,
                block_size == class_block_size(k),
                0 <= i < self.chain(k).len(),
                page == self.chain(k)[i],
                forall|j: int| 0 <= j < i ==> #[trigger] self.free_list(self.chain(k)[j]).len() == 0,
                self.can_alloc_block(k),
            decreases self.chain(k).len() - i,
        {
            proof {
                lemma_chain_page(self, k, i);
                lemma_free_offset(self, page as int);
            }
            if self.has_free_blocks(page) {
                proof {
                    lemma_first_open(self, k, i);
                    assert(self.free_lists@ =~= self.free_lists@.insert(page as int, self.free_lists@[page as int]));
                    assert(self.classes@ =~= self.classes@.insert(page as int, k));
                }
                return page;
            }
            let next_page = self.next_pages[page];
            if next_page == 0 {
                proof {
                    assert(!self.has_open_page(k)) by {
                        if self.has_open_page(k) {
                            let w = choose|w: int|
                                0 <= w < self.chain(k).len() && #[trigger] self.free_list(self.chain(k)[w]).len() > 0;
                            assert(self.free_list(self.chain(k)[w]).len() == 0);
                        }
                    }
                }
                let requested = self.append_fresh_page(page, block_size, Ghost(k));
                return requested;
            }
            page = next_page;
            proof {
                i = i + 1;
            }
        }
    }

    /// Lays out the first free page for blocks of size class `k` and adds
    /// it after `tail`, the last page of the chain of `k`.
    #[verifier::spinoff_prover]
    #[verifier::rlimit(40)]
    fn append_fresh_page(&mut self, tail: usize, block_size: usize, Ghost(k): Ghost<int>) -> (r: usize)
        requires
            old(self).wf(),
            old(self).is_ready(),
            3 <= k < SIZE_CLASSES,
            block_size == class_block_size(k),
            old(self).chain(k).len() > 0,
            tail == old(self).chain(k).last(),
            !old(self).has_open_page(k),
            old(self).has_free_page(),
        ensures
            final(self).wf(),
            final(self).is_ready(),
            r == old(self).first_free_page(),
            final(self).grants_block_page(old(self), r as int, k),
    {
        proof {
            lemma_chain_page(self, k, self.chains@[k].len() - 1);
        }
        let requested = self.request_block_page(block_size, Ghost(k));
        let ghost mid = *self;
        proof {
            lemma_fresh_live(old(self), &mid, requested as int, k);
            lemma_class_facts(k);
        }
        if requested != 0 {
            self.set_next_page(tail, requested);
            self.chains = Ghost(self.chains@.update(k, self.chains@[k].push(requested as int)));
            proof {
                lemma_attach(&mid, self, requested as int, k);
            }
        } else {
            proof {
                lemma_pending_zero(self);
            }
        }
        proof {
            assert(self.free_lists@ == old(self).free_lists@.insert(requested as int, self.free_lists@[requested as int]));
            assert forall|a: int| #[trigger] self.is_live(a) == old(self).is_live(a) by {
                assert(self.is_live(a) == mid.is_live(a));
            }
        }
        requested
    }

    /// Finds the page that the next block of `block_size` bytes, a power of
    /// two of size class `k`, comes from.
    fn get_page_for_block_alloc(&mut self, block_size: usize, Ghost(k): Ghost<int>) -> (page: usize)
        requires
            old(self).wf(),
            old(self).is_ready(),
            3 <= k < SIZE_CLASSES,
            block_size == class_block_size(k),
            old(self).can_alloc_block(k),
        ensures
            final(self).wf(),
            final(self).is_ready(),
            page == old(self).block_source(k),
            final(self).grants_block_page(old(self), page as int, k),
    {
        proof {
            lemma_class_facts(k);
        }
        let class = log2_ceil(block_size);
        proof {
            lemma_log2_of_pow2(k as nat, class as nat);
            assert(self.chain_ok(k)) by {
                reveal(SlabAllocator::inv_chains);
            }
            assert(self.inv_sizes());
        }
        let first_page = self.first_block_pages[class];
        if first_page == 0 {
            proof {
                assert(self.chains@[k].len() == 0);
                assert(!self.has_open_page(k));
            }
            let requested = self.request_block_page(block_size, Ghost(k));
            let ghost mid = *self;
            proof {
                lemma_fresh_live(old(self), &mid, requested as int, k);
                lemma_class_facts(k);
            }
            if requested != 0 {
                self.first_block_pages.set(class, requested);
                self.chains = Ghost(self.chains@.update(k, self.chains@[k].push(requested as int)));
                proof {
                    lemma_attach(&mid, self, requested as int, k);
                }
            } else {
                proof {
                    lemma_pending_zero(self);
                }
            }
            proof {
                assert(self.free_lists@ == old(self).free_lists@.insert(requested as int, self.free_lists@[requested as int]));
                assert forall|a: int| #[trigger] self.is_live(a) == old(self).is_live(a) by {
                    assert(self.is_live(a) == mid.is_live(a));
                }
            }
            requested
        } else {
            self.page_with_free_blocks(first_page, block_size, Ghost(k), Ghost(0))
        }
    }
}


/// The address `p * PAGE_SIZE + off` with `off` below the page size lies
/// in page `p` at offset `off`.
pub proof fn lemma_page_split(p: int, off: int)
    requires
        0 <= off < PAGE_SIZE,
    ensures
        (p * PAGE_SIZE + off) / PAGE_SIZE as int == p,
        (p * PAGE_SIZE + off) % PAGE_SIZE as int == off,
{
    vstd::arithmetic::div_mod::lemma_fundamental_div_mod_converse_div(p * PAGE_SIZE + off, PAGE_SIZE as int, p, off);
    vstd::arithmetic::div_mod::lemma_fundamental_div_mod_converse_mod(p * PAGE_SIZE + off, PAGE_SIZE as int, p, off);
}

/// An address is its page's start plus its offset in the page.
pub proof fn lemma_page_join(a: int)
    ensures
        a == (a / PAGE_SIZE as int) * PAGE_SIZE + a % PAGE_SIZE as int,
        0 <= (a % PAGE_SIZE as int) < PAGE_SIZE,
{
    vstd::arithmetic::div_mod::lemma_fundamental_div_mod(a, PAGE_SIZE as int);
}

/// `2` to the power `exp`.
pub fn power_of_two(exp: usize) -> (r: usize)
    requires
        pow2(exp as nat) <= usize::MAX,
    ensures
        r == pow2(exp as nat),
{
    let mut r: usize = 1;
    let mut i: usize = 0;
    proof {
        vstd::arithmetic::power2::lemma2_to64();
    }
    while i < exp
        invariant
            0 <= i <= exp,
            r == pow2(i as nat),
            pow2(exp as nat) <= usize::MAX,
        decreases exp - i,
    {
        proof {
            lemma_pow2_unfold((i + 1) as nat);
            if i + 1 < exp {
                vstd::arithmetic::power2::lemma_pow2_strictly_increases((i + 1) as nat, exp as nat);
            }
        }
        r = r * 2;
        i = i + 1;
    }
    r
}

impl SlabAllocator {
    /// The address of the next block of size class `k`: the first free
    /// block of the page it comes from.
    pub open spec fn block_choice(&self, k: int) -> int {
        self.block_source(k) * PAGE_SIZE + if self.has_open_page(k) {
            self.free_list(self.block_source(k))[0]
        } else {
            0
        }
    }

    /// The free list of the page that the next block of size class `k`
    /// comes from, before the block is taken: a fresh page has every block
    /// free.
    pub open spec fn source_free_list(&self, k: int) -> Seq<int> {
        if self.has_open_page(k) {
            self.free_list(self.block_source(k))
        } else {
            fresh_free_list(k)
        }
    }

    /// The chain of size class `kk` once a block of size class `k` is
    /// handed out: a fresh page other than page 0 joins the end of its
    /// chain.
    pub open spec fn chain_after_block(&self, k: int, kk: int) -> Seq<int> {
        if kk == k && !self.has_open_page(k) && self.block_source(k) > 0 {
            self.chain(k).push(self.block_source(k))
        } else {
            self.chain(kk)
        }
    }

    /// `self` is `old` after a block of size class `k` was handed out from
    /// its source page: the first block left the page's free list, and no
    /// other page or run changed.
    pub open spec fn took_block(&self, old: &SlabAllocator, k: int) -> bool {
        let src = old.block_source(k);
        &&& self.is_block_page(src)
        &&& self.class_of(src) == k
        &&& self.free_list(src) == old.source_free_list(k).drop_first()
        &&& forall|p: int|
            p != src ==> #[trigger] self.free_list(p) == old.free_list(p) && self.is_block_page(p)
                == old.is_block_page(p)
        &&& forall|kk: int| 0 <= kk < SIZE_CLASSES ==> #[trigger] self.chain(kk) == old.chain_after_block(k, kk)
        &&& self.runs() == old.runs()
    }

    /// Every word inside memory that is handed out both in `old` and in
    /// `self` holds the same value in both.
    pub open spec fn keeps_contents(&self, old: &SlabAllocator) -> bool {
        forall|b: int, w: int|
            #![trigger old.is_live(b), self.memory_word(w)]
            old.is_live(b) && self.is_live(b) && b <= w && w + 8 <= b + old.extent(b) ==> self.memory_word(w)
                == old.memory_word(w)
    }

    /// `self` is `old` after the `n` pages from page `h` on were handed out
    /// as a run; no block page changed.
    pub open spec fn took_run(&self, old: &SlabAllocator, h: int, n: int) -> bool {
        &&& self.runs() == old.runs().insert(h, n)
        &&& forall|q: int| h <= q < h + n ==> #[trigger] self.page_type(q) == PageType::Multipage
        &&& forall|q: int|
            0 <= q < old.page_count() && !(h <= q < h + n) ==> #[trigger] self.page_type(q) == old.page_type(q)
        &&& forall|p: int|
            #[trigger] self.free_list(p) == old.free_list(p) && self.is_block_page(p) == old.is_block_page(p)
        &&& forall|kk: int| 0 <= kk < SIZE_CLASSES ==> #[trigger] self.chain(kk) == old.chain(kk)
    }

    /// `self` is `old` after the run from page `h` was given back: its pages
    /// are free; no block page changed.
    pub open spec fn gave_back_run(&self, old: &SlabAllocator, h: int) -> bool {
        &&& self.runs() == old.runs().remove(h)
        &&& forall|q: int| h <= q < h + old.runs()[h] ==> #[trigger] self.page_type(q) == PageType::Free
        &&& forall|q: int|
            0 <= q < old.page_count() && !(h <= q < h + old.runs()[h]) ==> #[trigger] self.page_type(q)
                == old.page_type(q)
        &&& forall|p: int|
            #[trigger] self.free_list(p) == old.free_list(p) && self.is_block_page(p) == old.is_block_page(p)
        &&& forall|kk: int| 0 <= kk < SIZE_CLASSES ==> #[trigger] self.chain(kk) == old.chain(kk)
    }

    /// `self` is `old` after the block at `addr` was given back: it went
    /// back on top of its page's free list, or, when it was the page's last
    /// block handed out, the page left its chain and became free.
    pub open spec fn gave_back_block(&self, old: &SlabAllocator, addr: int) -> bool {
        let p = addr / PAGE_SIZE as int;
        let off = addr % PAGE_SIZE as int;
        let k = old.class_of(p);
        let last = old.allocated_on(p) == 1;
        &&& !last ==> self.is_block_page(p) && self.class_of(p) == k && self.free_list(p) == seq![off].add(
            old.free_list(p),
        )
        &&& last ==> !self.is_block_page(p) && self.page_type(p) == PageType::Free
        &&& forall|q: int|
            q != p ==> #[trigger] self.free_list(q) == old.free_list(q) && self.is_block_page(q) == old.is_block_page(
                q,
            )
        &&& forall|kk: int|
            0 <= kk < SIZE_CLASSES ==> #[trigger] self.chain(kk) == if last && p > 0 && kk == k {
                old.chain(k).remove(old.chain_index(p))
            } else {
                old.chain(kk)
            }
        &&& self.runs() == old.runs()
    }

    /// `self` is `mid` with the first free block of page `p` handed out.
    pub closed spec fn popped_of(&self, mid: &SlabAllocator, p: int) -> bool {
        let f = mid.free_lists@[p];
        &&& mid.wf()
        &&& mid.ready
        &&& mid.classes@.contains_key(p)
        &&& f.len() > 0
        &&& self.ready
        &&& self.total_pages == mid.total_pages
        &&& self.page_types == mid.page_types
        &&& self.next_pages == mid.next_pages
        &&& self.first_block_pages == mid.first_block_pages
        &&& self.memory == mid.memory
        &&& self.classes == mid.classes
        &&& self.chains == mid.chains
        &&& self.runs == mid.runs
        &&& self.free_block_offsets@ == mid.free_block_offsets@.update(p, mid.memory.word_at(p * PAGE_SIZE + f[0]))
        &&& self.blocks_allocated@ == mid.blocks_allocated@.update(p, (mid.blocks_allocated@[p] + 1) as usize)
        &&& self.free_lists@ == mid.free_lists@.insert(p, f.drop_first())
    }

    /// Hands out a block that holds `block_size` bytes: the first free
    /// block of the first page of its size class that has one, or the
    /// first block of a fresh page.
    fn block_alloc(&mut self, block_size: usize) -> (addr: usize)
        requires
            old(self).wf(),
            old(self).is_ready(),
            1 <= block_size <= PAGE_SIZE / 2,
            old(self).can_alloc_block(class_for_size(block_size as int)),
        ensures
            final(self).wf(),
            final(self).is_ready(),
            final(self).page_count() == old(self).page_count(),
            final(self).runs() == old(self).runs(),
            addr == old(self).block_choice(class_for_size(block_size as int)),
            !old(self).is_live(addr as int),
            final(self).is_live_block(addr as int),
            final(self).extent(addr as int) == class_block_size(class_for_size(block_size as int)),
            forall|a: int| a != addr ==> #[trigger] final(self).is_live(a) == old(self).is_live(a),
            final(self).took_block(old(self), class_for_size(block_size as int)),
            final(self).keeps_contents(old(self)),
    {
        let ghost k = class_for_size(block_size as int);
        let exp = log2_ceil(block_size);
        proof {
            vstd::arithmetic::power2::lemma2_to64();
            lemma_bit_length_below((block_size - 1) as nat, 13);
            if exp < 13 {
                vstd::arithmetic::power2::lemma_pow2_strictly_increases(exp as nat, 13);
            }
        }
        let pow = power_of_two(exp);
        let block_size = if pow > word_size() {
            pow
        } else {
            word_size()
        };
        proof {
            if exp < 3 {
                if exp < 2 {
                    vstd::arithmetic::power2::lemma_pow2_strictly_increases(exp as nat, 3);
                } else {
                    assert(exp == 2);
                }
            } else if exp > 3 {
                vstd::arithmetic::power2::lemma_pow2_strictly_increases(3, exp as nat);
            }
            assert(block_size == class_block_size(k));
            lemma_class_facts(k);
        }
        let page = self.get_page_for_block_alloc(block_size, Ghost(k));
        let ghost mid = *self;
        proof {
            lemma_free_offset(self, page as int);
            lemma_page_in_memory(page as int, self.total_pages as int);
            lemma_block_in_page(k, self.free_lists@[page as int][0]);
        }
        let free_block = self.free_block_offsets[page];
        let block_ptr = page_start(page) + free_block;
        let next_free_block = self.memory.read_word(block_ptr);
        self.free_block_offsets.set(page, next_free_block);
        let total = self.blocks_allocated[page];
        self.blocks_allocated.set(page, total + 1);
        self.free_lists = Ghost(self.free_lists@.insert(page as int, self.free_lists@[page as int].drop_first()));
        proof {
            lemma_pop(&mid, self, page as int);
            lemma_page_split(page as int, free_block as int);
            lemma_block_choice(old(self), &mid, k, page as int);
            lemma_took_block(old(self), &mid, self, k, page as int);
            lemma_keeps_fresh(old(self), self, k, page as int);
        }
        block_ptr
    }
}

/// The block handed out is the first free block of the page granted.
proof fn lemma_block_choice(old_s: &SlabAllocator, mid: &SlabAllocator, k: int, page: int)
    requires
        mid.grants_block_page(old_s, page, k),
        page == old_s.block_source(k),
        3 <= k < SIZE_CLASSES,
    ensures
        old_s.block_choice(k) == page * PAGE_SIZE + mid.free_lists@[page][0],
{
    if !old_s.has_open_page(k) {
        assert(fresh_free_list(k)[0] == 0);
    }
}

/// A block page does not start a run.
proof fn lemma_block_page_not_run(s: &SlabAllocator, p: int)
    requires
        s.wf(),
        s.ready,
        s.classes@.contains_key(p),
    ensures
        !s.runs@.contains_key(p),
{
    reveal(SlabAllocator::inv_types);
    reveal(SlabAllocator::inv_multipage);
    if s.runs@.contains_key(p) {
        assert(s.run_ok(p));
        assert(s.run_page_ok(p, p));
    }
}

/// Granting a page and taking its first block is handing out a block.
proof fn lemma_took_block(old_s: &SlabAllocator, mid: &SlabAllocator, s: &SlabAllocator, k: int, page: int)
    requires
        mid.grants_block_page(old_s, page, k),
        page == old_s.block_source(k),
        3 <= k < SIZE_CLASSES,
        old_s.wf(),
        old_s.ready,
        s.popped_of(mid, page),
    ensures
        s.took_block(old_s, k),
{
    assert(old_s.inv_sizes());
    assert forall|kk: int| 0 <= kk < SIZE_CLASSES implies #[trigger] s.chain(kk) == old_s.chain_after_block(k, kk) by {}
    assert forall|p: int| p != page implies #[trigger] s.free_list(p) == old_s.free_list(p) && s.is_block_page(p)
        == old_s.is_block_page(p) by {}
}

/// Handing out the first free block of a page keeps the invariant, and
/// hands out that block and nothing else.
#[verifier::spinoff_prover]
proof fn lemma_pop(mid: &SlabAllocator, s: &SlabAllocator, p: int)
    requires
        s.popped_of(mid, p),
    ensures
        s.wf(),
        !mid.is_live(p * PAGE_SIZE + mid.free_lists@[p][0]),
        s.is_live_block(p * PAGE_SIZE + mid.free_lists@[p][0]),
        forall|a: int| a != p * PAGE_SIZE + mid.free_lists@[p][0] ==> #[trigger] s.is_live(a) == mid.is_live(a),
{
    let f = mid.free_lists@[p];
    let k = mid.classes@[p];
    lemma_free_offset(mid, p);
    lemma_block_page_not_run(mid, p);
    lemma_pop_types(mid, s, p);
    lemma_pop_block_pages(mid, s, p);
    lemma_pop_chains(mid, s, p);
    lemma_pop_multipage(mid, s, p);
    assert(mid.inv_sizes());
    assert(s.inv_sizes());
    let a0 = p * PAGE_SIZE + f[0];
    lemma_page_split(p, f[0]);
    lemma_page_in_memory(p, mid.total_pages as int);
    assert(mid.free_lists@[p].contains(f[0]));
    assert(!s.free_lists@[p].contains(f[0])) by {
        if s.free_lists@[p].contains(f[0]) {
            let j = choose|j: int| 0 <= j < f.drop_first().len() && f.drop_first()[j] == f[0];
            assert(f[j + 1] == f[0]);
        }
    }
    assert forall|a: int| a != a0 implies #[trigger] s.is_live(a) == mid.is_live(a) by {
        let q = a / PAGE_SIZE as int;
        let o = a % PAGE_SIZE as int;
        if q == p {
            lemma_page_join(a);
            assert(o != f[0]);
            assert(s.free_lists@[p].contains(o) == f.contains(o)) by {
                if f.contains(o) {
                    let j = choose|j: int| 0 <= j < f.len() && f[j] == o;
                    assert(j != 0);
                    assert(f.drop_first()[j - 1] == o);
                }
                if s.free_lists@[p].contains(o) {
                    let j = choose|j: int| 0 <= j < f.drop_first().len() && f.drop_first()[j] == o;
                    assert(f[j + 1] == o);
                }
            }
        }
    }
}

proof fn lemma_pop_types(mid: &SlabAllocator, s: &SlabAllocator, p: int)
    requires
        s.popped_of(mid, p),
    ensures
        s.inv_types(),
{
    reveal(SlabAllocator::inv_types);
    assert(mid.page_type(p) == PageType::Blocks);
    assert forall|q: int| 0 <= q < s.total_pages implies #[trigger] s.page_type(q) == mid.page_type(q) by {}
    assert forall|q: int| 0 <= q < s.total_pages && #[trigger] s.page_type(q) != PageType::Blocks implies
        s.blocks_allocated@[q] == 0 by {
        assert(q != p);
        assert(mid.page_type(q) == s.page_type(q));
    }
}

#[verifier::spinoff_prover]
proof fn lemma_pop_block_pages(mid: &SlabAllocator, s: &SlabAllocator, p: int)
    requires
        s.popped_of(mid, p),
    ensures
        s.inv_block_pages(),
{
    reveal(SlabAllocator::inv_block_pages);
    let f = mid.free_lists@[p];
    let g = f.drop_first();
    lemma_free_offset(mid, p);
    assert(mid.inv_sizes());
    lemma_class_facts(mid.classes@[p]);
    assert(mid.memory.word_at(p * PAGE_SIZE + f[0]) == if 1 < f.len() {
        f[1]
    } else {
        usize::MAX as int
    });
    assert(s.block_page_ok(p)) by {
        assert forall|i: int| 0 <= i < g.len() implies s.memory.word_at(p * PAGE_SIZE + #[trigger] g[i]) == if i + 1
            < g.len() {
            g[i + 1]
        } else {
            usize::MAX as int
        } by {
            assert(g[i] == f[i + 1]);
        }
        assert forall|i: int, j: int| 0 <= i < j < g.len() implies #[trigger] g[i] != #[trigger] g[j] by {
            assert(f[i + 1] != f[j + 1]);
        }
    }
    assert forall|q: int| #[trigger] s.classes@.contains_key(q) implies s.free_lists@.contains_key(q)
        && s.block_page_ok(q) by {
        if q != p {
            reveal(SlabAllocator::inv_types);
            assert(mid.block_page_ok(q));
            assert(0 <= q < mid.total_pages);
        }
    }
}

proof fn lemma_pop_chains(mid: &SlabAllocator, s: &SlabAllocator, p: int)
    requires
        s.popped_of(mid, p),
    ensures
        s.inv_chains(-1),
{
    reveal(SlabAllocator::inv_chains);
    assert forall|k: int| 0 <= k < SIZE_CLASSES implies #[trigger] s.chain_ok(k) by {
        assert(mid.chain_ok(k));
    }
    assert forall|q: int| 0 < q && q != -1 && #[trigger] s.classes@.contains_key(q) implies s.chained(q) by {
        assert(mid.chained(q));
    }
}

proof fn lemma_pop_multipage(mid: &SlabAllocator, s: &SlabAllocator, p: int)
    requires
        s.popped_of(mid, p),
    ensures
        s.inv_multipage(),
{
    reveal(SlabAllocator::inv_multipage);
    assert forall|h: int| #[trigger] s.runs@.contains_key(h) implies s.run_ok(h) by {
        assert(mid.run_ok(h));
        assert forall|q: int| h <= q < h + s.runs@[h] implies #[trigger] s.run_page_ok(h, q) by {
            assert(mid.run_page_ok(h, q));
        }
    }
}


impl SlabAllocator {
    /// Pages `a` up to `b`, `b` excluded, are all free.
    pub open spec fn free_span(&self, a: int, b: int) -> bool {
        &&& 0 <= a <= b <= self.page_count()
        &&& forall|q: int| a <= q < b ==> #[trigger] self.page_type(q) == PageType::Free
    }

    /// The `n + 1` pages from page `j` on are all free.
    pub open spec fn long_free_span_at(&self, j: int, n: int) -> bool {
        self.free_span(j, j + n + 1)
    }

    /// Some `n + 1` pages in a row are free.
    pub open spec fn has_long_free_span(&self, n: int) -> bool {
        exists|j: int| #[trigger] self.long_free_span_at(j, n)
    }

    /// The first page of the first `n + 1` free pages in a row.
    pub open spec fn first_long_free_span(&self, n: int) -> int {
        choose|j: int|
            self.long_free_span_at(j, n) && forall|j2: int| j2 < j ==> !#[trigger] self.long_free_span_at(j2, n)
    }

    /// The first page of the run that a request for `n` whole pages takes:
    /// the first of `n + 1` free pages in a row; where there are none, the
    /// last `n` pages when they are all free.
    pub open spec fn run_choice(&self, n: int) -> Option<int> {
        if self.has_long_free_span(n) {
            Some(self.first_long_free_span(n))
        } else if n <= self.page_count() && self.free_span(self.page_count() - n, self.page_count()) {
            Some(self.page_count() - n)
        } else {
            None
        }
    }

    /// Finds the first page of the run of `pages` free pages that a request
    /// for `pages` whole pages takes, scanning the pages in order.
    pub fn find_free_run(&self, pages: usize) -> (r: Option<usize>)
        requires
            self.wf(),
            self.is_ready(),
            pages >= 1,
        ensures
            match r {
                Some(j) => self.run_choice(pages as int) == Some(j as int) && self.free_span(j as int, j + pages),
                None => self.run_choice(pages as int) is None,
            },
    {
        proof {
            lemma_stored_types(self);
        }
        let mut first_free_page: Option<usize> = None;
        let mut i: usize = 0;
        while i < self.total_pages
            invariant
                self.wf(),
                self.is_ready(),
                self.page_types@.len() == self.total_pages,
                pages >= 1,
                0 <= i <= self.total_pages,
                match first_free_page {
                    None => i == 0 || self.page_type(i - 1) != PageType::Free,
                    Some(j) => j < i && i - j <= pages && self.free_span(j as int, i as int) && (j == 0
                        || self.page_type(j - 1) != PageType::Free),
                },
                forall|j2: int| #[trigger] self.long_free_span_at(j2, pages as int) ==> j2 + pages >= i,
            decreases self.total_pages - i,
        {
            if self.get_page_type(i) == PageType::Free {
                match first_free_page {
                    None => {
                        first_free_page = Some(i);
                    },
                    Some(j) => {
                        if i - j >= pages {
                            proof {
                                assert(self.long_free_span_at(j as int, pages as int));
                                lemma_first_long_span(self, j as int, pages as int);
                            }
                            return Some(j);
                        }
                    },
                }
            } else {
                first_free_page = None;
            }
            proof {
                assert forall|j2: int| #[trigger] self.long_free_span_at(j2, pages as int) implies j2 + pages >= i
                    + 1 by {
                    if j2 + pages == i {
                        assert(self.page_type(i as int) == PageType::Free);
                        assert(self.page_type(i - 1) == PageType::Free);
                        match first_free_page {
                            Some(j) => {
                                if j > j2 {
                                    assert(self.page_type(j - 1) == PageType::Free);
                                }
                            },
                            None => {},
                        }
                    }
                }
            }
            i = i + 1;
        }
        proof {
            assert(!self.has_long_free_span(pages as int)) by {
                if self.has_long_free_span(pages as int) {
                    let w = choose|w: int| #[trigger] self.long_free_span_at(w, pages as int);
                    assert(w + pages >= self.total_pages);
                }
            }
        }
        match first_free_page {
            Some(j) => {
                if self.total_pages - j >= pages {
                    proof {
                        assert(self.total_pages - j == pages);
                    }
                    Some(j)
                } else {
                    proof {
                        if self.free_span(self.total_pages - pages, self.total_pages as int) {
                            assert(self.page_type(j - 1) == PageType::Free);
                        }
                    }
                    None
                }
            },
            None => {
                proof {
                    if pages <= self.total_pages && self.free_span(self.total_pages - pages, self.total_pages as int) {
                        assert(self.page_type(self.total_pages - 1) == PageType::Free);
                    }
                }
                None
            },
        }
    }
}

/// A span of free pages with none before it is the first one.
proof fn lemma_first_long_span(s: &SlabAllocator, j: int, n: int)
    requires
        s.long_free_span_at(j, n),
        forall|j2: int| #[trigger] s.long_free_span_at(j2, n) ==> j2 + n >= j + n,
    ensures
        s.has_long_free_span(n),
        s.first_long_free_span(n) == j,
        s.run_choice(n) == Some(j),
{
    assert(forall|j2: int| j2 < j ==> !#[trigger] s.long_free_span_at(j2, n));
    let f = s.first_long_free_span(n);
    if f < j {
        assert(!s.long_free_span_at(f, n));
    } else if j < f {
        assert(!s.long_free_span_at(j, n));
    }
}


/// The link that page `q` of a run of `n` pages from page `h` holds.
pub open spec fn run_link(h: int, n: int, q: int) -> int {
    if q + 1 < h + n {
        q + 1
    } else {
        usize::MAX as int
    }
}

impl SlabAllocator {
    /// `self` is `old` with the `n` free pages from page `first` on handed
    /// out as one run.
    pub closed spec fn took_run_of(&self, old: &SlabAllocator, first: int, n: int) -> bool {
        &&& old.wf()
        &&& old.ready
        &&& n >= 1
        &&& old.free_span(first, first + n)
        &&& self.ready
        &&& self.total_pages == old.total_pages
        &&& self.memory == old.memory
        &&& self.classes == old.classes
        &&& self.free_lists == old.free_lists
        &&& self.chains == old.chains
        &&& self.free_block_offsets == old.free_block_offsets
        &&& self.first_block_pages == old.first_block_pages
        &&& self.blocks_allocated == old.blocks_allocated
        &&& self.runs@ == old.runs@.insert(first, n)
        &&& self.page_types@.len() == old.page_types@.len()
        &&& self.next_pages@.len() == old.next_pages@.len()
        &&& forall|q: int|
            0 <= q < old.total_pages ==> #[trigger] self.page_types@[q] == if first <= q < first + n {
                2
            } else {
                old.page_types@[q]
            }
        &&& forall|q: int|
            0 <= q < old.total_pages ==> #[trigger] self.next_pages@[q] == if first <= q < first + n {
                run_link(first, n, q)
            } else {
                old.next_pages@[q] as int
            }
    }

    /// `self` is `old` with the run from page `h` given back: its pages are
    /// free.
    pub closed spec fn freed_run_of(&self, old: &SlabAllocator, h: int) -> bool {
        let n = old.runs@[h];
        &&& old.wf()
        &&& old.ready
        &&& old.runs@.contains_key(h)
        &&& self.ready
        &&& self.total_pages == old.total_pages
        &&& self.memory == old.memory
        &&& self.classes == old.classes
        &&& self.free_lists == old.free_lists
        &&& self.chains == old.chains
        &&& self.free_block_offsets == old.free_block_offsets
        &&& self.first_block_pages == old.first_block_pages
        &&& self.blocks_allocated == old.blocks_allocated
        &&& self.next_pages == old.next_pages
        &&& self.runs@ == old.runs@.remove(h)
        &&& self.page_types@.len() == old.page_types@.len()
        &&& forall|q: int|
            0 <= q < old.total_pages ==> #[trigger] self.page_types@[q] == if h <= q < h + n {
                0
            } else {
                old.page_types@[q]
            }
    }

    /// Hands out the `pages` free pages from page `first` on as one run.
    fn take_run(&mut self, first: usize, pages: usize)
        requires
            old(self).wf(),
            old(self).is_ready(),
            pages >= 1,
            old(self).free_span(first as int, first + pages),
        ensures
            final(self).took_run_of(old(self), first as int, pages as int),
    {
        proof {
            assert(self.inv_sizes());
            assert(self.total_pages * PAGE_SIZE <= usize::MAX);
        }
        let last = first + pages - 1;
        let mut i: usize = first;
        while i < first + pages
            invariant
                old(self).wf(),
                old(self).ready,
                old(self).free_span(first as int, first + pages),
                old(self).inv_sizes(),
                old(self).total_pages * PAGE_SIZE <= usize::MAX,
                pages >= 1,
                last == first + pages - 1,
                first <= i <= first + pages,
                self.ready == old(self).ready,
                self.total_pages == old(self).total_pages,
                self.memory == old(self).memory,
                self.classes == old(self).classes,
                self.free_lists == old(self).free_lists,
                self.chains == old(self).chains,
                self.free_block_offsets == old(self).free_block_offsets,
                self.first_block_pages == old(self).first_block_pages,
                self.blocks_allocated == old(self).blocks_allocated,
                self.runs == old(self).runs,
                self.page_types@.len() == old(self).page_types@.len(),
                self.next_pages@.len() == old(self).next_pages@.len(),
                forall|q: int|
                    0 <= q < old(self).total_pages ==> #[trigger] self.page_types@[q] == if first <= q < i {
                        2
                    } else {
                        old(self).page_types@[q]
                    },
                forall|q: int|
                    0 <= q < old(self).total_pages ==> #[trigger] self.next_pages@[q] == if first <= q < i {
                        run_link(first as int, pages as int, q)
                    } else {
                        old(self).next_pages@[q] as int
                    },
            decreases first + pages - i,
        {
            self.set_page_type(i, PageType::Multipage);
            if i != last {
                self.set_next_page(i, i + 1);
            } else {
                self.set_next_page(i, usize::MAX);
            }
            i = i + 1;
        }
        self.runs = Ghost(self.runs@.insert(first as int, pages as int));
    }

    /// Hands out `pages` whole pages in a row and returns the address of
    /// the first one.
    pub fn multipage_alloc(&mut self, pages: usize) -> (addr: usize)
        requires
            old(self).wf(),
            old(self).is_ready(),
            pages >= 1,
            old(self).run_choice(pages as int) is Some,
        ensures
            final(self).wf(),
            final(self).is_ready(),
            final(self).page_count() == old(self).page_count(),
            addr == old(self).run_choice(pages as int)->0 * PAGE_SIZE,
            !old(self).is_live(addr as int),
            final(self).is_live_run(addr as int),
            final(self).extent(addr as int) == pages * PAGE_SIZE,
            forall|a: int| a != addr ==> #[trigger] final(self).is_live(a) == old(self).is_live(a),
            final(self).took_run(old(self), old(self).run_choice(pages as int)->0, pages as int),
            final(self).keeps_contents(old(self)),
    {
        let first_page = match self.find_free_run(pages) {
            Some(p) => p,
            None => {
                return 0;
            },
        };
        self.take_run(first_page, pages);
        proof {
            lemma_took_run(old(self), self, first_page as int, pages as int);
            lemma_took_run_effect(old(self), self, first_page as int, pages as int);
            assert forall|b: int, w: int|
                #![trigger old(self).is_live(b), self.memory_word(w)]
                old(self).is_live(b) && self.is_live(b) && b <= w && w + 8 <= b + old(self).extent(b) implies
                self.memory_word(w) == old(self).memory_word(w) by {}
            assert(self.inv_sizes());
            lemma_page_in_memory(first_page as int, self.total_pages as int);
        }
        page_start(first_page)
    }

    /// Gives back the run of pages that starts at page `page`.
    fn dealloc_pages(&mut self, page: usize)
        requires
            old(self).wf(),
            old(self).is_ready(),
            old(self).runs().contains_key(page as int),
        ensures
            final(self).freed_run_of(old(self), page as int),
    {
        let ghost n = self.runs@[page as int];
        proof {
            reveal(SlabAllocator::inv_multipage);
            assert(self.run_ok(page as int));
            assert(self.inv_sizes());
        }
        let mut p: usize = page;
        loop
            invariant
                old(self).wf(),
                old(self).ready,
                old(self).inv_sizes(),
                old(self).runs@.contains_key(page as int),
                old(self).run_ok(page as int),
                n == old(self).runs@[page as int],
                page <= p < page + n,
                self.ready == old(self).ready,
                self.total_pages == old(self).total_pages,
                self.memory == old(self).memory,
                self.classes == old(self).classes,
                self.free_lists == old(self).free_lists,
                self.chains == old(self).chains,
                self.free_block_offsets == old(self).free_block_offsets,
                self.first_block_pages == old(self).first_block_pages,
                self.blocks_allocated == old(self).blocks_allocated,
                self.next_pages == old(self).next_pages,
                self.runs == old(self).runs,
                self.page_types@.len() == old(self).page_types@.len(),
                forall|q: int|
                    0 <= q < old(self).total_pages ==> #[trigger] self.page_types@[q] == if page <= q < p {
                        0
                    } else {
                        old(self).page_types@[q]
                    },
            decreases page + n - p,
        {
            proof {
                assert(old(self).run_page_ok(page as int, p as int));
            }
            self.set_page_type(p, PageType::Free);
            let next_page = self.next_pages[p];
            if next_page != 0 && next_page < self.total_pages {
                p = next_page;
            } else {
                self.runs = Ghost(self.runs@.remove(page as int));
                return;
            }
        }
    }

    /// Gives back the run of pages handed out at `addr`.
    fn multipage_dealloc(&mut self, addr: usize)
        requires
            old(self).wf(),
            old(self).is_ready(),
            old(self).is_live_run(addr as int),
        ensures
            final(self).wf(),
            final(self).is_ready(),
            final(self).page_count() == old(self).page_count(),
            !final(self).is_live(addr as int),
            forall|a: int| a != addr ==> #[trigger] final(self).is_live(a) == old(self).is_live(a),
            final(self).gave_back_run(old(self), addr as int / PAGE_SIZE as int),
            final(self).keeps_contents(old(self)),
    {
        let page = page_by_ptr(addr);
        self.dealloc_pages(page);
        proof {
            lemma_freed_run(old(self), self, page as int);
            lemma_freed_run_effect(old(self), self, page as int);
            assert forall|b: int, w: int|
                #![trigger old(self).is_live(b), self.memory_word(w)]
                old(self).is_live(b) && self.is_live(b) && b <= w && w + 8 <= b + old(self).extent(b) implies
                self.memory_word(w) == old(self).memory_word(w) by {}
        }
    }
}

/// Handing out a run of free pages keeps the invariant and hands out the
/// run and nothing else.
proof fn lemma_took_run(old_s: &SlabAllocator, s: &SlabAllocator, first: int, n: int)
    requires
        s.took_run_of(old_s, first, n),
    ensures
        s.wf(),
        !old_s.is_live(first * PAGE_SIZE),
        s.is_live_run(first * PAGE_SIZE),
        s.extent(first * PAGE_SIZE) == n * PAGE_SIZE,
        forall|a: int| a != first * PAGE_SIZE ==> #[trigger] s.is_live(a) == old_s.is_live(a),
{
    lemma_took_types(old_s, s, first, n);
    lemma_took_block_pages(old_s, s, first, n);
    lemma_took_chains(old_s, s, first, n);
    lemma_took_multipage(old_s, s, first, n);
    assert(old_s.inv_sizes());
    assert(s.inv_sizes());
    lemma_page_split(first, 0);
    assert(old_s.page_type(first) == PageType::Free);
    assert(!old_s.runs@.contains_key(first)) by {
        reveal(SlabAllocator::inv_multipage);
        if old_s.runs@.contains_key(first) {
            assert(old_s.run_ok(first));
            assert(old_s.run_page_ok(first, first));
        }
    }
    assert(!old_s.classes@.contains_key(first)) by {
        reveal(SlabAllocator::inv_types);
    }
    assert(!s.is_live_block(first * PAGE_SIZE));
}

proof fn lemma_took_types(old_s: &SlabAllocator, s: &SlabAllocator, first: int, n: int)
    requires
        s.took_run_of(old_s, first, n),
    ensures
        s.inv_types(),
{
    reveal(SlabAllocator::inv_types);
    assert forall|q: int| 0 <= q < s.total_pages implies (#[trigger] s.page_type(q) == PageType::Blocks)
        == s.classes@.contains_key(q) by {
        if first <= q < first + n {
            assert(old_s.page_type(q) == PageType::Free);
        } else {
            assert(s.page_types@[q] == old_s.page_types@[q]);
        }
    }
    assert forall|q: int| 0 <= q < s.total_pages && #[trigger] s.page_type(q) != PageType::Blocks implies
        s.blocks_allocated@[q] == 0 by {
        if first <= q < first + n {
            assert(old_s.page_type(q) == PageType::Free);
        } else {
            assert(s.page_types@[q] == old_s.page_types@[q]);
        }
    }
    assert forall|q: int| 0 <= q < s.total_pages implies #[trigger] s.page_types@[q] <= 2 by {
        assert(old_s.page_types@[q] <= 2);
    }
}

proof fn lemma_took_block_pages(old_s: &SlabAllocator, s: &SlabAllocator, first: int, n: int)
    requires
        s.took_run_of(old_s, first, n),
    ensures
        s.inv_block_pages(),
{
    reveal(SlabAllocator::inv_block_pages);
    assert forall|p: int| #[trigger] s.classes@.contains_key(p) implies s.free_lists@.contains_key(p)
        && s.block_page_ok(p) by {
        assert(old_s.block_page_ok(p));
    }
}

#[verifier::spinoff_prover]
proof fn lemma_took_chains(old_s: &SlabAllocator, s: &SlabAllocator, first: int, n: int)
    requires
        s.took_run_of(old_s, first, n),
    ensures
        s.inv_chains(-1),
{
    reveal(SlabAllocator::inv_chains);
    reveal(SlabAllocator::inv_types);
    assert forall|k: int| 0 <= k < SIZE_CLASSES implies #[trigger] s.chain_ok(k) by {
        assert(old_s.chain_ok(k));
        let c = old_s.chains@[k];
        assert forall|i: int| 0 <= i < c.len() implies s.page_types@[#[trigger] c[i]] == old_s.page_types@[c[i]]
            && s.next_pages@[c[i]] == old_s.next_pages@[c[i]] by {
            assert(old_s.page_type(c[i]) == PageType::Blocks);
        }
    }
    assert forall|p: int| (p == 0 || p == -1) && #[trigger] s.classes@.contains_key(p) implies s.next_pages@[p]
        == 0 by {
        assert(old_s.page_type(p) == PageType::Blocks);
    }
    assert forall|p: int| 0 < p && p != -1 && #[trigger] s.classes@.contains_key(p) implies s.chained(p) by {
        assert(old_s.chained(p));
    }
}

#[verifier::spinoff_prover]
proof fn lemma_took_multipage(old_s: &SlabAllocator, s: &SlabAllocator, first: int, n: int)
    requires
        s.took_run_of(old_s, first, n),
    ensures
        s.inv_multipage(),
{
    reveal(SlabAllocator::inv_multipage);
    assert forall|h: int| #[trigger] s.runs@.contains_key(h) implies s.run_ok(h) by {
        if h == first {
            assert(s.runs@[h] == n);
            assert forall|q: int| h <= q < h + s.runs@[h] implies #[trigger] s.run_page_ok(h, q) by {}
        } else {
            assert(old_s.run_ok(h));
            assert(s.runs@[h] == old_s.runs@[h]);
            assert forall|q: int| h <= q < h + s.runs@[h] implies #[trigger] s.run_page_ok(h, q) by {
                assert(old_s.run_page_ok(h, q));
                assert(!(first <= q < first + n)) by {
                    if first <= q < first + n {
                        assert(old_s.page_type(q) == PageType::Free);
                    }
                }
            }
        }
    }
    assert forall|h1: int, h2: int|
        #[trigger] s.runs@.contains_key(h1) && #[trigger] s.runs@.contains_key(h2) && h1 != h2 implies h1
        + s.runs@[h1] <= h2 || h2 + s.runs@[h2] <= h1 by {
        if h1 == first || h2 == first {
            let h = if h1 == first {
                h2
            } else {
                h1
            };
            assert(old_s.run_ok(h));
            let q = if h < first {
                first
            } else {
                h
            };
            if !(h1 + s.runs@[h1] <= h2 || h2 + s.runs@[h2] <= h1) {
                assert(old_s.run_page_ok(h, q));
                assert(old_s.page_type(q) == PageType::Free);
            }
        }
    }
}

/// Giving back a run keeps the invariant, and the run is no longer handed
/// out; nothing else changes.
proof fn lemma_freed_run(old_s: &SlabAllocator, s: &SlabAllocator, h: int)
    requires
        s.freed_run_of(old_s, h),
    ensures
        s.wf(),
        forall|a: int| #[trigger] s.is_live(a) == (old_s.is_live(a) && a != h * PAGE_SIZE),
{
    lemma_freed_types(old_s, s, h);
    lemma_freed_block_pages(old_s, s, h);
    lemma_freed_chains(old_s, s, h);
    lemma_freed_multipage(old_s, s, h);
    assert(old_s.inv_sizes());
    assert(s.inv_sizes());
    assert forall|a: int| #[trigger] s.is_live(a) == (old_s.is_live(a) && a != h * PAGE_SIZE) by {
        if a == h * PAGE_SIZE {
            lemma_page_split(h, 0);
            if old_s.classes@.contains_key(h) {
                lemma_block_page_not_run(old_s, h);
            }
        } else if s.is_live_run(a) || old_s.is_live_run(a) {
            lemma_page_join(a);
        }
    }
}

proof fn lemma_freed_types(old_s: &SlabAllocator, s: &SlabAllocator, h: int)
    requires
        s.freed_run_of(old_s, h),
    ensures
        s.inv_types(),
{
    reveal(SlabAllocator::inv_types);
    reveal(SlabAllocator::inv_multipage);
    assert(old_s.run_ok(h));
    let n = old_s.runs@[h];
    assert forall|q: int| 0 <= q < s.total_pages implies (#[trigger] s.page_type(q) == PageType::Blocks)
        == s.classes@.contains_key(q) by {
        if h <= q < h + n {
            assert(old_s.run_page_ok(h, q));
            assert(old_s.page_type(q) == PageType::Multipage);
            assert(!old_s.classes@.contains_key(q));
            assert(s.page_type(q) == PageType::Free);
        } else {
            assert(s.page_types@[q] == old_s.page_types@[q]);
            assert(s.page_type(q) == old_s.page_type(q));
        }
    }
    assert forall|q: int| 0 <= q < s.total_pages && #[trigger] s.page_type(q) != PageType::Blocks implies
        s.blocks_allocated@[q] == 0 by {
        if h <= q < h + n {
            assert(old_s.run_page_ok(h, q));
        } else {
            assert(s.page_types@[q] == old_s.page_types@[q]);
        }
    }
    assert forall|q: int| 0 <= q < s.total_pages implies #[trigger] s.page_types@[q] <= 2 by {
        assert(old_s.page_types@[q] <= 2);
    }
}

proof fn lemma_freed_block_pages(old_s: &SlabAllocator, s: &SlabAllocator, h: int)
    requires
        s.freed_run_of(old_s, h),
    ensures
        s.inv_block_pages(),
{
    reveal(SlabAllocator::inv_block_pages);
    assert forall|p: int| #[trigger] s.classes@.contains_key(p) implies s.free_lists@.contains_key(p)
        && s.block_page_ok(p) by {
        assert(old_s.block_page_ok(p));
    }
}

#[verifier::spinoff_prover]
proof fn lemma_freed_chains(old_s: &SlabAllocator, s: &SlabAllocator, h: int)
    requires
        s.freed_run_of(old_s, h),
    ensures
        s.inv_chains(-1),
{
    reveal(SlabAllocator::inv_chains);
    reveal(SlabAllocator::inv_multipage);
    assert(old_s.run_ok(h));
    let n = old_s.runs@[h];
    assert forall|k: int| 0 <= k < SIZE_CLASSES implies #[trigger] s.chain_ok(k) by {
        assert(old_s.chain_ok(k));
        let c = old_s.chains@[k];
        assert forall|i: int| 0 <= i < c.len() implies s.page_types@[#[trigger] c[i]] == old_s.page_types@[c[i]] by {
            assert(old_s.page_type(c[i]) == PageType::Blocks);
            if h <= c[i] < h + n {
                assert(old_s.run_page_ok(h, c[i]));
            }
        }
    }
    assert forall|p: int| 0 < p && p != -1 && #[trigger] s.classes@.contains_key(p) implies s.chained(p) by {
        assert(old_s.chained(p));
    }
}

#[verifier::spinoff_prover]
proof fn lemma_freed_multipage(old_s: &SlabAllocator, s: &SlabAllocator, h: int)
    requires
        s.freed_run_of(old_s, h),
    ensures
        s.inv_multipage(),
{
    reveal(SlabAllocator::inv_multipage);
    let n = old_s.runs@[h];
    assert forall|h2: int| #[trigger] s.runs@.contains_key(h2) implies s.run_ok(h2) by {
        assert(old_s.run_ok(h2));
        assert(h2 != h);
        assert(h2 + old_s.runs@[h2] <= h || h + n <= h2);
        assert forall|q: int| h2 <= q < h2 + s.runs@[h2] implies #[trigger] s.run_page_ok(h2, q) by {
            assert(old_s.run_page_ok(h2, q));
        }
    }
}


/// A free list that holds as many blocks as the page has holds them all.
proof fn lemma_full_free_list(k: int, f: Seq<int>)
    requires
        3 <= k < SIZE_CLASSES,
        forall|i: int| 0 <= i < f.len() ==> 0 <= #[trigger] f[i] < PAGE_SIZE && f[i] % class_block_size(k) == 0,
        forall|i: int, j: int| 0 <= i < j < f.len() ==> #[trigger] f[i] != #[trigger] f[j],
        f.len() >= class_block_count(k),
    ensures
        f.len() == class_block_count(k),
        forall|off: int| 0 <= off < PAGE_SIZE && off % class_block_size(k) == 0 ==> #[trigger] f.contains(off),
{
    broadcast use vstd::seq_lib::seq_to_set_is_finite;

    lemma_class_facts(k);
    let m = fresh_free_list(k);
    let b = class_block_size(k);
    assert(m.no_duplicates()) by {
        assert forall|i: int, j: int| 0 <= i < m.len() && 0 <= j < m.len() && i != j implies m[i] != m[j] by {
            if i < j {
                assert(i * b < j * b) by (nonlinear_arith)
                    requires
                        i < j,
                        b > 0,
                ;
            } else {
                assert(j * b < i * b) by (nonlinear_arith)
                    requires
                        j < i,
                        b > 0,
                ;
            }
        }
    }
    assert(f.no_duplicates()) by {
        assert forall|i: int, j: int| 0 <= i < f.len() && 0 <= j < f.len() && i != j implies f[i] != f[j] by {
            if i < j {
                assert(f[i] != f[j]);
            } else {
                assert(f[j] != f[i]);
            }
        }
    }
    m.unique_seq_to_set();
    f.unique_seq_to_set();
    assert(f.to_set().subset_of(m.to_set())) by {
        assert forall|x: int| f.to_set().contains(x) implies m.to_set().contains(x) by {
            let i = choose|i: int| 0 <= i < f.len() && f[i] == x;
            lemma_fresh_contains(k, f[i]);
        }
    }
    vstd::set_lib::lemma_len_subset(f.to_set(), m.to_set());
    vstd::set_lib::lemma_subset_equality(f.to_set(), m.to_set());
    assert forall|off: int| 0 <= off < PAGE_SIZE && off % class_block_size(k) == 0 implies #[trigger] f.contains(off) by {
        lemma_fresh_contains(k, off);
        assert(m.to_set().contains(off));
        assert(f.to_set().contains(off));
    }
}

/// Distinct blocks of one size class on a page do not share a word.
proof fn lemma_blocks_apart(k: int, o1: int, o2: int)
    requires
        3 <= k < SIZE_CLASSES,
        0 <= o1 && 0 <= o2,
        o1 % class_block_size(k) == 0,
        o2 % class_block_size(k) == 0,
        o1 != o2,
    ensures
        o1 + 8 <= o2 || o2 + 8 <= o1,
        o1 + class_block_size(k) <= o2 || o2 + class_block_size(k) <= o1,
{
    lemma_class_facts(k);
    let b = class_block_size(k);
    assert(o1 + b <= o2 || o2 + b <= o1) by (nonlinear_arith)
        requires
            0 <= o1 && 0 <= o2,
            o1 % b == 0,
            o2 % b == 0,
            o1 != o2,
            b > 0,
    {
        let q1 = o1 / b;
        let q2 = o2 / b;
        assert(o1 == q1 * b);
        assert(o2 == q2 * b);
        if q1 < q2 {
            assert(q1 * b + b <= q2 * b);
        } else if q2 < q1 {
            assert(q2 * b + b <= q1 * b);
        }
    }
}

/// The link a page holds after page `p` is taken out of its chain: pages
/// that linked to `p` link to `np`, the page after `p`.
pub open spec fn relinked(old_next: usize, q: int, p: int, np: usize) -> usize {
    if old_next == p && q != np {
        np
    } else {
        old_next
    }
}

impl SlabAllocator {
    /// `self` is `mid` with block `off` of page `p` put back at the head
    /// of the free list of the page.
    pub closed spec fn pushed_of(&self, mid: &SlabAllocator, p: int, off: int) -> bool {
        let f = mid.free_lists@[p];
        &&& mid.wf()
        &&& mid.ready
        &&& mid.classes@.contains_key(p)
        &&& 0 <= off < PAGE_SIZE
        &&& off % class_block_size(mid.classes@[p]) == 0
        &&& !f.contains(off)
        &&& mid.blocks_allocated@[p] >= 1
        &&& self.ready
        &&& self.total_pages == mid.total_pages
        &&& self.page_types == mid.page_types
        &&& self.next_pages == mid.next_pages
        &&& self.first_block_pages == mid.first_block_pages
        &&& self.classes == mid.classes
        &&& self.chains == mid.chains
        &&& self.runs == mid.runs
        &&& self.memory@.len() == mid.memory@.len()
        &&& self.memory.word_at(p * PAGE_SIZE + off) == mid.free_block_offsets@[p]
        &&& forall|b: int|
            0 <= b && b + 8 <= mid.memory@.len() && (b + 8 <= p * PAGE_SIZE + off || p * PAGE_SIZE + off + 8 <= b)
                ==> #[trigger] self.memory.word_at(b) == mid.memory.word_at(b)
        &&& self.free_block_offsets@ == mid.free_block_offsets@.update(p, off as usize)
        &&& self.blocks_allocated@ == mid.blocks_allocated@.update(p, (mid.blocks_allocated@[p] - 1) as usize)
        &&& self.free_lists@ == mid.free_lists@.insert(p, seq![off].add(f))
    }

    /// `self` is `mid` with block page `p`, whose blocks are all free,
    /// given back: taken out of its chain and marked free.
    pub closed spec fn released_of(&self, mid: &SlabAllocator, p: int) -> bool {
        let k = mid.classes@[p];
        let np = mid.next_pages@[p];
        &&& mid.wf()
        &&& mid.ready
        &&& mid.classes@.contains_key(p)
        &&& mid.blocks_allocated@[p] == 0
        &&& self.ready
        &&& self.total_pages == mid.total_pages
        &&& self.memory == mid.memory
        &&& self.free_block_offsets == mid.free_block_offsets
        &&& self.blocks_allocated == mid.blocks_allocated
        &&& self.runs == mid.runs
        &&& self.page_types@ == mid.page_types@.update(p, 0)
        &&& self.next_pages@.len() == mid.next_pages@.len()
        &&& forall|q: int|
            0 <= q < mid.total_pages ==> #[trigger] self.next_pages@[q] == relinked(mid.next_pages@[q], q, p, np)
        &&& self.first_block_pages@.len() == mid.first_block_pages@.len()
        &&& forall|c: int|
            0 <= c < SIZE_CLASSES ==> #[trigger] self.first_block_pages@[c] == if mid.first_block_pages@[c] == p {
                np
            } else {
                mid.first_block_pages@[c]
            }
        &&& self.classes@ == mid.classes@.remove(p)
        &&& self.free_lists@ == mid.free_lists@.remove(p)
        &&& self.chains@ == if p > 0 {
            mid.chains@.update(k, mid.chains@[k].remove(mid.chain_index(p)))
        } else {
            mid.chains@
        }
    }

    /// Where page `p` stands in the chain of its class.
    pub open spec fn chain_index(&self, p: int) -> int {
        choose|j: int| 0 <= j < self.chain(self.class_of(p)).len() && #[trigger] self.chain(self.class_of(p))[j] == p
    }

    /// Gives back the block handed out at `addr`; a page whose blocks are
    /// then all free is given back too.
    fn blocks_dealloc(&mut self, addr: usize)
        requires
            old(self).wf(),
            old(self).is_ready(),
            old(self).is_live_block(addr as int),
        ensures
            final(self).wf(),
            final(self).is_ready(),
            final(self).page_count() == old(self).page_count(),
            final(self).runs() == old(self).runs(),
            !final(self).is_live(addr as int),
            forall|a: int| a != addr ==> #[trigger] final(self).is_live(a) == old(self).is_live(a),
            final(self).gave_back_block(old(self), addr as int),
            final(self).keeps_contents(old(self)),
    {
        let page = page_by_ptr(addr);
        let ghost p = page as int;
        let ghost k = self.classes@[p];
        let ghost off: int = addr as int % PAGE_SIZE as int;
        proof {
            lemma_page_join(addr as int);
            lemma_free_offset(self, p);
            lemma_class_facts(k);
            lemma_block_in_page(k, off);
            lemma_page_in_memory(p, self.total_pages as int);
            if self.free_lists@[p].len() >= class_block_count(k) {
                lemma_full_free_list(k, self.free_lists@[p]);
            }
        }
        let next_empty_block = self.free_block_offsets[page];
        self.memory.write_word(addr, next_empty_block);
        let offset = addr - page_start(page);
        self.free_block_offsets.set(page, offset);
        let total_blocks = self.blocks_allocated[page];
        self.blocks_allocated.set(page, total_blocks - 1);
        self.free_lists = Ghost(self.free_lists@.insert(p, seq![off].add(self.free_lists@[p])));
        let ghost mid = *self;
        proof {
            lemma_pushed(old(self), self, p, off);
            lemma_keeps_push(old(self), self, p, off);
        }
        if total_blocks - 1 == 0 {
            self.release_block_page(page);
            proof {
                lemma_released(&mid, self, p);
                lemma_released_effect(old(self), &mid, self, p, off);
            }
        } else {
            proof {
                lemma_pushed_effect(old(self), self, p, off);
            }
        }
        proof {
            assert forall|b: int, w: int|
                #![trigger old(self).is_live(b), self.memory_word(w)]
                old(self).is_live(b) && self.is_live(b) && b <= w && w + 8 <= b + old(self).extent(b) implies
                self.memory_word(w) == old(self).memory_word(w) by {
                assert(b != addr);
                assert(self.memory_word(w) == mid.memory_word(w));
            }
        }
    }
}


impl SlabAllocator {
    /// Gives back block page `page_index`, whose blocks are all free: the
    /// pages that link to it link to the page after it, a size class that
    /// starts with it starts with that page, and it is marked free.
    fn release_block_page(&mut self, page_index: usize)
        requires
            old(self).wf(),
            old(self).is_ready(),
            old(self).classes@.contains_key(page_index as int),
            old(self).blocks_allocated@[page_index as int] == 0,
        ensures
            final(self).released_of(old(self), page_index as int),
    {
        proof {
            lemma_free_offset(self, page_index as int);
            assert(self.inv_sizes());
        }
        let next_page = self.next_pages[page_index];
        let mut i: usize = 0;
        while i < self.total_pages
            invariant
                old(self).inv_sizes(),
                0 <= i <= self.total_pages,
                page_index < self.total_pages,
                next_page == old(self).next_pages@[page_index as int],
                self.ready == old(self).ready,
                self.total_pages == old(self).total_pages,
                self.memory == old(self).memory,
                self.classes == old(self).classes,
                self.free_lists == old(self).free_lists,
                self.chains == old(self).chains,
                self.free_block_offsets == old(self).free_block_offsets,
                self.first_block_pages == old(self).first_block_pages,
                self.blocks_allocated == old(self).blocks_allocated,
                self.page_types == old(self).page_types,
                self.runs == old(self).runs,
                self.next_pages@.len() == old(self).next_pages@.len(),
                forall|q: int|
                    0 <= q < old(self).total_pages ==> #[trigger] self.next_pages@[q] == if q < i {
                        relinked(old(self).next_pages@[q], q, page_index as int, next_page)
                    } else {
                        old(self).next_pages@[q]
                    },
            decreases self.total_pages - i,
        {
            if self.next_pages[i] == page_index && i != next_page {
                self.set_next_page(i, next_page);
            }
            i = i + 1;
        }
        let mut c: usize = 0;
        while c < SIZE_CLASSES
            invariant
                old(self).inv_sizes(),
                0 <= c <= SIZE_CLASSES,
                next_page == old(self).next_pages@[page_index as int],
                self.ready == old(self).ready,
                self.total_pages == old(self).total_pages,
                self.memory == old(self).memory,
                self.classes == old(self).classes,
                self.free_lists == old(self).free_lists,
                self.chains == old(self).chains,
                self.free_block_offsets == old(self).free_block_offsets,
                self.blocks_allocated == old(self).blocks_allocated,
                self.page_types == old(self).page_types,
                self.runs == old(self).runs,
                self.next_pages@.len() == old(self).next_pages@.len(),
                forall|q: int|
                    0 <= q < old(self).total_pages ==> #[trigger] self.next_pages@[q] == relinked(
                        old(self).next_pages@[q],
                        q,
                        page_index as int,
                        next_page,
                    ),
                self.first_block_pages@.len() == old(self).first_block_pages@.len(),
                forall|d: int|
                    0 <= d < SIZE_CLASSES ==> #[trigger] self.first_block_pages@[d] == if d < c
                        && old(self).first_block_pages@[d] == page_index {
                        next_page
                    } else {
                        old(self).first_block_pages@[d]
                    },
            decreases SIZE_CLASSES - c,
        {
            if self.first_block_pages[c] == page_index {
                self.first_block_pages.set(c, next_page);
            }
            c = c + 1;
        }
        self.set_page_type(page_index, PageType::Free);
        let ghost p = page_index as int;
        if page_index > 0 {
            self.chains = Ghost(
                self.chains@.update(
                    old(self).classes@[p],
                    old(self).chains@[old(self).classes@[p]].remove(old(self).chain_index(p)),
                ),
            );
        }
        self.classes = Ghost(self.classes@.remove(p));
        self.free_lists = Ghost(self.free_lists@.remove(p));
    }
}

/// Putting a block back on the free list of its page keeps the invariant,
/// and the block is no longer handed out; nothing else changes.
#[verifier::spinoff_prover]
proof fn lemma_pushed(mid: &SlabAllocator, s: &SlabAllocator, p: int, off: int)
    requires
        s.pushed_of(mid, p, off),
    ensures
        s.wf(),
        !s.is_live(p * PAGE_SIZE + off),
        forall|a: int| a != p * PAGE_SIZE + off ==> #[trigger] s.is_live(a) == mid.is_live(a),
{
    let f = mid.free_lists@[p];
    lemma_free_offset(mid, p);
    lemma_block_page_not_run(mid, p);
    lemma_pushed_types(mid, s, p, off);
    lemma_pushed_block_pages(mid, s, p, off);
    lemma_pushed_chains(mid, s, p, off);
    lemma_pushed_multipage(mid, s, p, off);
    assert(mid.inv_sizes());
    assert(s.inv_sizes());
    let g = seq![off].add(f);
    lemma_page_split(p, off);
    assert(g[0] == off);
    assert(s.free_lists@[p].contains(off));
    assert forall|a: int| a != p * PAGE_SIZE + off implies #[trigger] s.is_live(a) == mid.is_live(a) by {
        let q = a / PAGE_SIZE as int;
        let o = a % PAGE_SIZE as int;
        if q == p {
            lemma_page_join(a);
            assert(o != off);
            assert(g.contains(o) == f.contains(o)) by {
                if f.contains(o) {
                    let j = choose|j: int| 0 <= j < f.len() && f[j] == o;
                    assert(g[j + 1] == o);
                }
                if g.contains(o) {
                    let j = choose|j: int| 0 <= j < g.len() && g[j] == o;
                    assert(j != 0);
                    assert(f[j - 1] == o);
                }
            }
        }
    }
}

proof fn lemma_pushed_types(mid: &SlabAllocator, s: &SlabAllocator, p: int, off: int)
    requires
        s.pushed_of(mid, p, off),
    ensures
        s.inv_types(),
{
    reveal(SlabAllocator::inv_types);
    assert(mid.page_type(p) == PageType::Blocks);
    assert forall|q: int| 0 <= q < s.total_pages implies #[trigger] s.page_type(q) == mid.page_type(q) by {}
    assert forall|q: int| 0 <= q < s.total_pages && #[trigger] s.page_type(q) != PageType::Blocks implies
        s.blocks_allocated@[q] == 0 by {
        assert(q != p);
        assert(mid.page_type(q) == s.page_type(q));
    }
}

#[verifier::spinoff_prover]
proof fn lemma_pushed_block_pages(mid: &SlabAllocator, s: &SlabAllocator, p: int, off: int)
    requires
        s.pushed_of(mid, p, off),
    ensures
        s.inv_block_pages(),
{
    reveal(SlabAllocator::inv_block_pages);
    reveal(SlabAllocator::inv_types);
    let f = mid.free_lists@[p];
    let g = seq![off].add(f);
    let k = mid.classes@[p];
    assert(mid.block_page_ok(p));
    assert(mid.inv_sizes());
    lemma_class_facts(k);
    lemma_page_in_memory(p, mid.total_pages as int);
    lemma_block_in_page(k, off);
    assert(s.block_page_ok(p)) by {
        assert forall|i: int| 0 <= i < g.len() implies 0 <= #[trigger] g[i] < PAGE_SIZE && g[i] % class_block_size(k)
            == 0 by {
            if i > 0 {
                assert(g[i] == f[i - 1]);
            }
        }
        assert forall|i: int, j: int| 0 <= i < j < g.len() implies #[trigger] g[i] != #[trigger] g[j] by {
            assert(g[j] == f[j - 1]);
            if i == 0 {
                assert(f.contains(f[j - 1]));
            } else {
                assert(g[i] == f[i - 1]);
            }
        }
        assert forall|i: int| 0 <= i < g.len() implies s.memory.word_at(p * PAGE_SIZE + #[trigger] g[i]) == if i + 1
            < g.len() {
            g[i + 1]
        } else {
            usize::MAX as int
        } by {
            if i > 0 {
                assert(g[i] == f[i - 1]);
                assert(f[i - 1] != off) by {
                    assert(f.contains(f[i - 1]));
                }
                lemma_blocks_apart(k, f[i - 1], off);
                lemma_block_in_page(k, f[i - 1]);
                assert(s.memory.word_at(p * PAGE_SIZE + f[i - 1]) == mid.memory.word_at(p * PAGE_SIZE + f[i - 1]));
            } else {
                assert(s.memory.word_at(p * PAGE_SIZE + off) == mid.free_block_offsets@[p]);
            }
        }
    }
    assert forall|q: int| #[trigger] s.classes@.contains_key(q) implies s.free_lists@.contains_key(q)
        && s.block_page_ok(q) by {
        if q != p {
            assert(mid.block_page_ok(q));
            assert(0 <= q < mid.total_pages);
            let kq = mid.classes@[q];
            let fq = mid.free_lists@[q];
            assert forall|i: int| 0 <= i < fq.len() implies s.memory.word_at(q * PAGE_SIZE + #[trigger] fq[i]) == if i
                + 1 < fq.len() {
                fq[i + 1]
            } else {
                usize::MAX as int
            } by {
                lemma_block_in_page(kq, fq[i]);
                lemma_pages_apart(q, p, fq[i]);
                lemma_page_in_memory(q, mid.total_pages as int);
                assert(s.memory.word_at(q * PAGE_SIZE + fq[i]) == mid.memory.word_at(q * PAGE_SIZE + fq[i]));
            }
        }
    }
}

proof fn lemma_pushed_chains(mid: &SlabAllocator, s: &SlabAllocator, p: int, off: int)
    requires
        s.pushed_of(mid, p, off),
    ensures
        s.inv_chains(-1),
{
    reveal(SlabAllocator::inv_chains);
    assert forall|k: int| 0 <= k < SIZE_CLASSES implies #[trigger] s.chain_ok(k) by {
        assert(mid.chain_ok(k));
    }
    assert forall|q: int| 0 < q && q != -1 && #[trigger] s.classes@.contains_key(q) implies s.chained(q) by {
        assert(mid.chained(q));
    }
}

proof fn lemma_pushed_multipage(mid: &SlabAllocator, s: &SlabAllocator, p: int, off: int)
    requires
        s.pushed_of(mid, p, off),
    ensures
        s.inv_multipage(),
{
    reveal(SlabAllocator::inv_multipage);
    assert forall|h: int| #[trigger] s.runs@.contains_key(h) implies s.run_ok(h) by {
        assert(mid.run_ok(h));
        assert forall|q: int| h <= q < h + s.runs@[h] implies #[trigger] s.run_page_ok(h, q) by {
            assert(mid.run_page_ok(h, q));
        }
    }
}


/// Giving back a block page whose blocks are all free keeps the invariant
/// and changes nothing that is handed out.
proof fn lemma_released(mid: &SlabAllocator, s: &SlabAllocator, p: int)
    requires
        s.released_of(mid, p),
    ensures
        s.wf(),
        forall|a: int| #[trigger] s.is_live(a) == mid.is_live(a),
{
    let k = mid.classes@[p];
    lemma_free_offset(mid, p);
    lemma_released_types(mid, s, p);
    lemma_released_block_pages(mid, s, p);
    lemma_released_chains(mid, s, p);
    lemma_released_multipage(mid, s, p);
    assert(mid.inv_sizes());
    assert(s.inv_sizes());
    assert(mid.block_page_ok(p));
    lemma_full_free_list(k, mid.free_lists@[p]);
    assert forall|a: int| #[trigger] s.is_live(a) == mid.is_live(a) by {
        if a / PAGE_SIZE as int == p {
            lemma_page_join(a);
        }
    }
}

proof fn lemma_released_types(mid: &SlabAllocator, s: &SlabAllocator, p: int)
    requires
        s.released_of(mid, p),
    ensures
        s.inv_types(),
{
    reveal(SlabAllocator::inv_types);
    assert(0 <= p < mid.total_pages);
    assert forall|q: int| 0 <= q < s.total_pages implies (#[trigger] s.page_type(q) == PageType::Blocks)
        == s.classes@.contains_key(q) by {
        if q != p {
            assert(s.page_types@[q] == mid.page_types@[q]);
            assert(s.page_type(q) == mid.page_type(q));
            assert(s.classes@.contains_key(q) == mid.classes@.contains_key(q));
        }
    }
    assert forall|q: int| 0 <= q < s.total_pages && #[trigger] s.page_type(q) != PageType::Blocks implies
        s.blocks_allocated@[q] == 0 by {
        if q != p {
            assert(s.page_types@[q] == mid.page_types@[q]);
            assert(s.page_type(q) == mid.page_type(q));
        }
    }
    assert forall|q: int| 0 <= q < s.total_pages implies #[trigger] s.page_types@[q] <= 2 by {
        if q != p {
            assert(s.page_types@[q] == mid.page_types@[q]);
        }
    }
}

proof fn lemma_released_block_pages(mid: &SlabAllocator, s: &SlabAllocator, p: int)
    requires
        s.released_of(mid, p),
    ensures
        s.inv_block_pages(),
{
    reveal(SlabAllocator::inv_block_pages);
    assert forall|q: int| #[trigger] s.classes@.contains_key(q) implies s.free_lists@.contains_key(q)
        && s.block_page_ok(q) by {
        assert(mid.block_page_ok(q));
    }
}

/// A block page other than page 0 is in the chain of its class.
proof fn lemma_chained(s: &SlabAllocator, p: int)
    requires
        s.wf(),
        s.ready,
        s.classes@.contains_key(p),
        p > 0,
    ensures
        s.chained(p),
        0 <= s.chain_index(p) < s.chains@[s.classes@[p]].len(),
        s.chains@[s.classes@[p]][s.chain_index(p)] == p,
{
    reveal(SlabAllocator::inv_chains);
}

/// The only block page that links to block page `p` is the one before it
/// in its chain.
proof fn lemma_links_to(mid: &SlabAllocator, p: int, q: int)
    requires
        mid.wf(),
        mid.ready,
        mid.classes@.contains_key(p),
        mid.classes@.contains_key(q),
        mid.next_pages@[q] == p,
        p > 0,
    ensures
        q > 0,
        mid.classes@[q] == mid.classes@[p],
        mid.chain_index(p) > 0,
        mid.chains@[mid.classes@[p]][mid.chain_index(p) - 1] == q,
{
    reveal(SlabAllocator::inv_types);
    reveal(SlabAllocator::inv_chains);
    reveal(SlabAllocator::inv_block_pages);
    assert(mid.block_page_ok(p));
    assert(mid.block_page_ok(q));
    if q == 0 {
        assert(mid.next_pages@[0] == 0);
        assert(mid.classes@.contains_key(0));
    }
    assert(q > 0);
    assert(mid.chained(q));
    let kq = mid.classes@[q];
    assert(mid.chain_ok(kq));
    let i = choose|i: int| 0 <= i < mid.chains@[kq].len() && #[trigger] mid.chains@[kq][i] == q;
    let c = mid.chains@[kq];
    if i + 1 >= c.len() {
        assert(mid.next_pages@[c[i]] == 0);
        assert(mid.next_pages@[q] == 0);
    }
    assert(i + 1 < c.len());
    assert(c[i + 1] == p);
    assert(mid.classes@[p] == kq);
    assert(mid.chained(p));
    let j = mid.chain_index(p);
    assert(c[j] == p);
    assert(j == i + 1);
}

proof fn lemma_released_multipage(mid: &SlabAllocator, s: &SlabAllocator, p: int)
    requires
        s.released_of(mid, p),
    ensures
        s.inv_multipage(),
{
    reveal(SlabAllocator::inv_multipage);
    reveal(SlabAllocator::inv_types);
    assert(mid.page_type(p) == PageType::Blocks);
    assert forall|h: int| #[trigger] s.runs@.contains_key(h) implies s.run_ok(h) by {
        assert(mid.run_ok(h));
        assert forall|q: int| h <= q < h + s.runs@[h] implies #[trigger] s.run_page_ok(h, q) by {
            assert(mid.run_page_ok(h, q));
            assert(q != p);
            assert(mid.inv_sizes());
            assert(0 <= p < mid.total_pages);
            if q + 1 < h + mid.runs@[h] {
                assert(mid.run_page_ok(h, q + 1));
            }
            assert(mid.next_pages@[q] != p);
        }
    }
}

proof fn lemma_released_chains(mid: &SlabAllocator, s: &SlabAllocator, p: int)
    requires
        s.released_of(mid, p),
    ensures
        s.inv_chains(-1),
{
    lemma_free_offset(mid, p);
    if p == 0 {
        lemma_released_chains_zero(mid, s);
    } else {
        lemma_released_chains_pos(mid, s, p);
    }
}

#[verifier::spinoff_prover]
proof fn lemma_released_chains_zero(mid: &SlabAllocator, s: &SlabAllocator)
    requires
        s.released_of(mid, 0),
    ensures
        s.inv_chains(-1),
{
    reveal(SlabAllocator::inv_chains);
    reveal(SlabAllocator::inv_types);
    assert(mid.next_pages@[0] == 0);
    assert forall|k: int| 0 <= k < SIZE_CLASSES implies #[trigger] s.chain_ok(k) by {
        assert(mid.chain_ok(k));
        let c = mid.chains@[k];
        assert forall|i: int| 0 <= i < c.len() implies s.next_pages@[#[trigger] c[i]] == mid.next_pages@[c[i]] && s.page_types@[c[i]] == mid.page_types@[c[i]] by {}
    }
    assert forall|q: int| 0 < q && q != -1 && #[trigger] s.classes@.contains_key(q) implies s.chained(q) by {
        assert(mid.chained(q));
        let kq = mid.classes@[q];
        let i = choose|i: int| 0 <= i < mid.chains@[kq].len() && #[trigger] mid.chains@[kq][i] == q;
        assert(s.classes@[q] == kq);
        assert(s.chains@[kq][i] == q);
    }
}

#[verifier::spinoff_prover]
proof fn lemma_released_chains_pos(mid: &SlabAllocator, s: &SlabAllocator, p: int)
    requires
        s.released_of(mid, p),
        p > 0,
    ensures
        s.inv_chains(-1),
{
    reveal(SlabAllocator::inv_chains);
    reveal(SlabAllocator::inv_types);
    let k = mid.classes@[p];
    assert(mid.chained(p));
    let j = mid.chain_index(p);
    lemma_free_offset(mid, p);
    assert(mid.block_page_ok(p));
    assert forall|kk: int| 0 <= kk < SIZE_CLASSES && kk != k implies #[trigger] s.chain_ok(kk) by {
        assert(mid.chain_ok(kk));
        let d = mid.chains@[kk];
        assert(s.chains@[kk] == d);
        assert forall|i: int| 0 <= i < d.len() implies s.next_pages@[#[trigger] d[i]] == mid.next_pages@[d[i]] by {
            if mid.next_pages@[d[i]] == p {
                lemma_links_to(mid, p, d[i]);
            }
        }
        if d.len() > 0 {
            assert(d[0] != p);
        }
    }
    lemma_released_chain_k(mid, s, p);
    assert forall|q: int| 0 < q && q != -1 && #[trigger] s.classes@.contains_key(q) implies s.chained(q) by {
        assert(q != p);
        assert(mid.chained(q));
        let kq = mid.classes@[q];
        let i = choose|i: int| 0 <= i < mid.chains@[kq].len() && #[trigger] mid.chains@[kq][i] == q;
        assert(mid.block_page_ok(q)) by {
            reveal(SlabAllocator::inv_block_pages);
        }
        assert(s.classes@[q] == kq);
        if kq == k {
            let c = mid.chains@[k];
            assert(c[j] == p);
            assert(i != j);
            if i < j {
                assert(s.chains@[k][i] == q);
            } else {
                assert(s.chains@[k][i - 1] == q);
            }
        } else {
            assert(s.chains@[kq][i] == q);
        }
    }
    assert forall|q: int| (q == 0 || q == -1) && #[trigger] s.classes@.contains_key(q) implies s.next_pages@[q]
        == 0 by {
        assert(q == 0);
        assert(mid.next_pages@[0] == 0);
    }
}

#[verifier::spinoff_prover]
proof fn lemma_released_chain_k(mid: &SlabAllocator, s: &SlabAllocator, p: int)
    requires
        s.released_of(mid, p),
        p > 0,
    ensures
        s.chain_ok(mid.classes@[p]),
{
    let k = mid.classes@[p];
    lemma_free_offset(mid, p);
    assert(mid.block_page_ok(p));
    lemma_chained(mid, p);
    let j = mid.chain_index(p);
    lemma_chain_page(mid, k, j);
    let c = mid.chains@[k];
    let nc = c.remove(j);
    assert(mid.chain_ok(k));
    assert(c[j] == p);
    assert(s.chains@[k] == nc);
    let np = mid.next_pages@[p];
    assert(np == if j + 1 < c.len() {
        c[j + 1]
    } else {
        0
    });
    assert(s.first_block_pages@[k] == if nc.len() == 0 {
        0
    } else {
        nc[0]
    }) by {
        if j > 0 {
            assert(c[0] != p);
        }
    }
    assert forall|i: int| 0 <= i < nc.len() implies {
        &&& 0 < #[trigger] nc[i] < s.total_pages
        &&& s.page_type(nc[i]) == PageType::Blocks
        &&& s.classes@[nc[i]] == k
        &&& s.next_pages@[nc[i]] == if i + 1 < nc.len() {
            nc[i + 1]
        } else {
            0
        }
    } by {
        if i < j {
            assert(nc[i] == c[i]);
            assert(c[i] != p);
            if i + 1 < j {
                assert(nc[i + 1] == c[i + 1]);
                assert(c[i + 1] != p);
            } else {
                assert(c[i + 1] == p);
                assert(c[i] != np) by {
                    if j + 1 < c.len() {
                        assert(c[i] != c[j + 1]);
                    }
                }
                if i + 1 < nc.len() {
                    assert(nc[i + 1] == c[j + 1]);
                }
            }
        } else {
            assert(nc[i] == c[i + 1]);
            assert(c[i + 1] != p);
            if i + 2 < c.len() {
                assert(nc[i + 1] == c[i + 2]);
                assert(c[i + 2] != p);
            }
        }
    }
    assert forall|i: int, i2: int| 0 <= i < i2 < nc.len() implies #[trigger] nc[i] != #[trigger] nc[i2] by {
        let a = if i < j {
            i
        } else {
            i + 1
        };
        let b = if i2 < j {
            i2
        } else {
            i2 + 1
        };
        assert(nc[i] == c[a]);
        assert(nc[i2] == c[b]);
    }
}


/// `size` rounded up to a multiple of the word size.
pub open spec fn aligned_size(size: int) -> int {
    if size % 8 != 0 {
        size + 8 - size % 8
    } else {
        size
    }
}

/// The number of whole pages that hold `bytes` bytes.
pub open spec fn pages_for(bytes: int) -> int {
    bytes / PAGE_SIZE as int + if bytes % PAGE_SIZE as int != 0 {
        1int
    } else {
        0
    }
}

impl SlabAllocator {
    /// A request for `size` bytes is served from a block page: its size,
    /// rounded up to words, is at most half a page.
    pub open spec fn takes_block(size: int) -> bool {
        aligned_size(size) <= PAGE_SIZE / 2
    }

    /// A request for `size` bytes can be met.
    pub open spec fn can_alloc(&self, size: int) -> bool {
        if Self::takes_block(size) {
            self.can_alloc_block(class_for_size(aligned_size(size)))
        } else {
            self.run_choice(pages_for(aligned_size(size))) is Some
        }
    }

    /// The address that a request for `size` bytes is given.
    pub open spec fn alloc_choice(&self, size: int) -> int {
        if Self::takes_block(size) {
            self.block_choice(class_for_size(aligned_size(size)))
        } else {
            self.run_choice(pages_for(aligned_size(size)))->0 * PAGE_SIZE
        }
    }

    /// `self` is `old` after a request for `size` bytes was answered with
    /// `r`: the address chosen, now handed out with room for `size` bytes,
    /// and nothing else changed; or nothing, where the request could not be
    /// met.
    pub open spec fn allocated_from(&self, old: &SlabAllocator, size: int, r: Option<usize>) -> bool {
        &&& self.page_count() == old.page_count()
        &&& (r is Some) == old.can_alloc(size)
        &&& match r {
            Some(a) => {
                &&& a == old.alloc_choice(size)
                &&& !old.is_live(a as int)
                &&& self.is_live(a as int)
                &&& self.extent(a as int) >= size
                &&& forall|b: int| b != a ==> #[trigger] self.is_live(b) == old.is_live(b)
                &&& self.keeps_contents(old)
                &&& if Self::takes_block(size) {
                    self.took_block(old, class_for_size(aligned_size(size)))
                } else {
                    self.took_run(old, a as int / PAGE_SIZE as int, pages_for(aligned_size(size)))
                }
            },
            None => *self == *old,
        }
    }

    /// `self` is `old` after the memory at `addr` was given back: it is no
    /// longer handed out, and nothing else changed.
    pub open spec fn deallocated_from(&self, old: &SlabAllocator, addr: int) -> bool {
        &&& self.page_count() == old.page_count()
        &&& !self.is_live(addr)
        &&& forall|b: int| b != addr ==> #[trigger] self.is_live(b) == old.is_live(b)
        &&& self.keeps_contents(old)
        &&& if old.is_live_block(addr) {
            self.gave_back_block(old, addr)
        } else {
            self.gave_back_run(old, addr / PAGE_SIZE as int)
        }
    }

    /// Whether a block of size class `k` can be handed out: some page of
    /// the chain of `k` has a free block, or some page is free.
    fn can_alloc_block_now(&self, class: usize, Ghost(k): Ghost<int>) -> (r: bool)
        requires
            self.wf(),
            self.is_ready(),
            3 <= k < SIZE_CLASSES,
            class == k,
        ensures
            r == self.can_alloc_block(k),
    {
        proof {
            assert(self.chain_ok(k)) by {
                reveal(SlabAllocator::inv_chains);
            }
            assert(self.inv_sizes());
        }
        let mut page = self.first_block_pages[class];
        let ghost mut i: int = 0;
        while page != 0
            invariant
                self.wf(),
                self.is_ready(),
                3 <= k < SIZE_CLASSES,
                0 <= i <= self.chain(k).len(),
                page == if i < self.chain(k).len() {
                    self.chain(k)[i] as usize
                } else {
                    0usize
                },
                forall|j: int| 0 <= j < i ==> #[trigger] self.free_list(self.chain(k)[j]).len() == 0,
            decreases self.chain(k).len() - i,
        {
            proof {
                lemma_chain_page(self, k, i);
                lemma_free_offset(self, page as int);
            }
            if self.has_free_blocks(page) {
                proof {
                    lemma_first_open(self, k, i);
                }
                return true;
            }
            page = self.next_pages[page];
            proof {
                i = i + 1;
            }
        }
        proof {
            assert(!self.has_open_page(k)) by {
                if self.has_open_page(k) {
                    let w = choose|w: int|
                        0 <= w < self.chain(k).len() && #[trigger] self.free_list(self.chain(k)[w]).len() > 0;
                    assert(self.free_list(self.chain(k)[w]).len() == 0);
                }
            }
        }
        self.has_free_page_now()
    }

    /// Whether some page is free.
    fn has_free_page_now(&self) -> (r: bool)
        requires
            self.wf(),
            self.is_ready(),
        ensures
            r == self.has_free_page(),
    {
        proof {
            lemma_stored_types(self);
        }
        let mut i: usize = 0;
        while i < self.total_pages
            invariant
                self.page_types@.len() == self.total_pages,
                0 <= i <= self.total_pages,
                forall|q: int| 0 <= q < i ==> #[trigger] self.page_type(q) != PageType::Free,
            decreases self.total_pages - i,
        {
            if self.get_page_type(i) == PageType::Free {
                return true;
            }
            i = i + 1;
        }
        false
    }

    /// Hands out memory for `size` bytes and returns its address: a block
    /// of the smallest power-of-two size, at least a word, that holds the
    /// size rounded up to words, where that is at most half a page; else a
    /// run of whole pages. Returns `None` where no free block or run of
    /// pages can be had.
    pub fn allocate(&mut self, size: usize) -> (r: Option<usize>)
        requires
            old(self).wf(),
            old(self).is_ready(),
            1 <= size,
            size + 7 <= usize::MAX,
        ensures
            final(self).wf(),
            final(self).is_ready(),
            final(self).allocated_from(old(self), size as int, r),
    {
        let target_size = align(size);
        if target_size <= PAGE_SIZE / 2 {
            let ghost k = class_for_size(target_size as int);
            let exp = log2_ceil(target_size);
            let class = if exp < 3 {
                3
            } else {
                exp
            };
            proof {
                vstd::arithmetic::power2::lemma2_to64();
                lemma_bit_length_below((target_size - 1) as nat, 13);
                lemma_bit_length_bounds((target_size - 1) as nat);
                if k > bit_length((target_size - 1) as nat) {
                    vstd::arithmetic::power2::lemma_pow2_strictly_increases(bit_length((target_size - 1) as nat), k as nat);
                }
            }
            if !self.can_alloc_block_now(class, Ghost(k)) {
                return None;
            }
            let addr = self.block_alloc(target_size);
            Some(addr)
        } else {
            let pages = pages_ceil(target_size);
            match self.find_free_run(pages) {
                Some(first_page) => {
                    proof {
                        assert(pages * PAGE_SIZE >= size);
                    }
                    let addr = self.multipage_alloc(pages);
                    Some(addr)
                },
                None => None,
            }
        }
    }

    /// Serves a request for `size` bytes aligned to `align`, as `GlobalAlloc`
    /// asks: as `allocate` does, where `align` divides the word size, since
    /// every block and run starts on a word boundary; a larger alignment is
    /// refused with `None` and nothing changes.
    pub fn allocate_aligned(&mut self, size: usize, align: usize) -> (r: Option<usize>)
        requires
            old(self).wf(),
            old(self).is_ready(),
            1 <= size,
            size + 7 <= usize::MAX,
        ensures
            final(self).wf(),
            final(self).is_ready(),
            supported_align(align as int) ==> final(self).allocated_from(old(self), size as int, r),
            !supported_align(align as int) ==> r is None && *final(self) == *old(self),
            r matches Some(a) ==> a % align == 0,
    {
        if align == 0 || 8 % align != 0 {
            return None;
        }
        let r = self.allocate(size);
        proof {
            if let Some(a) = r {
                lemma_live_word_aligned(self, a as int);
                assert(a % align == 0) by (nonlinear_arith)
                    requires
                        a % 8 == 0,
                        align > 0,
                        8usize % align == 0,
                {
                    assert(align <= 8);
                    assert(align == 1 || align == 2 || align == 4 || align == 8);
                }
            }
        }
        r
    }

    /// Gives back the memory handed out at `addr`: a block goes back on the
    /// free list of its page, a page whose blocks are then all free and the
    /// pages of a run become free.
    pub fn deallocate(&mut self, addr: usize)
        requires
            old(self).wf(),
            old(self).is_ready(),
            old(self).is_live(addr as int),
        ensures
            final(self).wf(),
            final(self).is_ready(),
            final(self).deallocated_from(old(self), addr as int),
    {
        let page = page_by_ptr(addr);
        proof {
            lemma_stored_types(self);
            lemma_page_join(addr as int);
            if self.is_live_run(addr as int) {
                lemma_run_head_type(self, page as int);
            }
            if self.is_live_block(addr as int) {
                lemma_free_offset(self, page as int);
                reveal(SlabAllocator::inv_types);
            }
        }
        if page >= self.total_pages {
            return;
        }
        let page_type = self.get_page_type(page);
        if page_type == PageType::Blocks {
            proof {
                if !self.is_live_block(addr as int) {
                    reveal(SlabAllocator::inv_types);
                    lemma_block_page_not_run(self, page as int);
                }
            }
            self.blocks_dealloc(addr);
        } else if page_type == PageType::Multipage {
            proof {
                if !self.is_live_run(addr as int) {
                    reveal(SlabAllocator::inv_types);
                }
            }
            self.multipage_dealloc(addr);
        }
    }
}

/// The first page of a run is a multipage page.
proof fn lemma_run_head_type(s: &SlabAllocator, h: int)
    requires
        s.wf(),
        s.ready,
        s.runs@.contains_key(h),
    ensures
        0 <= h < s.total_pages,
        s.page_type(h) == PageType::Multipage,
{
    reveal(SlabAllocator::inv_multipage);
    assert(s.run_ok(h));
    assert(s.run_page_ok(h, h));
}


/// What is handed out lies inside the pages: each allocation starts at a
/// byte of the pages and all of its bytes are bytes of the pages.
pub proof fn law_live_in_memory(s: &SlabAllocator, a: int)
    requires
        s.wf(),
        s.is_ready(),
        s.is_live(a),
    ensures
        0 <= a,
        s.extent(a) > 0,
        a + s.extent(a) <= s.page_count() * PAGE_SIZE,
{
    lemma_page_join(a);
    let p = a / PAGE_SIZE as int;
    if s.is_live_block(a) {
        lemma_free_offset(s, p);
        let k = s.classes@[p];
        lemma_class_facts(k);
        lemma_block_in_page(k, a % PAGE_SIZE as int);
        lemma_page_in_memory(p, s.total_pages as int);
    } else {
        reveal(SlabAllocator::inv_multipage);
        assert(s.run_ok(p));
        let n = s.runs@[p];
        assert((p + n) * PAGE_SIZE <= s.total_pages * PAGE_SIZE) by (nonlinear_arith)
            requires
                p + n <= s.total_pages,
        ;
        assert(n * PAGE_SIZE > 0) by (nonlinear_arith)
            requires
                n >= 1,
        ;
    }
}

/// Two different allocations do not overlap.
pub proof fn law_live_disjoint(s: &SlabAllocator, a: int, b: int)
    requires
        s.wf(),
        s.is_ready(),
        s.is_live(a),
        s.is_live(b),
        a != b,
    ensures
        a + s.extent(a) <= b || b + s.extent(b) <= a,
{
    if a < b {
        lemma_ordered_disjoint(s, a, b);
    } else {
        lemma_ordered_disjoint(s, b, a);
    }
}

/// The allocation at `a` ends before one at a higher address starts.
proof fn lemma_ordered_disjoint(s: &SlabAllocator, a: int, b: int)
    requires
        s.wf(),
        s.is_ready(),
        s.is_live(a),
        s.is_live(b),
        a < b,
    ensures
        a + s.extent(a) <= b,
{
    lemma_page_join(a);
    lemma_page_join(b);
    let p = a / PAGE_SIZE as int;
    let q = b / PAGE_SIZE as int;
    let oa = a % PAGE_SIZE as int;
    let ob = b % PAGE_SIZE as int;
    assert(p <= q) by {
        if p > q {
            assert(p * PAGE_SIZE >= (q + 1) * PAGE_SIZE) by (nonlinear_arith)
                requires
                    p >= q + 1,
            ;
        }
    }
    if s.is_live_block(a) {
        lemma_free_offset(s, p);
        let k = s.classes@[p];
        lemma_class_facts(k);
        lemma_block_in_page(k, oa);
        if p == q {
            if s.is_live_block(b) {
                lemma_blocks_apart(k, oa, ob);
            } else {
                lemma_block_page_not_run(s, p);
            }
        } else {
            assert((p + 1) * PAGE_SIZE <= q * PAGE_SIZE) by (nonlinear_arith)
                requires
                    p + 1 <= q,
            ;
        }
    } else {
        reveal(SlabAllocator::inv_multipage);
        reveal(SlabAllocator::inv_types);
        assert(s.run_ok(p));
        let n = s.runs@[p];
        assert(oa == 0);
        if q < p + n {
            assert(s.run_page_ok(p, q));
            if s.is_live_block(b) {
                assert(s.page_type(q) == PageType::Blocks);
            } else {
                assert(s.runs@.contains_key(q));
                assert(q != p) by {
                    if q == p {
                        assert(ob == 0);
                    }
                }
                assert(p + n <= q || q + s.runs@[q] <= p);
            }
        }
        assert((p + n) * PAGE_SIZE <= q * PAGE_SIZE) by (nonlinear_arith)
            requires
                p + n <= q,
        ;
        assert(p * PAGE_SIZE + n * PAGE_SIZE == (p + n) * PAGE_SIZE) by (nonlinear_arith);
    }
}

/// Handing out memory and giving it back leaves handed out exactly what
/// was handed out before.
pub proof fn law_alloc_then_dealloc_restores(
    s0: &SlabAllocator,
    s1: &SlabAllocator,
    s2: &SlabAllocator,
    size: int,
    a: usize,
)
    requires
        s1.allocated_from(s0, size, Some(a)),
        s2.deallocated_from(s1, a as int),
    ensures
        forall|b: int| #[trigger] s2.is_live(b) == s0.is_live(b),
{
    assert forall|b: int| #[trigger] s2.is_live(b) == s0.is_live(b) by {
        if b == a {
            assert(!s0.is_live(a as int));
        } else {
            assert(s2.is_live(b) == s1.is_live(b));
            assert(s1.is_live(b) == s0.is_live(b));
        }
    }
}


impl SlabAllocator {
    /// The page that page `page_index` links to.
    pub fn get_next_page(&self, page_index: usize) -> (r: usize)
        requires
            self.wf(),
            self.is_ready(),
            page_index < self.page_count(),
        ensures
            r == self.next_page(page_index as int),
    {
        proof {
            assert(self.inv_sizes());
        }
        self.next_pages[page_index]
    }

    /// The offset of the first free block of page `page_index`, or
    /// `usize::MAX` where a block page has none.
    pub fn get_free_block_offset(&self, page_index: usize) -> (r: usize)
        requires
            self.wf(),
            self.is_ready(),
            page_index < self.page_count(),
        ensures
            self.is_block_page(page_index as int) ==> r == if self.free_list(page_index as int).len() == 0 {
                usize::MAX as int
            } else {
                self.free_list(page_index as int)[0]
            },
    {
        proof {
            assert(self.inv_sizes());
            if self.classes@.contains_key(page_index as int) {
                lemma_free_offset(self, page_index as int);
            }
        }
        self.free_block_offsets[page_index]
    }

    /// The number of blocks handed out from page `page_index`.
    pub fn get_total_blocks_allocated(&self, page_index: usize) -> (r: usize)
        requires
            self.wf(),
            self.is_ready(),
            page_index < self.page_count(),
        ensures
            r == self.allocated_on(page_index as int),
            self.is_block_page(page_index as int) ==> r + self.free_list(page_index as int).len()
                == class_block_count(self.class_of(page_index as int)),
            !self.is_block_page(page_index as int) ==> r == 0,
    {
        proof {
            assert(self.inv_sizes());
            reveal(SlabAllocator::inv_types);
            if self.classes@.contains_key(page_index as int) {
                lemma_free_offset(self, page_index as int);
            } else {
                assert(self.page_type(page_index as int) != PageType::Blocks);
            }
        }
        self.blocks_allocated[page_index]
    }

    /// The first page of size class `class`, or 0 where it has none.
    pub fn get_first_block_page_index(&self, class: usize) -> (r: usize)
        requires
            self.wf(),
            self.is_ready(),
            class < SIZE_CLASSES,
        ensures
            r == if self.chain(class as int).len() == 0 {
                0
            } else {
                self.chain(class as int)[0]
            },
    {
        proof {
            assert(self.inv_sizes());
            assert(self.chain_ok(class as int)) by {
                reveal(SlabAllocator::inv_chains);
            }
        }
        self.first_block_pages[class]
    }

    /// The size of the blocks of block page `page`, found by following the
    /// chain of each size class from its first page.
    pub fn block_size_by_page(&self, page: usize) -> (r: usize)
        requires
            self.wf(),
            self.is_ready(),
            self.is_block_page(page as int),
            page > 0,
        ensures
            r == class_block_size(self.class_of(page as int)),
    {
        let ghost k = self.classes@[page as int];
        proof {
            lemma_chained(self, page as int);
            lemma_free_offset(self, page as int);
            assert(self.inv_sizes());
        }
        let mut class: usize = 0;
        while class < SIZE_CLASSES
            invariant
                self.wf(),
                self.is_ready(),
                self.classes@.contains_key(page as int),
                k == self.classes@[page as int],
                self.block_page_ok(page as int),
                self.chained(page as int),
                self.inv_sizes(),
                0 <= class <= k,
            decreases SIZE_CLASSES - class,
        {
            proof {
                assert(self.chain_ok(class as int)) by {
                    reveal(SlabAllocator::inv_chains);
                }
            }
            let mut p = self.first_block_pages[class];
            let ghost mut i: int = 0;
            while p != 0
                invariant
                    self.wf(),
                    self.is_ready(),
                    self.classes@.contains_key(page as int),
                    k == self.classes@[page as int],
                    self.block_page_ok(page as int),
                    self.chained(page as int),
                    self.inv_sizes(),
                    0 <= class <= k,
                    class < SIZE_CLASSES,
                    0 <= i <= self.chain(class as int).len(),
                    p == if i < self.chain(class as int).len() {
                        self.chain(class as int)[i] as usize
                    } else {
                        0usize
                    },
                    forall|j: int| 0 <= j < i ==> #[trigger] self.chain(class as int)[j] != page,
                decreases self.chain(class as int).len() - i,
            {
                proof {
                    lemma_chain_page(self, class as int, i);
                }
                if p == page {
                    proof {
                        vstd::arithmetic::power2::lemma2_to64();
                    }
                    return power_of_two(class);
                }
                p = self.next_pages[p];
                proof {
                    i = i + 1;
                }
            }
            proof {
                if class == k {
                    let j = self.chain_index(page as int);
                    assert(self.chain(class as int)[j] == page);
                }
            }
            class = class + 1;
        }
        proof {
            assert(false);
        }
        0
    }
}


/// What handing out a run changes, over the accessors.
proof fn lemma_took_run_effect(old_s: &SlabAllocator, s: &SlabAllocator, first: int, n: int)
    requires
        s.took_run_of(old_s, first, n),
    ensures
        s.took_run(old_s, first, n),
{
    assert forall|q: int| first <= q < first + n implies #[trigger] s.page_type(q) == PageType::Multipage by {
        assert(s.page_types@[q] == 2);
    }
    assert forall|q: int| 0 <= q < old_s.page_count() && !(first <= q < first + n) implies #[trigger] s.page_type(q)
        == old_s.page_type(q) by {
        assert(s.page_types@[q] == old_s.page_types@[q]);
    }
}

/// What giving back a run changes, over the accessors.
proof fn lemma_freed_run_effect(old_s: &SlabAllocator, s: &SlabAllocator, h: int)
    requires
        s.freed_run_of(old_s, h),
    ensures
        s.gave_back_run(old_s, h),
{
    reveal(SlabAllocator::inv_multipage);
    assert(old_s.run_ok(h));
    let n = old_s.runs@[h];
    assert forall|q: int| h <= q < h + n implies #[trigger] s.page_type(q) == PageType::Free by {
        assert(s.page_types@[q] == 0);
    }
    assert forall|q: int| 0 <= q < old_s.page_count() && !(h <= q < h + n) implies #[trigger] s.page_type(q)
        == old_s.page_type(q) by {
        assert(s.page_types@[q] == old_s.page_types@[q]);
    }
}

/// What putting a block back on its page changes, over the accessors.
proof fn lemma_pushed_effect(old_s: &SlabAllocator, s: &SlabAllocator, p: int, off: int)
    requires
        s.pushed_of(old_s, p, off),
        s.blocks_allocated@[p] != 0,
    ensures
        s.gave_back_block(old_s, p * PAGE_SIZE + off),
{
    lemma_page_split(p, off);
    lemma_free_offset(old_s, p);
    assert(old_s.inv_sizes());
    assert(old_s.allocated_on(p) != 1);
}

/// What giving back a block page's last block changes, over the accessors.
proof fn lemma_released_effect(old_s: &SlabAllocator, mid: &SlabAllocator, s: &SlabAllocator, p: int, off: int)
    requires
        mid.pushed_of(old_s, p, off),
        s.released_of(mid, p),
    ensures
        s.gave_back_block(old_s, p * PAGE_SIZE + off),
{
    lemma_page_split(p, off);
    lemma_free_offset(old_s, p);
    assert(old_s.inv_sizes());
    assert(old_s.allocated_on(p) == 1);
    assert(mid.chain_index(p) == old_s.chain_index(p));
    assert(s.page_types@[p] == 0);
    assert forall|kk: int| 0 <= kk < SIZE_CLASSES implies #[trigger] s.chain(kk) == if p > 0 && kk == old_s.class_of(p) {
        old_s.chain(old_s.class_of(p)).remove(old_s.chain_index(p))
    } else {
        old_s.chain(kk)
    } by {}
}


/// The free blocks of a block page are linked through their first word:
/// each holds the offset of the next free block, the last one
/// `usize::MAX`.
pub proof fn law_free_blocks_linked(s: &SlabAllocator, p: int, i: int)
    requires
        s.wf(),
        s.is_ready(),
        s.is_block_page(p),
        0 <= i < s.free_list(p).len(),
    ensures
        s.memory_word(p * PAGE_SIZE + s.free_list(p)[i]) == if i + 1 < s.free_list(p).len() {
            s.free_list(p)[i + 1]
        } else {
            usize::MAX as int
        },
{
    lemma_free_offset(s, p);
}


/// Memory handed out lies outside every free page.
proof fn lemma_live_outside_free_page(s: &SlabAllocator, b: int, q: int)
    requires
        s.wf(),
        s.is_ready(),
        s.is_live(b),
        0 <= q < s.page_count(),
        s.page_type(q) == PageType::Free,
    ensures
        b + s.extent(b) <= q * PAGE_SIZE || (q + 1) * PAGE_SIZE <= b,
{
    lemma_page_join(b);
    let p = b / PAGE_SIZE as int;
    if s.is_live_block(b) {
        lemma_free_offset(s, p);
        reveal(SlabAllocator::inv_types);
        let k = s.classes@[p];
        lemma_block_in_page(k, b % PAGE_SIZE as int);
        assert(p != q);
        if p < q {
            assert((p + 1) * PAGE_SIZE <= q * PAGE_SIZE) by (nonlinear_arith)
                requires
                    p + 1 <= q,
            ;
        } else {
            assert((q + 1) * PAGE_SIZE <= p * PAGE_SIZE) by (nonlinear_arith)
                requires
                    q + 1 <= p,
            ;
        }
    } else {
        reveal(SlabAllocator::inv_multipage);
        assert(s.run_ok(p));
        let n = s.runs@[p];
        if p <= q < p + n {
            assert(s.run_page_ok(p, q));
        }
        if q < p {
            assert((q + 1) * PAGE_SIZE <= p * PAGE_SIZE) by (nonlinear_arith)
                requires
                    q + 1 <= p,
            ;
        } else {
            assert((p + n) * PAGE_SIZE <= q * PAGE_SIZE) by (nonlinear_arith)
                requires
                    p + n <= q,
            ;
            assert(p * PAGE_SIZE + n * PAGE_SIZE == (p + n) * PAGE_SIZE) by (nonlinear_arith);
        }
    }
}

/// Laying out a fresh page and handing out a block leaves the contents of
/// memory handed out before as they were.
proof fn lemma_keeps_fresh(old_s: &SlabAllocator, s: &SlabAllocator, k: int, page: int)
    requires
        old_s.wf(),
        old_s.ready,
        0 <= page < old_s.total_pages,
        s.memory_same_outside(old_s, page * PAGE_SIZE, (page + 1) * PAGE_SIZE),
        old_s.has_open_page(k) ==> s.memory == old_s.memory,
        !old_s.has_open_page(k) ==> old_s.page_type(page) == PageType::Free,
    ensures
        s.keeps_contents(old_s),
{
    assert forall|b: int, w: int|
        #![trigger old_s.is_live(b), s.memory_word(w)]
        old_s.is_live(b) && s.is_live(b) && b <= w && w + 8 <= b + old_s.extent(b) implies s.memory_word(w)
        == old_s.memory_word(w) by {
        if !old_s.has_open_page(k) {
            law_live_in_memory(old_s, b);
            lemma_live_outside_free_page(old_s, b, page);
            assert(old_s.inv_sizes());
        }
    }
}

/// Putting a block back on its page leaves the contents of every other
/// allocation as they were.
proof fn lemma_keeps_push(old_s: &SlabAllocator, mid: &SlabAllocator, p: int, off: int)
    requires
        mid.pushed_of(old_s, p, off),
    ensures
        forall|b: int, w: int|
            #![trigger old_s.is_live(b), mid.memory_word(w)]
            old_s.is_live(b) && b != p * PAGE_SIZE + off && b <= w && w + 8 <= b + old_s.extent(b)
                ==> mid.memory_word(w) == old_s.memory_word(w),
{
    let a = p * PAGE_SIZE + off;
    lemma_page_split(p, off);
    lemma_free_offset(old_s, p);
    lemma_class_facts(old_s.classes@[p]);
    assert(old_s.is_live(a));
    assert forall|b: int, w: int|
        #![trigger old_s.is_live(b), mid.memory_word(w)]
        old_s.is_live(b) && b != a && b <= w && w + 8 <= b + old_s.extent(b) implies mid.memory_word(w)
        == old_s.memory_word(w) by {
        law_live_disjoint(old_s, a, b);
        law_live_in_memory(old_s, b);
        law_live_in_memory(old_s, a);
        assert(old_s.inv_sizes());
        assert(old_s.extent(a) >= 8);
    }
}


impl SlabAllocator {
    /// The word at `addr` lies whole inside some memory that is handed out.
    pub open spec fn in_live(&self, addr: int) -> bool {
        exists|b: int| #[trigger] self.is_live(b) && b <= addr && addr + 8 <= b + self.extent(b)
    }

    /// Reads the word at `addr`, inside memory that is handed out.
    pub fn read_word_at(&self, addr: usize) -> (w: usize)
        requires
            self.wf(),
            self.is_ready(),
            self.in_live(addr as int),
        ensures
            w == self.memory_word(addr as int),
    {
        proof {
            let b = choose|b: int| #[trigger] self.is_live(b) && b <= addr && addr + 8 <= b + self.extent(b);
            law_live_in_memory(self, b);
            assert(self.inv_sizes());
        }
        self.memory.read_word(addr)
    }

    /// Stores `word` at `addr`, inside memory that is handed out; nothing
    /// else changes.
    pub fn write_word_at(&mut self, addr: usize, word: usize)
        requires
            old(self).wf(),
            old(self).is_ready(),
            old(self).in_live(addr as int),
        ensures
            final(self).wf(),
            final(self).is_ready(),
            final(self).page_count() == old(self).page_count(),
            final(self).memory_word(addr as int) == word,
            forall|w: int|
                0 <= w && w + 8 <= final(self).page_count() * PAGE_SIZE && (w + 8 <= addr || addr + 8 <= w)
                    ==> #[trigger] final(self).memory_word(w) == old(self).memory_word(w),
            forall|a: int| #[trigger] final(self).is_live(a) == old(self).is_live(a),
            forall|a: int| #[trigger] final(self).extent(a) == old(self).extent(a),
            forall|p: int| #[trigger] final(self).free_list(p) == old(self).free_list(p),
            forall|p: int| #[trigger] final(self).page_type(p) == old(self).page_type(p),
            forall|k: int| #[trigger] final(self).chain(k) == old(self).chain(k),
            final(self).runs() == old(self).runs(),
    {
        let ghost b = choose|b: int| #[trigger] self.is_live(b) && b <= addr && addr + 8 <= b + self.extent(b);
        proof {
            law_live_in_memory(self, b);
            assert(self.inv_sizes());
        }
        self.memory.write_word(addr, word);
        proof {
            lemma_written(old(self), self, addr as int, b);
        }
    }
}

/// The link word of a free block lies outside every allocation.
proof fn lemma_free_word_outside_live(s: &SlabAllocator, q: int, o: int, b: int)
    requires
        s.wf(),
        s.is_ready(),
        s.classes@.contains_key(q),
        s.free_lists@[q].contains(o),
        s.is_live(b),
    ensures
        q * PAGE_SIZE + o + 8 <= b || b + s.extent(b) <= q * PAGE_SIZE + o,
{
    lemma_free_offset(s, q);
    let k = s.classes@[q];
    lemma_class_facts(k);
    lemma_block_in_page(k, o);
    lemma_page_join(b);
    let p = b / PAGE_SIZE as int;
    let ob = b % PAGE_SIZE as int;
    if s.is_live_block(b) {
        lemma_free_offset(s, p);
        let kb = s.classes@[p];
        lemma_block_in_page(kb, ob);
        if p == q {
            assert(ob != o);
            lemma_blocks_apart(k, o, ob);
        } else if p < q {
            assert((p + 1) * PAGE_SIZE <= q * PAGE_SIZE) by (nonlinear_arith)
                requires
                    p + 1 <= q,
            ;
        } else {
            assert((q + 1) * PAGE_SIZE <= p * PAGE_SIZE) by (nonlinear_arith)
                requires
                    q + 1 <= p,
            ;
        }
    } else {
        reveal(SlabAllocator::inv_multipage);
        reveal(SlabAllocator::inv_types);
        assert(s.run_ok(p));
        let n = s.runs@[p];
        if p <= q < p + n {
            assert(s.run_page_ok(p, q));
        }
        if q < p {
            assert((q + 1) * PAGE_SIZE <= p * PAGE_SIZE) by (nonlinear_arith)
                requires
                    q + 1 <= p,
            ;
        } else {
            assert((p + n) * PAGE_SIZE <= q * PAGE_SIZE) by (nonlinear_arith)
                requires
                    p + n <= q,
            ;
            assert(p * PAGE_SIZE + n * PAGE_SIZE == (p + n) * PAGE_SIZE) by (nonlinear_arith);
        }
    }
}

/// Writing a word inside an allocation keeps the invariant.
proof fn lemma_written(old_s: &SlabAllocator, s: &SlabAllocator, addr: int, b: int)
    requires
        old_s.wf(),
        old_s.ready,
        old_s.is_live(b),
        b <= addr,
        addr + 8 <= b + old_s.extent(b),
        s.ready == old_s.ready,
        s.total_pages == old_s.total_pages,
        s.page_types == old_s.page_types,
        s.next_pages == old_s.next_pages,
        s.free_block_offsets == old_s.free_block_offsets,
        s.first_block_pages == old_s.first_block_pages,
        s.blocks_allocated == old_s.blocks_allocated,
        s.free_lists == old_s.free_lists,
        s.classes == old_s.classes,
        s.chains == old_s.chains,
        s.runs == old_s.runs,
        s.memory@.len() == old_s.memory@.len(),
        forall|w: int|
            old_s.memory.holds_word(w) && (w + 8 <= addr || addr + 8 <= w) ==> #[trigger] s.memory.word_at(w)
                == old_s.memory.word_at(w),
    ensures
        s.wf(),
{
    assert(old_s.inv_sizes());
    assert(s.inv_sizes());
    assert(s.inv_types()) by {
        reveal(SlabAllocator::inv_types);
        assert forall|q: int| 0 <= q < s.total_pages implies #[trigger] s.page_type(q) == old_s.page_type(q) by {}
    }
    assert(s.inv_chains(-1)) by {
        reveal(SlabAllocator::inv_chains);
        assert forall|k: int| 0 <= k < SIZE_CLASSES implies #[trigger] s.chain_ok(k) by {
            assert(old_s.chain_ok(k));
        }
        assert forall|q: int| 0 < q && q != -1 && #[trigger] s.classes@.contains_key(q) implies s.chained(q) by {
            assert(old_s.chained(q));
        }
    }
    assert(s.inv_multipage()) by {
        reveal(SlabAllocator::inv_multipage);
        assert forall|h: int| #[trigger] s.runs@.contains_key(h) implies s.run_ok(h) by {
            assert(old_s.run_ok(h));
            assert forall|q: int| h <= q < h + s.runs@[h] implies #[trigger] s.run_page_ok(h, q) by {
                assert(old_s.run_page_ok(h, q));
            }
        }
    }
    assert(s.inv_block_pages()) by {
        reveal(SlabAllocator::inv_block_pages);
        assert forall|q: int| #[trigger] s.classes@.contains_key(q) implies s.free_lists@.contains_key(q)
            && s.block_page_ok(q) by {
            assert(old_s.block_page_ok(q));
            let f = old_s.free_lists@[q];
            lemma_free_offset(old_s, q);
            lemma_page_in_memory(q, old_s.total_pages as int);
            assert forall|i: int| 0 <= i < f.len() implies s.memory.word_at(q * PAGE_SIZE + #[trigger] f[i]) == if i
                + 1 < f.len() {
                f[i + 1]
            } else {
                usize::MAX as int
            } by {
                assert(f.contains(f[i]));
                lemma_free_word_outside_live(old_s, q, f[i], b);
                lemma_block_in_page(old_s.classes@[q], f[i]);
            }
        }
    }
}


/// The pages of a run are multipage pages, each linked to the next page of
/// the run and the last one to `usize::MAX`.
pub proof fn law_run_links(s: &SlabAllocator, h: int, q: int)
    requires
        s.wf(),
        s.is_ready(),
        s.runs().contains_key(h),
        h <= q < h + s.runs()[h],
    ensures
        0 <= q < s.page_count(),
        s.page_type(q) == PageType::Multipage,
        s.next_page(q) == run_link(h, s.runs()[h], q),
{
    reveal(SlabAllocator::inv_multipage);
    assert(s.run_ok(h));
    assert(s.run_page_ok(h, q));
}

/// The pages of the chain of a size class are block pages of that class,
/// other than page 0, each linked to the next page of the chain and the
/// last one to 0.
pub proof fn law_chain_links(s: &SlabAllocator, k: int, i: int)
    requires
        s.wf(),
        s.is_ready(),
        0 <= k < SIZE_CLASSES,
        0 <= i < s.chain(k).len(),
    ensures
        0 < s.chain(k)[i] < s.page_count(),
        s.is_block_page(s.chain(k)[i]),
        s.class_of(s.chain(k)[i]) == k,
        s.next_page(s.chain(k)[i]) == if i + 1 < s.chain(k).len() {
            s.chain(k)[i + 1]
        } else {
            0
        },
{
    lemma_chain_page(s, k, i);
}

} // verus!
