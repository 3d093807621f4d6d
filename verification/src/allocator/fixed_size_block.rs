//! A fixed-size-block allocator: one list of free blocks for each of a few
//! block sizes, and a general-purpose heap behind them.
//!
//! A request is rounded up to the smallest block size that holds it and
//! served from the list of that size. Where the list is empty, a fresh block
//! of that size comes from the fallback heap. A request that no block size
//! holds goes to the fallback heap as it is. Released blocks of a block size
//! go onto their list and never back to the fallback heap.

use vstd::prelude::*;
use vstd::arithmetic::power2::{is_pow2, lemma2_to64};
use linked_list_allocator::Heap;
use std::alloc::Layout;
use vstd::set_lib::{lemma_int_range, lemma_len_subset, set_int_range};
use crate::allocator::{
    align_up, checked_align_up, is_layout, lemma_align_up_is_least, lemma_aligned_to_smaller,
    lemma_is_pow2, lemma_pow2_positive, spec_align_up, Request,
};

verus! {

/// The block sizes to use.
///
/// The sizes must each be a power of 2 because they are also used as the
/// block alignment (alignments must be always powers of 2).
pub const BLOCK_SIZES: [usize; 9] = [8, 16, 32, 64, 128, 256, 512, 1024, 2048];

/// Number of bytes that a node of a free list takes up in the block that it
/// describes. No block size is smaller.
pub const NODE_SIZE: usize = 8;

/// Alignment of a node of a free list. Every block size is a multiple of
/// it.
pub const NODE_ALIGN: usize = 8;

/// The fallback heap of the `linked_list_allocator` crate.
#[verifier::external_type_specification]
#[verifier::external_body]
pub struct ExHeap(Heap);

/// The addresses that a fallback heap holds as free memory.
pub uninterp spec fn heap_free(heap: Heap) -> Set<int>;

/// The first address of the memory that a fallback heap manages.
pub uninterp spec fn heap_bottom(heap: Heap) -> usize;

/// The number of bytes that a fallback heap manages.
pub uninterp spec fn heap_size(heap: Heap) -> usize;

/// The first address behind the memory that a fallback heap manages. It may
/// exceed `usize::MAX`.
pub open spec fn heap_limit(heap: Heap) -> int {
    heap_bottom(heap) + heap_size(heap)
}

/// What the first-fit search of a fallback heap yields for a request of
/// `size` bytes with alignment `align`: the address of a block, or an error
/// where the heap has no such block.
pub uninterp spec fn heap_first_fit(heap: Heap, size: usize, align: usize) -> Result<usize, ()>;

/// The number of bytes in a machine word.
pub open spec fn spec_word() -> int {
    usize::BITS as int / 8
}

/// The number of bytes that the fallback heap sets aside for a request of
/// `size` bytes: at least two machine words, and a multiple of a machine
/// word.
pub open spec fn spec_chunk_size(size: usize) -> int {
    spec_align_up(
        if size < 2 * spec_word() {
            2 * spec_word()
        } else {
            size as int
        },
        spec_word(),
    )
}

/// Whether the fallback heap takes a request for `size` bytes with alignment
/// `align`: both make a layout, and so do the number of bytes that the heap
/// sets aside and `align`.
pub open spec fn fallback_accepts(size: usize, align: usize) -> bool {
    &&& is_layout(size, align)
    &&& spec_chunk_size(size) <= isize::MAX
    &&& is_layout(spec_chunk_size(size) as usize, align)
}

/// Whether a fallback heap with the free memory `free` can look for a block
/// of `size` bytes with alignment `align` without leaving the address space:
/// from every free address on there is room for the block, its alignment
/// and a node of the heap's own list.
pub open spec fn in_reach(free: Set<int>, size: usize, align: usize) -> bool {
    forall|x: int|
        free.contains(x) ==> x + 2 * spec_word() + align + spec_chunk_size(size) <= usize::MAX
}

/// The number of bytes that the search of a fallback heap for a block of
/// `size` bytes with alignment `align` may add to the first address behind
/// the heap's memory: two machine words by which free memory may lie behind
/// that address, the size of a node of the heap, `align`, and the number of
/// bytes that the heap sets aside.
pub open spec fn spec_room(size: usize, align: usize) -> int {
    4 * spec_word() + align + spec_chunk_size(size)
}

/// Whether the allocator asks the fallback heap `heap` for a block of `size`
/// bytes with alignment `align`. It does so unless the search could panic or
/// leave the address space: the heap must take the request, and what the
/// search may add must fit behind the memory that the heap manages.
pub open spec fn fallback_asked(heap: Heap, size: usize, align: usize) -> bool {
    &&& fallback_accepts(size, align)
    &&& heap_limit(heap) + spec_room(size, align) <= usize::MAX
}

/// The block that a request to the fallback heap `heap` yields: what the
/// search of the heap yields where the heap is asked, and none where it is
/// not.
pub open spec fn spec_fallback_block(heap: Heap, size: usize, align: usize) -> Option<usize> {
    if fallback_asked(heap, size, align) {
        spec_block_of(heap_first_fit(heap, size, align))
    } else {
        None
    }
}

/// The block that the search of the fallback heap found, if it found one.
pub open spec fn spec_block_of(found: Result<usize, ()>) -> Option<usize> {
    match found {
        Ok(addr) => Some(addr),
        Err(_) => None,
    }
}

/// The block that the search of the fallback heap found, or `None` where
/// the search failed.
pub fn block_of(found: Result<usize, ()>) -> (block: Option<usize>)
    ensures
        block == spec_block_of(found),
{
    match found {
        Ok(addr) => Some(addr),
        Err(_) => None,
    }
}

/// Calls `Heap::empty` of `linked_list_allocator`. Assumed of it, as the
/// crate says: the heap has no free memory.
#[verifier::external_body]
fn heap_empty() -> (heap: Heap)
    ensures
        heap_free(heap) == Set::<int>::empty(),
{
    Heap::empty()
}

/// Calls `Heap::bottom` of `linked_list_allocator`, which reads the first
/// address of the memory that the heap manages.
#[verifier::external_body]
fn fallback_bottom(heap: &Heap) -> (bottom: usize)
    ensures
        bottom == heap_bottom(*heap),
{
    heap.bottom()
}

/// Calls `Heap::size` of `linked_list_allocator`, which reads the number of
/// bytes that the heap manages.
///
/// Assumed of it: the free memory of the heap is made of addresses, none
/// below zero, and ends no more than two machine words behind the memory that
/// the heap manages. It can end behind that memory because the heap, where
/// it is extended, frees at least two words and a whole number of words,
/// and counts only the bytes that it was extended by.
#[verifier::external_body]
fn fallback_size(heap: &Heap) -> (size: usize)
    ensures
        size == heap_size(*heap),
        forall|x: int|
            heap_free(*heap).contains(x) ==> 0 <= x < heap_bottom(*heap) + size + 2 * spec_word(),
{
    heap.size()
}

/// Calls `Heap::allocate_first_fit` of `linked_list_allocator` with the
/// layout of `size` and `align`, and hands on the address of the block that
/// it yields.
///
/// The crate panics where the size that it rounds the request up to makes
/// no layout with `align`, and its search adds that size, `align` and the
/// size of a node to the addresses of its nodes without a check: the
/// conditions leave both out, for the nodes that lie in free memory and for
/// those that lie no further than two words behind the heap's memory.
///
/// Assumed of it: what it yields is a matter of the heap and the layout
/// alone. The heap gains no free memory, and a request that fails leaves
/// its free memory as it was. A block that it yields does not start at
/// address zero, starts at a multiple of `align`, and lies, with all the
/// bytes that the heap sets aside for it, in memory that was free in the
/// heap and is so no more.
#[verifier::external_body]
fn heap_allocate_first_fit(heap: &mut Heap, size: usize, align: usize) -> (found: Result<
    usize,
    (),
>)
    requires
        fallback_asked(*old(heap), size, align),
        in_reach(heap_free(*old(heap)), size, align),
    ensures
        found == heap_first_fit(*old(heap), size, align),
        heap_free(*final(heap)).subset_of(heap_free(*old(heap))),
        found is Err ==> heap_free(*final(heap)) == heap_free(*old(heap)),
        found matches Ok(addr) ==> {
            &&& addr != 0
            &&& addr as int % align as int == 0
            &&& forall|x: int|
                addr <= x < addr + spec_chunk_size(size) ==> heap_free(*old(heap)).contains(x)
                    && !heap_free(*final(heap)).contains(x)
        },
{
    let layout = Layout::from_size_align(size, align).unwrap();
    match heap.allocate_first_fit(layout) {
        Ok(ptr) => Ok(ptr.as_ptr() as usize),
        Err(_) => Err(()),
    }
}

/// The index of the first block size from index `from` on that is at least
/// `required`.
pub open spec fn spec_index_from(required: usize, from: nat) -> Option<usize>
    decreases BLOCK_SIZES.len() - from,
{
    if from >= BLOCK_SIZES.len() {
        None
    } else if BLOCK_SIZES[from as int] >= required {
        Some(from as usize)
    } else {
        spec_index_from(required, from + 1)
    }
}

/// The index of the smallest block size that holds a block of `size` bytes
/// with alignment `align`: the first that is at least as large as both.
pub open spec fn spec_list_index(size: usize, align: usize) -> Option<usize> {
    spec_index_from(if size >= align { size } else { align }, 0)
}

/// The size and alignment of the request that goes to the fallback heap
/// where no free block serves a request for `size` bytes with alignment
/// `align`: a block of the request's block size, aligned to that size, or
/// the request as it is where no block size holds it.
pub open spec fn spec_fallback_request(size: usize, align: usize) -> (usize, usize) {
    match spec_list_index(size, align) {
        Some(index) => (BLOCK_SIZES[index as int], BLOCK_SIZES[index as int]),
        None => (size, align),
    }
}

/// The number of bytes that a request for `size` bytes with alignment
/// `align` takes up: its block size, or what the fallback heap sets aside
/// where no block size holds it.
pub open spec fn spec_extent(size: usize, align: usize) -> int {
    match spec_list_index(size, align) {
        Some(index) => BLOCK_SIZES[index as int] as int,
        None => spec_chunk_size(size),
    }
}

/// The state of a fixed-size-block allocator as plain values.
pub struct State {
    /// The lists of free blocks, one for each block size, each with the
    /// block first that was released last.
    pub buckets: Seq<Seq<usize>>,
    /// The addresses that the fallback heap holds as free memory.
    pub free: Set<int>,
}

impl State {
    /// There is a list for each block size, and every list holds only
    /// blocks that start at a multiple of its block size.
    pub open spec fn wf(self) -> bool {
        &&& self.buckets.len() == BLOCK_SIZES.len()
        &&& forall|i: int, k: int|
            0 <= i < self.buckets.len() && 0 <= k < self.buckets[i].len() ==> (
            #[trigger] self.buckets[i][k]) as int % BLOCK_SIZES[i] as int == 0
    }

    /// Whether `addr` lies in block `k` of list `i`.
    pub open spec fn in_block(self, i: int, k: int, addr: int) -> bool {
        &&& 0 <= i < self.buckets.len()
        &&& 0 <= k < self.buckets[i].len()
        &&& self.buckets[i][k] <= addr < self.buckets[i][k] + BLOCK_SIZES[i]
    }

    /// Whether `addr` can still be handed out: it lies in a free block of a
    /// list or in the free memory of the fallback heap.
    pub open spec fn available(self, addr: int) -> bool {
        self.free.contains(addr) || exists|i: int, k: int| self.in_block(i, k, addr)
    }

    /// No address can be handed out twice: no free block of a list shares
    /// an address with another one or with the free memory of the fallback
    /// heap.
    pub open spec fn separate(self) -> bool {
        &&& forall|i: int, k: int, addr: int| #[trigger]
            self.in_block(i, k, addr) ==> !self.free.contains(addr)
        &&& forall|i: int, k: int, j: int, l: int, addr: int|
            #[trigger] self.in_block(i, k, addr) && #[trigger] self.in_block(j, l, addr) ==> i == j
                && k == l
    }

    /// The number of bytes in the free blocks of the lists from list `from`
    /// on.
    pub open spec fn pooled_bytes_from(self, from: nat) -> int
        decreases BLOCK_SIZES.len() - from,
    {
        if from >= BLOCK_SIZES.len() {
            0
        } else {
            self.buckets[from as int].len() * BLOCK_SIZES[from as int] + self.pooled_bytes_from(
                from + 1,
            )
        }
    }

    /// The number of bytes in the free blocks of all lists.
    pub open spec fn pooled_bytes(self) -> int {
        self.pooled_bytes_from(0)
    }

    /// The free block that serves a request for `size` bytes with alignment
    /// `align`: the first block of the list of its block size.
    pub open spec fn pooled(self, size: usize, align: usize) -> Option<usize> {
        match spec_list_index(size, align) {
            Some(index) => if self.buckets[index as int].len() > 0 {
                Some(self.buckets[index as int][0])
            } else {
                None
            },
            None => None,
        }
    }

    /// The lists after a request for `size` bytes with alignment `align`:
    /// the free block that serves it has left its list.
    pub open spec fn buckets_after_request(self, size: usize, align: usize) -> Seq<Seq<usize>> {
        match spec_list_index(size, align) {
            Some(index) => if self.buckets[index as int].len() > 0 {
                self.buckets.update(index as int, self.buckets[index as int].skip(1))
            } else {
                self.buckets
            },
            None => self.buckets,
        }
    }

    /// Whether a request for `size` bytes with alignment `align` can lead
    /// from this state to the state `after` and yield `block`.
    ///
    /// Where a free block serves the request, it is the block that the
    /// request yields, and the fallback heap is as before. Else the
    /// fallback heap decides. It gains no free memory; where it yields no
    /// block, its free memory is as before; a block that it yields starts at
    /// a multiple of the alignment asked of it, not at address zero, and
    /// lies in memory that was free in it and is so no more.
    pub open spec fn allocates(
        self,
        size: usize,
        align: usize,
        after: State,
        block: Option<usize>,
    ) -> bool {
        &&& after.buckets == self.buckets_after_request(size, align)
        &&& match self.pooled(size, align) {
            Some(addr) => block == Some(addr) && after.free == self.free,
            None => {
                let request = spec_fallback_request(size, align);
                &&& after.free.subset_of(self.free)
                &&& block is None ==> after.free == self.free
                &&& block matches Some(addr) ==> {
                    &&& addr != 0
                    &&& addr as int % request.1 as int == 0
                    &&& forall|x: int|
                        addr <= x < addr + spec_chunk_size(request.0) ==> self.free.contains(x)
                            && !after.free.contains(x)
                }
            },
        }
    }

    /// The state after the block of a request for `size` bytes with
    /// alignment `align` is released at `ptr`: a block of a block size is
    /// the first block of the list of that size.
    pub open spec fn deallocate(self, ptr: usize, size: usize, align: usize) -> State {
        match spec_list_index(size, align) {
            Some(index) => State {
                buckets: self.buckets.update(index as int, seq![ptr] + self.buckets[index as int]),
                ..self
            },
            None => self,
        }
    }
}

/// A node of a list of free blocks. It stands for the record that lies at
/// the start of a free block and holds the link to the next node.
struct ListNode {
    next: Option<Box<ListNode>>,
    /// Where the node lies: the first address of its block.
    addr: usize,
}

/// The blocks of a list of nodes, first node first.
spec fn blocks(head: Option<Box<ListNode>>) -> Seq<usize>
    decreases head,
{
    match head {
        None => Seq::empty(),
        Some(node) => seq![node.addr] + blocks(node.next),
    }
}

/// Where a released block went.
#[derive(Clone, Copy, Debug, PartialEq, Eq, Structural)]
pub enum Released {
    /// Onto the list of its block size.
    Pooled,
    /// Nowhere yet: no block size holds it, so it belongs to the fallback
    /// heap, and it is for the caller to hand it back there.
    Fallback,
}

/// An allocator that keeps free blocks of a few sizes in lists of their
/// own, and gets what the lists do not hold from a fallback heap.
pub struct FixedSizeBlockAllocator {
    list_heads: [Option<Box<ListNode>>; 9],
    fallback_allocator: Heap,
}

impl View for FixedSizeBlockAllocator {
    type V = State;

    closed spec fn view(&self) -> State {
        State {
            buckets: Seq::new(BLOCK_SIZES.len() as nat, |i: int| blocks(self.list_heads[i])),
            free: heap_free(self.fallback_allocator),
        }
    }
}

impl FixedSizeBlockAllocator {
    /// The fallback heap.
    pub closed spec fn fallback(self) -> Heap {
        self.fallback_allocator
    }

    /// Creates an empty FixedSizeBlockAllocator.
    pub fn new() -> (allocator: Self)
        ensures
            allocator@.wf(),
            allocator@.separate(),
            forall|i: int| 0 <= i < BLOCK_SIZES.len() ==> allocator@.buckets[i].len() == 0,
            allocator@.free == Set::<int>::empty(),
    {
        FixedSizeBlockAllocator {
            list_heads: [None, None, None, None, None, None, None, None, None],
            fallback_allocator: heap_empty(),
        }
    }

    /// Initialize the allocator with the given fallback heap, which takes
    /// the place of the one that the allocator had.
    pub fn init(&mut self, heap: Heap)
        ensures
            final(self).fallback() == heap,
            final(self)@.free == heap_free(heap),
            final(self)@.buckets == old(self)@.buckets,
    {
        self.fallback_allocator = heap;
    }

    /// The fallback heap, for what is left to the caller: to hand back to
    /// it the blocks that `deallocate` says are the fallback heap's.
    pub fn fallback_allocator(&mut self) -> (heap: &mut Heap)
        ensures
            *heap == old(self).fallback(),
            final(self).fallback() == *final(heap),
            final(self)@.buckets == old(self)@.buckets,
            final(self)@.free == heap_free(*final(heap)),
    {
        &mut self.fallback_allocator
    }

    /// The number of bytes that the fallback heap sets aside for a request
    /// of `size` bytes with alignment `align`, or `None` where the fallback
    /// heap does not take the request.
    fn chunk_size(size: usize, align: usize) -> (chunk: Option<usize>)
        requires
            is_layout(size, align),
        ensures
            fallback_accepts(size, align) ==> chunk == Some(spec_chunk_size(size) as usize),
            !fallback_accepts(size, align) ==> chunk is None,
    {
        let word: usize = (usize::BITS / 8) as usize;
        proof {
            lemma_word();
            lemma_pow2_positive(align);
            lemma_align_up_is_least(size as int, align as int);
        }
        let least = if size < 2 * word {
            2 * word
        } else {
            size
        };
        let chunk = align_up(least, word);
        proof {
            lemma_align_up_is_least(chunk as int, align as int);
        }
        if chunk > isize::MAX as usize {
            return None;
        }
        match checked_align_up(chunk, align) {
            Some(padded) => if padded <= isize::MAX as usize {
                Some(chunk)
            } else {
                None
            },
            None => None,
        }
    }

    /// Allocates using the fallback allocator: yields the block that the
    /// search of the fallback heap finds, and `None` where it finds none.
    ///
    /// The fallback heap is not asked, and the request fails, where the
    /// heap does not take the request or its search could leave the address
    /// space: see `fallback_asked`. A request for more bytes than the heap
    /// has free fails.
    pub fn fallback_alloc(&mut self, size: usize, align: usize) -> (block: Option<usize>)
        requires
            is_layout(size, align),
        ensures
            block == spec_fallback_block(old(self).fallback(), size, align),
            !fallback_asked(old(self).fallback(), size, align) ==> final(self).fallback() == old(
                self,
            ).fallback(),
            final(self)@.buckets == old(self)@.buckets,
            final(self)@.free.subset_of(old(self)@.free),
            block is None ==> final(self)@.free == old(self)@.free,
            block matches Some(addr) ==> {
                &&& addr != 0
                &&& addr as int % align as int == 0
                &&& forall|x: int|
                    addr <= x < addr + spec_chunk_size(size) ==> old(self)@.free.contains(x)
                        && !final(self)@.free.contains(x)
            },
            fallback_asked(old(self).fallback(), size, align) ==> old(self)@.free.finite(),
            block is Some ==> size <= old(self)@.free.len(),
    {
        let word: usize = (usize::BITS / 8) as usize;
        let chunk = match Self::chunk_size(size, align) {
            Some(chunk) => chunk,
            None => {
                return None;
            },
        };
        // what the search may add to the first address behind the heap
        let room = match (4 * word).checked_add(align) {
            Some(sum) => sum.checked_add(chunk),
            None => None,
        };
        let bottom = fallback_bottom(&self.fallback_allocator);
        let limit = bottom.checked_add(fallback_size(&self.fallback_allocator));
        match (limit, room) {
            (Some(limit), Some(room)) => if limit > usize::MAX - room {
                return None;
            },
            _ => {
                return None;
            },
        }
        proof {
            lemma_word();
            lemma_bounded_is_finite(self@.free, limit.unwrap() + 2 * spec_word());
        }
        let block = block_of(heap_allocate_first_fit(&mut self.fallback_allocator, size, align));
        proof {
            if let Some(addr) = block {
                lemma_block_within(old(self)@.free, addr as int, spec_chunk_size(size));
                lemma_align_up_is_least(
                    if size < 2 * spec_word() {
                        2 * spec_word()
                    } else {
                        size as int
                    },
                    spec_word(),
                );
            }
        }
        block
    }

    /// Choose an appropriate block size for the given layout.
    ///
    /// Returns an index into the `BLOCK_SIZES` array.
    pub fn list_index(size: usize, align: usize) -> (index: Option<usize>)
        ensures
            index == spec_list_index(size, align),
            match index {
                Some(i) => {
                    &&& i < BLOCK_SIZES.len()
                    &&& size <= BLOCK_SIZES[i as int]
                    &&& align <= BLOCK_SIZES[i as int]
                    &&& forall|j: int|
                        0 <= j < i ==> size > #[trigger] BLOCK_SIZES[j] || align > BLOCK_SIZES[j]
                },
                None => forall|j: int|
                    0 <= j < BLOCK_SIZES.len() ==> size > #[trigger] BLOCK_SIZES[j] || align
                        > BLOCK_SIZES[j],
            },
    {
        let required_block_size = if size >= align {
            size
        } else {
            align
        };
        let mut i: usize = 0;
        while i < BLOCK_SIZES.len()
            invariant
                i <= BLOCK_SIZES.len(),
                required_block_size == if size >= align {
                    size
                } else {
                    align
                },
                spec_list_index(size, align) == spec_index_from(required_block_size, i as nat),
                forall|j: int| 0 <= j < i ==> required_block_size > #[trigger] BLOCK_SIZES[j],
            decreases BLOCK_SIZES.len() - i,
        {
            if BLOCK_SIZES[i] >= required_block_size {
                return Some(i);
            }
            i += 1;
        }
        None
    }

    /// Serves a request for `size` bytes with alignment `align`: with the
    /// first block of the list of its block size; where that list is empty,
    /// with a fresh block of that size from the fallback heap; where no
    /// block size holds the request, with a block from the fallback heap
    /// that is as the request asks. Returns `None` where the fallback heap
    /// is asked and has no such block.
    pub fn allocate(&mut self, size: usize, align: usize) -> (block: Option<usize>)
        requires
            old(self)@.wf(),
            is_layout(size, align),
        ensures
            final(self)@.wf(),
            old(self)@.allocates(size, align, final(self)@, block),
            old(self)@.pooled(size, align) is Some ==> final(self).fallback() == old(
                self,
            ).fallback(),
            old(self)@.pooled(size, align) is None ==> block == spec_fallback_block(
                old(self).fallback(),
                spec_fallback_request(size, align).0,
                spec_fallback_request(size, align).1,
            ),
            old(self)@.pooled(size, align) is None && !fallback_asked(
                old(self).fallback(),
                spec_fallback_request(size, align).0,
                spec_fallback_request(size, align).1,
            ) ==> final(self).fallback() == old(self).fallback(),
            block matches Some(addr) ==> addr as int % align as int == 0,
            size > old(self)@.pooled_bytes() + old(self)@.free.len() ==> block is None
                && final(self)@ == old(self)@,
    {
        proof {
            lemma_pooled_bytes_nonnegative(old(self)@, 0);
        }
        match Self::list_index(size, align) {
            Some(index) => {
                proof {
                    lemma_block_size(index as int);
                }
                match self.list_heads[index].take() {
                    Some(node) => {
                        let mut node = node;
                        self.list_heads[index] = node.next.take();
                        proof {
                            let before = old(self)@;
                            let bucket = before.buckets[index as int];
                            let rest = blocks(self.list_heads[index as int]);
                            assert(bucket == seq![node.addr] + rest);
                            assert(bucket.skip(1) =~= rest);
                            assert(self@.buckets =~= before.buckets_after_request(size, align));
                            lemma_aligned_to_smaller(
                                bucket[0] as int,
                                align,
                                BLOCK_SIZES[index as int],
                            );
                            lemma_pop_keeps_wf(before, index as int);
                            lemma_pooled_serves(before, size, align);
                        }
                        Some(node.addr)
                    },
                    None => {
                        proof {
                            assert(self@.buckets =~= old(self)@.buckets);
                        }
                        // no block exists in list => allocate new block
                        let block_size = BLOCK_SIZES[index];
                        // only works if all block sizes are a power of 2
                        let block_align = block_size;
                        let block = self.fallback_alloc(block_size, block_align);
                        proof {
                            if let Some(addr) = block {
                                lemma_aligned_to_smaller(addr as int, align, block_align);
                            } else {
                                assert(self@ =~= old(self)@);
                            }
                        }
                        block
                    },
                }
            },
            None => {
                let block = self.fallback_alloc(size, align);
                proof {
                    if block is None {
                        assert(self@ =~= old(self)@);
                    }
                }
                block
            },
        }
    }

    /// Takes back the block at `ptr` that a request for `size` bytes with
    /// alignment `align` was served with. A block of a block size goes to
    /// the front of the list of that size. Any other block belongs to the
    /// fallback heap: the allocator leaves it alone and says so.
    pub fn deallocate(&mut self, ptr: usize, size: usize, align: usize) -> (released: Released)
        requires
            old(self)@.wf(),
            spec_list_index(size, align) matches Some(index) ==> ptr as int
                % BLOCK_SIZES[index as int] as int == 0,
        ensures
            final(self)@.wf(),
            final(self)@ == old(self)@.deallocate(ptr, size, align),
            final(self).fallback() == old(self).fallback(),
            released == if spec_list_index(size, align) is Some {
                Released::Pooled
            } else {
                Released::Fallback
            },
    {
        match Self::list_index(size, align) {
            Some(index) => {
                proof {
                    lemma_block_size(index as int);
                }
                let new_node = ListNode { next: self.list_heads[index].take(), addr: ptr };
                // the block has the size and alignment that storing a node takes
                assert(NODE_SIZE <= BLOCK_SIZES[index as int]);
                assert(NODE_ALIGN <= BLOCK_SIZES[index as int]);
                self.list_heads[index] = Some(Box::new(new_node));
                proof {
                    let before = old(self)@;
                    let bucket = before.buckets[index as int];
                    assert(self@.buckets[index as int] == seq![ptr] + bucket);
                    assert(self@.buckets =~= before.deallocate(ptr, size, align).buckets);
                    lemma_push_keeps_wf(before, index as int, ptr);
                }
                Released::Pooled
            },
            None => Released::Fallback,
        }
    }
}

/// Every block size is a power of two and can hold a node, and makes a
/// layout with itself as the alignment.
proof fn lemma_block_size(index: int)
    requires
        0 <= index < BLOCK_SIZES.len(),
    ensures
        is_pow2(BLOCK_SIZES[index] as int),
        NODE_SIZE <= BLOCK_SIZES[index] <= 2048,
        is_layout(BLOCK_SIZES[index], BLOCK_SIZES[index]),
{
    lemma2_to64();
    lemma_is_pow2((index + 3) as nat);
    if index == 0 {
        assert(BLOCK_SIZES[index] == 8);
    } else if index == 1 {
        assert(BLOCK_SIZES[index] == 16);
    } else if index == 2 {
        assert(BLOCK_SIZES[index] == 32);
    } else if index == 3 {
        assert(BLOCK_SIZES[index] == 64);
    } else if index == 4 {
        assert(BLOCK_SIZES[index] == 128);
    } else if index == 5 {
        assert(BLOCK_SIZES[index] == 256);
    } else if index == 6 {
        assert(BLOCK_SIZES[index] == 512);
    } else if index == 7 {
        assert(BLOCK_SIZES[index] == 1024);
    } else {
        assert(BLOCK_SIZES[index] == 2048);
    }
}

/// A machine word has four or eight bytes, a power of two.
proof fn lemma_word()
    ensures
        spec_word() == 4 || spec_word() == 8,
        is_pow2(spec_word()),
{
    lemma2_to64();
    lemma_is_pow2(2);
    lemma_is_pow2(3);
}

/// The lists stay well-formed where the first block of a list leaves it.
proof fn lemma_pop_keeps_wf(state: State, index: int)
    requires
        state.wf(),
        0 <= index < BLOCK_SIZES.len(),
        state.buckets[index].len() > 0,
    ensures
        (State {
            buckets: state.buckets.update(index, state.buckets[index].skip(1)),
            ..state
        }).wf(),
{
    let after = state.buckets.update(index, state.buckets[index].skip(1));
    assert forall|i: int, k: int| 0 <= i < after.len() && 0 <= k < after[i].len() implies (
    #[trigger] after[i][k]) as int % BLOCK_SIZES[i] as int == 0 by {
        if i == index {
            assert(after[i][k] == state.buckets[i][k + 1]);
        } else {
            assert(after[i][k] == state.buckets[i][k]);
        }
    }
}

/// The lists stay well-formed where a block that starts at a multiple of a
/// block size joins the list of that size.
proof fn lemma_push_keeps_wf(state: State, index: int, ptr: usize)
    requires
        state.wf(),
        0 <= index < BLOCK_SIZES.len(),
        ptr as int % BLOCK_SIZES[index] as int == 0,
    ensures
        (State {
            buckets: state.buckets.update(index, seq![ptr] + state.buckets[index]),
            ..state
        }).wf(),
{
    let after = state.buckets.update(index, seq![ptr] + state.buckets[index]);
    assert forall|i: int, k: int| 0 <= i < after.len() && 0 <= k < after[i].len() implies (
    #[trigger] after[i][k]) as int % BLOCK_SIZES[i] as int == 0 by {
        if i == index {
            if k > 0 {
                assert(after[i][k] == state.buckets[i][k - 1]);
            }
        } else {
            assert(after[i][k] == state.buckets[i][k]);
        }
    }
}

/// `spec_list_index` yields the index of a block size that is at least as
/// large as the size and the alignment and that no such block size
/// precedes, and `None` where every block size is smaller than one of
/// them.
pub proof fn lemma_list_index(size: usize, align: usize)
    ensures
        match spec_list_index(size, align) {
            Some(index) => {
                &&& index < BLOCK_SIZES.len()
                &&& size <= BLOCK_SIZES[index as int]
                &&& align <= BLOCK_SIZES[index as int]
                &&& forall|j: int|
                    0 <= j < index ==> size > #[trigger] BLOCK_SIZES[j] || align > BLOCK_SIZES[j]
            },
            None => forall|j: int|
                0 <= j < BLOCK_SIZES.len() ==> size > #[trigger] BLOCK_SIZES[j] || align
                    > BLOCK_SIZES[j],
        },
{
    let required = if size >= align {
        size
    } else {
        align
    };
    lemma_index_from(required, 0);
}

proof fn lemma_index_from(required: usize, from: nat)
    requires
        from <= BLOCK_SIZES.len(),
    ensures
        match spec_index_from(required, from) {
            Some(index) => {
                &&& from <= index < BLOCK_SIZES.len()
                &&& required <= BLOCK_SIZES[index as int]
                &&& forall|j: int| from <= j < index ==> required > #[trigger] BLOCK_SIZES[j]
            },
            None => forall|j: int|
                from <= j < BLOCK_SIZES.len() ==> required > #[trigger] BLOCK_SIZES[j],
        },
    decreases BLOCK_SIZES.len() - from,
{
    if from < BLOCK_SIZES.len() && BLOCK_SIZES[from as int] < required {
        lemma_index_from(required, from + 1);
    }
}

/// A request takes up at least one byte and at least as many bytes as it
/// asks for, and no more than the fallback heap sets aside where it is
/// asked.
pub proof fn lemma_extent(size: usize, align: usize)
    ensures
        spec_extent(size, align) >= size,
        spec_extent(size, align) > 0,
        spec_extent(size, align) <= spec_chunk_size(spec_fallback_request(size, align).0),
{
    lemma_list_index(size, align);
    lemma_word();
    let request = spec_fallback_request(size, align).0;
    let least = if request < 2 * spec_word() {
        2 * spec_word()
    } else {
        request as int
    };
    lemma_align_up_is_least(least, spec_word());
    if let Some(index) = spec_list_index(size, align) {
        lemma_block_size(index as int);
    }
}

/// The place in its list that block `k` of list `i` has once list `index`
/// has lost (`by` is -1) or gained (`by` is 1) its first block.
spec fn moved(i: int, k: int, index: int, by: int) -> int {
    if i == index {
        k + by
    } else {
        k
    }
}

/// One request on a well-formed state in which no address can be handed out
/// twice: the state stays so, no address becomes available, and the
/// addresses that the request takes up were available before and are so no
/// more.
pub proof fn lemma_allocation_step(
    before: State,
    size: usize,
    align: usize,
    after: State,
    block: Option<usize>,
)
    requires
        before.wf(),
        before.separate(),
        before.allocates(size, align, after, block),
    ensures
        after.wf(),
        after.separate(),
        forall|x: int| after.available(x) ==> before.available(x),
        block matches Some(addr) ==> forall|x: int|
            addr <= x < addr + spec_extent(size, align) ==> before.available(x)
                && !after.available(x),
{
    lemma_list_index(size, align);
    lemma_extent(size, align);
    // the list that loses its first block, if one does
    let index = if before.pooled(size, align) is Some {
        spec_list_index(size, align).unwrap() as int
    } else {
        -1
    };
    if index >= 0 {
        lemma_pop_keeps_wf(before, index);
    }
    // every free block was a free block before, one place further back in
    // that list
    assert forall|i: int, k: int, x: int| #[trigger]
        after.in_block(i, k, x) implies before.in_block(i, moved(i, k, index, 1), x) by {
        if i == index {
            assert(after.buckets[i][k] == before.buckets[i][k + 1]);
        }
    }
    assert forall|i: int, k: int, j: int, l: int, x: int| #[trigger]
        after.in_block(i, k, x) && #[trigger] after.in_block(j, l, x) implies i == j && k == l by {
        assert(before.in_block(i, moved(i, k, index, 1), x));
        assert(before.in_block(j, moved(j, l, index, 1), x));
    }
    assert forall|x: int| after.available(x) implies before.available(x) by {
        if !after.free.contains(x) {
            let (i, k) = choose|i: int, k: int| after.in_block(i, k, x);
            assert(before.in_block(i, moved(i, k, index, 1), x));
        }
    }
    if let Some(addr) = block {
        assert forall|x: int|
            addr <= x < addr + spec_extent(size, align) implies before.available(x)
            && !after.available(x) by {
            if index >= 0 {
                assert(before.in_block(index, 0, x));
            }
            assert forall|i: int, k: int| !after.in_block(i, k, x) by {
                if after.in_block(i, k, x) {
                    assert(before.in_block(i, moved(i, k, index, 1), x));
                }
            }
        }
    }
}

/// A release keeps the state well-formed and lets no address be handed out
/// twice, where the block starts at a multiple of its block size and none of
/// its addresses was available.
pub proof fn lemma_release_step(state: State, ptr: usize, size: usize, align: usize)
    requires
        state.wf(),
        state.separate(),
        spec_list_index(size, align) matches Some(index) ==> ptr as int
            % BLOCK_SIZES[index as int] as int == 0,
        spec_list_index(size, align) is Some ==> forall|x: int|
            ptr <= x < ptr + spec_extent(size, align) ==> !state.available(x),
    ensures
        state.deallocate(ptr, size, align).wf(),
        state.deallocate(ptr, size, align).separate(),
{
    lemma_list_index(size, align);
    let after = state.deallocate(ptr, size, align);
    if let Some(index) = spec_list_index(size, align) {
        let index = index as int;
        lemma_push_keeps_wf(state, index, ptr);
        // a free block is the released block, or was a free block before, one
        // place further to the front of that list
        assert forall|i: int, k: int, x: int| #[trigger]
            after.in_block(i, k, x) implies if i == index && k == 0 {
            ptr <= x < ptr + spec_extent(size, align) && !state.available(x)
        } else {
            state.in_block(i, moved(i, k, index, -1), x)
        } by {
            if i == index && k > 0 {
                assert(after.buckets[i][k] == state.buckets[i][k - 1]);
            }
        }
        assert forall|i: int, k: int, j: int, l: int, x: int| #[trigger]
            after.in_block(i, k, x) && #[trigger] after.in_block(j, l, x) implies i == j && k
            == l by {
            if !(i == index && k == 0) {
                assert(state.in_block(i, moved(i, k, index, -1), x));
            }
            if !(j == index && l == 0) {
                assert(state.in_block(j, moved(j, l, index, -1), x));
            }
        }
    }
}

/// Whether the requests of `requests`, made in order with no release in
/// between, can lead through the states of `states`, from its first to its
/// last, and yield the blocks of `blocks`.
pub open spec fn is_run(
    states: Seq<State>,
    requests: Seq<Request>,
    blocks: Seq<Option<usize>>,
) -> bool {
    &&& states.len() == requests.len() + 1
    &&& blocks.len() == requests.len()
    &&& forall|k: int|
        0 <= k < requests.len() ==> (#[trigger] states[k]).allocates(
            requests[k].size,
            requests[k].align,
            states[k + 1],
            blocks[k],
        )
}

/// A run of requests leaves the state well-formed, lets no address be handed
/// out twice, and makes no address available.
pub proof fn lemma_run_shrinks(
    states: Seq<State>,
    requests: Seq<Request>,
    blocks: Seq<Option<usize>>,
    m: int,
    n: int,
)
    requires
        is_run(states, requests, blocks),
        states[0].wf(),
        states[0].separate(),
        0 <= m <= n <= requests.len(),
    ensures
        states[n].wf(),
        states[n].separate(),
        forall|x: int| states[n].available(x) ==> states[m].available(x),
    decreases n,
{
    if n > 0 {
        if m < n {
            lemma_run_shrinks(states, requests, blocks, m, n - 1);
        } else {
            lemma_run_shrinks(states, requests, blocks, n - 1, n - 1);
        }
        assert(states[n - 1].allocates(
            requests[n - 1].size,
            requests[n - 1].align,
            states[n - 1 + 1],
            blocks[n - 1],
        ));
        lemma_allocation_step(
            states[n - 1],
            requests[n - 1].size,
            requests[n - 1].align,
            states[n],
            blocks[n - 1],
        );
    }
}

/// No overlap: of the blocks that a run of requests yields, with no release
/// in between, no two share an address, whether they come from a list or
/// from the fallback heap. This holds of the blocks with all the bytes that
/// they take up, which are no fewer than the bytes asked for.
pub proof fn lemma_blocks_disjoint(
    states: Seq<State>,
    requests: Seq<Request>,
    blocks: Seq<Option<usize>>,
    i: int,
    j: int,
)
    requires
        is_run(states, requests, blocks),
        states[0].wf(),
        states[0].separate(),
        0 <= i < j < requests.len(),
        blocks[i] is Some,
        blocks[j] is Some,
    ensures
        ({
            let first = blocks[i].unwrap();
            let first_size = spec_extent(requests[i].size, requests[i].align);
            let second = blocks[j].unwrap();
            let second_size = spec_extent(requests[j].size, requests[j].align);
            &&& first_size >= requests[i].size
            &&& second_size >= requests[j].size
            &&& first + first_size <= second || second + second_size <= first
        }),
{
    let first = blocks[i].unwrap();
    let first_size = spec_extent(requests[i].size, requests[i].align);
    let second = blocks[j].unwrap();
    let second_size = spec_extent(requests[j].size, requests[j].align);
    lemma_extent(requests[i].size, requests[i].align);
    lemma_extent(requests[j].size, requests[j].align);
    lemma_run_shrinks(states, requests, blocks, i, i);
    lemma_run_shrinks(states, requests, blocks, i + 1, j);
    assert(states[i].allocates(requests[i].size, requests[i].align, states[i + 1], blocks[i]));
    assert(states[j].allocates(requests[j].size, requests[j].align, states[j + 1], blocks[j]));
    lemma_allocation_step(states[i], requests[i].size, requests[i].align, states[i + 1], blocks[i]);
    lemma_allocation_step(states[j], requests[j].size, requests[j].align, states[j + 1], blocks[j]);
    if !(first + first_size <= second || second + second_size <= first) {
        let x = if first <= second { second as int } else { first as int };
        assert(states[j].available(x));
        assert(states[i + 1].available(x));
        assert(!states[i + 1].available(x));
    }
}

/// Reuse: after a block of a block size is released, a request of the same
/// block size yields that block, and leaves the lists and the fallback heap
/// as they were before the release. A request is of the block size `k`
/// where `k` is the first block size that is at least as large as the
/// request's size and alignment.
pub proof fn lemma_reuse(
    state: State,
    ptr: usize,
    released: Request,
    requested: Request,
    after: State,
    block: Option<usize>,
)
    requires
        state.wf(),
        spec_list_index(released.size, released.align) is Some,
        spec_list_index(requested.size, requested.align) == spec_list_index(
            released.size,
            released.align,
        ),
        state.deallocate(ptr, released.size, released.align).allocates(
            requested.size,
            requested.align,
            after,
            block,
        ),
    ensures
        state.deallocate(ptr, released.size, released.align).pooled(
            requested.size,
            requested.align,
        ) == Some(ptr),
        block == Some(ptr),
        after == state,
{
    lemma_list_index(released.size, released.align);
    let index = spec_list_index(released.size, released.align).unwrap() as int;
    let pushed = seq![ptr] + state.buckets[index];
    assert(pushed.skip(1) =~= state.buckets[index]);
    assert(after.buckets =~= state.buckets);
}

/// The free blocks of the lists from list `from` on hold no negative number
/// of bytes.
proof fn lemma_pooled_bytes_nonnegative(state: State, from: nat)
    ensures
        0 <= state.pooled_bytes_from(from),
    decreases BLOCK_SIZES.len() - from,
{
    if from < BLOCK_SIZES.len() {
        let count = state.buckets[from as int].len();
        let block_size = BLOCK_SIZES[from as int];
        assert(0 <= count * block_size) by (nonlinear_arith);
        lemma_pooled_bytes_nonnegative(state, from + 1);
    }
}

/// The free blocks of the lists from list `from` on hold at least as many
/// bytes as those of each list among them.
proof fn lemma_pooled_bytes_bound(state: State, index: int, from: nat)
    requires
        from <= index < BLOCK_SIZES.len(),
    ensures
        state.buckets[index].len() * BLOCK_SIZES[index] <= state.pooled_bytes_from(from),
    decreases BLOCK_SIZES.len() - from,
{
    if from < index {
        let count = state.buckets[from as int].len();
        let block_size = BLOCK_SIZES[from as int];
        assert(0 <= count * block_size) by (nonlinear_arith);
        lemma_pooled_bytes_bound(state, index, from + 1);
    } else {
        lemma_pooled_bytes_nonnegative(state, from + 1);
    }
}

/// A set of addresses, none below zero and all below `limit`, is finite.
proof fn lemma_bounded_is_finite(free: Set<int>, limit: int)
    requires
        0 <= limit,
        forall|x: int| free.contains(x) ==> 0 <= x < limit,
    ensures
        free.finite(),
{
    lemma_int_range(0, limit);
    lemma_len_subset(free, set_int_range(0, limit));
}

/// A finite set that holds the `len` addresses from `addr` on holds at
/// least `len` addresses.
proof fn lemma_block_within(free: Set<int>, addr: int, len: int)
    requires
        free.finite(),
        0 <= len,
        forall|x: int| addr <= x < addr + len ==> free.contains(x),
    ensures
        len <= free.len(),
{
    let taken = set_int_range(addr, addr + len);
    lemma_int_range(addr, addr + len);
    assert forall|x: int| taken.contains(x) implies free.contains(x) by {}
    lemma_len_subset(taken, free);
}

/// The free block that serves a request holds no fewer bytes than the
/// request asks for, and the free blocks of all lists no fewer than it.
proof fn lemma_pooled_serves(state: State, size: usize, align: usize)
    requires
        state.wf(),
        state.pooled(size, align) is Some,
    ensures
        size <= state.pooled_bytes(),
{
    lemma_list_index(size, align);
    let index = spec_list_index(size, align).unwrap() as int;
    let count = state.buckets[index].len();
    let block_size = BLOCK_SIZES[index];
    lemma_pooled_bytes_bound(state, index, 0);
    assert(count * block_size >= block_size) by (nonlinear_arith)
        requires
            count >= 1,
            block_size >= 0,
    ;
}

/// Exhaustion: a request for more bytes than the free blocks of all lists
/// and the free memory of the fallback heap hold together yields no block
/// and changes nothing.
pub proof fn lemma_exhaustion(
    state: State,
    size: usize,
    align: usize,
    after: State,
    block: Option<usize>,
)
    requires
        state.wf(),
        state.free.finite(),
        size > state.pooled_bytes() + state.free.len(),
        state.allocates(size, align, after, block),
    ensures
        block is None,
        after == state,
{
    lemma_list_index(size, align);
    lemma_extent(size, align);
    lemma_pooled_bytes_nonnegative(state, 0);
    if state.pooled(size, align) is Some {
        lemma_pooled_serves(state, size, align);
    } else if let Some(addr) = block {
        let chunk = spec_chunk_size(spec_fallback_request(size, align).0);
        lemma_block_within(state.free, addr as int, chunk);
    }
}

} // verus!
