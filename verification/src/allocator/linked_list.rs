//! A first-fit allocator over a singly linked list of free regions.
//!
//! Every free region of the heap is described by one node of the list. A
//! request is served from the first region, counted from the front, that can
//! hold it; what is left of the region behind the block goes back to the
//! front of the list. Released blocks go to the front as well, and adjacent
//! free regions are never merged.

use vstd::prelude::*;
use vstd::arithmetic::power2::{is_pow2, lemma2_to64};
use crate::allocator::{
    align_up, checked_align_up, is_layout, lemma_align_up_is_least, lemma_align_up_overflow,
    lemma_aligned_to_smaller, lemma_is_pow2, lemma_pow2_positive, spec_align_up, Request,
};

verus! {

/// Number of bytes that a node of the free list takes up in the region that
/// it describes. No free region is smaller.
pub const NODE_SIZE: usize = 16;

/// Alignment of a node of the free list. Every free region starts at a
/// multiple of it.
pub const NODE_ALIGN: usize = 8;

/// A stretch of addresses: `size` bytes from `start` on.
pub struct Region {
    /// The first address of the region.
    pub start: usize,
    /// The number of bytes in the region.
    pub size: usize,
}

impl Region {
    /// The first address behind the region.
    pub open spec fn end(self) -> int {
        self.start + self.size
    }

    /// Whether the region can hold a node of the free list.
    pub open spec fn wf(self) -> bool {
        &&& self.start as int % NODE_ALIGN as int == 0
        &&& self.size >= NODE_SIZE
        &&& self.end() <= usize::MAX
    }

    /// Whether `addr` lies in the region.
    pub open spec fn contains(self, addr: int) -> bool {
        self.start <= addr < self.end()
    }

    /// Whether the two regions share an address.
    pub open spec fn overlaps(self, other: Region) -> bool {
        self.start < other.end() && other.start < self.end()
    }

    /// Where a block of `size` bytes with alignment `align` starts if it is
    /// cut from this region: at the first multiple of `align` in the
    /// region. There is no such block where it would reach beyond the
    /// region, or where it would leave fewer bytes behind it than a node
    /// needs.
    pub open spec fn alloc_start(self, size: usize, align: usize) -> Option<usize> {
        let start = spec_align_up(self.start as int, align as int);
        let excess = self.end() - (start + size);
        if excess < 0 {
            None
        } else if 0 < excess < NODE_SIZE {
            None
        } else {
            Some(start as usize)
        }
    }
}

/// Every region can hold a node, and no two of them overlap.
pub open spec fn regions_wf(free: Seq<Region>) -> bool {
    &&& forall|i: int| 0 <= i < free.len() ==> (#[trigger] free[i]).wf()
    &&& forall|i: int, j: int|
        0 <= i < free.len() && 0 <= j < free.len() && i != j ==> !(#[trigger] free[i]).overlaps(
            #[trigger] free[j],
        )
}

/// Whether `region` can join the free regions `free`: it can hold a node
/// and overlaps none of them.
pub open spec fn is_unused(free: Seq<Region>, region: Region) -> bool {
    &&& region.wf()
    &&& forall|i: int| 0 <= i < free.len() ==> !(#[trigger] free[i]).overlaps(region)
}

/// Whether `addr` lies in one of the regions.
pub open spec fn covered(free: Seq<Region>, addr: int) -> bool {
    exists|i: int| 0 <= i < free.len() && (#[trigger] free[i]).contains(addr)
}

/// The number of bytes in all the regions together.
pub open spec fn total_size(free: Seq<Region>) -> int
    decreases free.len(),
{
    if free.len() == 0 {
        0
    } else {
        free[0].size + total_size(free.skip(1))
    }
}

/// The index of the first region that can hold a block of `size` bytes with
/// alignment `align`.
pub open spec fn first_fit(free: Seq<Region>, size: usize, align: usize) -> Option<int>
    decreases free.len(),
{
    if free.len() == 0 {
        None
    } else if free[0].alloc_start(size, align) is Some {
        Some(0)
    } else {
        match first_fit(free.skip(1), size, align) {
            Some(i) => Some(i + 1),
            None => None,
        }
    }
}

/// The size and alignment that a request is served with, so that the block
/// can hold a node of the free list once it is released: the alignment is
/// at least that of a node, the size is a multiple of the alignment and at
/// least the size of a node.
pub open spec fn spec_size_align(size: usize, align: usize) -> (usize, usize) {
    let align = if align < NODE_ALIGN {
        NODE_ALIGN
    } else {
        align
    };
    let padded = spec_align_up(size as int, align as int);
    if padded < NODE_SIZE {
        (NODE_SIZE, align)
    } else {
        (padded as usize, align)
    }
}

/// Whether a request can be adjusted as `spec_size_align` says: `align` is a
/// power of two, and `size` and the adjusted alignment make a layout.
pub open spec fn is_request(size: usize, align: usize) -> bool {
    &&& is_pow2(align as int)
    &&& is_layout(size, spec_size_align(size, align).1)
}

/// A request for `size` bytes with alignment `align` on the free list
/// `free`: the free list after it, and the address it yields.
pub open spec fn spec_allocate(free: Seq<Region>, size: usize, align: usize) -> (
    Seq<Region>,
    Option<usize>,
) {
    let (size, align) = spec_size_align(size, align);
    match first_fit(free, size, align) {
        None => (free, None),
        Some(i) => {
            let start = free[i].alloc_start(size, align).unwrap();
            let end = start + size;
            if end < free[i].end() {
                let excess = Region { start: end as usize, size: (free[i].end() - end) as usize };
                (seq![excess] + free.remove(i), Some(start))
            } else {
                (free.remove(i), Some(start))
            }
        },
    }
}

/// The free list after the block of a request for `size` bytes with
/// alignment `align` is released at `ptr`.
pub open spec fn spec_deallocate(free: Seq<Region>, ptr: usize, size: usize, align: usize) -> Seq<
    Region,
> {
    seq![Region { start: ptr, size: spec_size_align(size, align).0 }] + free
}

/// A node of the free list. It stands for the record that lies at the start
/// of a free region and holds the region's size and the link to the next
/// node.
pub struct ListNode {
    size: usize,
    next: Option<Box<ListNode>>,
    /// Where the node lies: the first address of its region.
    addr: usize,
}

impl ListNode {
    /// The region that the node describes.
    pub closed spec fn region(self) -> Region {
        Region { start: self.addr, size: self.size }
    }

    /// The regions of the nodes that follow this one, nearest first.
    pub closed spec fn rest(self) -> Seq<Region>
        decreases self,
    {
        match self.next {
            None => Seq::empty(),
            Some(node) => seq![node.region()] + node.rest(),
        }
    }

    /// A node for a region of `size` bytes that has no place in memory yet
    /// and no successor.
    pub fn new(size: usize) -> (node: Self)
        ensures
            node.region() == (Region { start: 0, size }),
            node.rest() == Seq::<Region>::empty(),
    {
        ListNode { size, next: None, addr: 0 }
    }

    /// The first address of the node's region.
    pub fn start_addr(&self) -> (addr: usize)
        ensures
            addr == self.region().start,
    {
        self.addr
    }

    /// The first address behind the node's region.
    pub fn end_addr(&self) -> (addr: usize)
        requires
            self.region().end() <= usize::MAX,
        ensures
            addr == self.region().end(),
    {
        self.start_addr() + self.size
    }
}

/// An allocator that keeps the free regions of the heap in a linked list.
pub struct LinkedListAllocator {
    head: ListNode,
}

impl View for LinkedListAllocator {
    type V = Seq<Region>;

    /// The free regions, in the order of the list.
    closed spec fn view(&self) -> Seq<Region> {
        self.head.rest()
    }
}

impl LinkedListAllocator {
    /// Whether the list starts at a head node that describes no region.
    pub closed spec fn head_is_sentinel(self) -> bool {
        self.head.size == 0 && self.head.addr == 0
    }

    /// The list starts at a head node that describes no region, every free
    /// region can hold a node, and no two free regions overlap.
    pub open spec fn wf(self) -> bool {
        &&& self.head_is_sentinel()
        &&& regions_wf(self@)
    }

    /// Creates an empty allocator.
    pub fn new() -> (allocator: Self)
        ensures
            allocator@ == Seq::<Region>::empty(),
            allocator.wf(),
    {
        Self { head: ListNode::new(0) }
    }

    /// Puts the allocator in charge of the `heap_size` bytes from
    /// `heap_start` on.
    pub fn init(&mut self, heap_start: usize, heap_size: usize)
        requires
            old(self).wf(),
            is_unused(old(self)@, Region { start: heap_start, size: heap_size }),
        ensures
            final(self)@ == seq![Region { start: heap_start, size: heap_size }] + old(self)@,
            final(self).wf(),
    {
        self.add_free_region(heap_start, heap_size);
    }

    /// Adds the given memory region to the front of the list.
    pub fn add_free_region(&mut self, addr: usize, size: usize)
        requires
            old(self).wf(),
            is_unused(old(self)@, Region { start: addr, size }),
        ensures
            final(self)@ == seq![Region { start: addr, size }] + old(self)@,
            final(self).wf(),
    {
        let mut node = ListNode::new(size);
        node.next = self.head.next.take();
        node.addr = addr;
        let ghost placed = node;
        self.head.next = Some(Box::new(node));
        proof {
            assert(placed.rest() == old(self)@);
            assert(self.head.rest() == seq![placed.region()] + placed.rest());
            lemma_push_keeps_wf(old(self)@, Region { start: addr, size });
        }
    }

    /// Whether the `size` bytes from `addr` on share an address with a free
    /// region.
    pub fn overlaps_free_region(&self, addr: usize, size: usize) -> (overlaps: bool)
        requires
            self.wf(),
            addr + size <= usize::MAX,
        ensures
            overlaps == exists|i: int|
                0 <= i < self@.len() && (#[trigger] self@[i]).overlaps(
                    Region { start: addr, size },
                ),
    {
        let ghost whole = self@;
        let ghost mut k: int = 0;
        let mut current = &self.head;
        loop
            invariant
                0 <= k <= whole.len(),
                whole == self@,
                regions_wf(whole),
                current.rest() == whole.skip(k),
                addr + size <= usize::MAX,
                forall|j: int|
                    0 <= j < k ==> !(#[trigger] whole[j]).overlaps(Region { start: addr, size }),
            decreases whole.len() - k,
        {
            match &current.next {
                None => {
                    return false;
                },
                Some(region) => {
                    proof {
                        assert(current.rest() == seq![region.region()] + region.rest());
                        assert(whole.skip(k)[0] == whole[k]);
                        assert(current.rest().skip(1) =~= region.rest());
                        assert(whole.skip(k).skip(1) =~= whole.skip(k + 1));
                    }
                    if region.start_addr() < addr + size && addr < region.end_addr() {
                        return true;
                    }
                    current = region;
                    proof {
                        k = k + 1;
                    }
                },
            }
        }
    }

    /// Looks for a free region that can hold a block of `size` bytes with
    /// alignment `align`, and removes the first such region from the list.
    ///
    /// Returns the node of that region and the address at which the block
    /// starts.
    #[verifier::loop_isolation(false)]
    pub fn find_region(&mut self, size: usize, align: usize) -> (found: Option<(ListNode, usize)>)
        requires
            old(self).wf(),
            is_pow2(align as int),
        ensures
            final(self).wf(),
            match first_fit(old(self)@, size, align) {
                Some(i) => {
                    &&& 0 <= i < old(self)@.len()
                    &&& final(self)@ == old(self)@.remove(i)
                    &&& found matches Some((node, alloc_start))
                    &&& node.region() == old(self)@[i]
                    &&& node.rest() == Seq::<Region>::empty()
                    &&& Some(alloc_start) == old(self)@[i].alloc_start(size, align)
                },
                None => final(self)@ == old(self)@ && found is None,
            },
    {
        let ghost whole = self@;
        let ghost end_state = *final(self);
        let ghost mut k: int = 0;
        // the node whose successor is looked at, updated in each round
        let mut current = &mut self.head;
        loop
            invariant
                0 <= k <= whole.len(),
                current.rest() == whole.skip(k),
                forall|j: int|
                    0 <= j < k ==> (#[trigger] whole[j]).alloc_start(size, align) is None,
                final(current).addr == current.addr && final(current).size == current.size ==> {
                    &&& end_state.head.rest() == whole.take(k) + final(current).rest()
                    &&& end_state.head.size == 0
                    &&& end_state.head.addr == 0
                },
            decreases whole.len() - k,
        {
            let ghost current_rest = current.rest();
            match current.next.take() {
                None => {
                    proof {
                        assert(current_rest.len() == 0);
                        assert(whole.take(k) + Seq::<Region>::empty() =~= whole);
                        lemma_first_fit(whole, size, align);
                    }
                    return None;
                },
                Some(region) => {
                    let mut region = region;
                    proof {
                        assert(current_rest[0] == region.region());
                        assert(whole.skip(k)[0] == whole[k]);
                        assert(current_rest.skip(1) =~= region.rest());
                        assert(whole.skip(k).skip(1) =~= whole.skip(k + 1));
                    }
                    match Self::alloc_from_region(&region, size, align) {
                        Ok(alloc_start) => {
                            // the region can hold the block: take its node from the list
                            current.next = region.next.take();
                            proof {
                                assert(current.rest() == whole.skip(k + 1));
                                assert(whole.take(k) + whole.skip(k + 1) =~= whole.remove(k));
                                lemma_first_fit(whole, size, align);
                                lemma_remove_keeps_wf(whole, k);
                            }
                            return Some((*region, alloc_start));
                        },
                        Err(_) => {
                            // the region cannot hold the block: go on with the next one
                            current.next = Some(region);
                            let ghost passed = *final(current);
                            current = current.next.as_mut().unwrap();
                            proof {
                                assert(passed.next == Some(Box::new(*final(current))));
                                assert(passed.rest() == seq![final(current).region()]
                                    + final(current).rest());
                                assert(whole.take(k) + (seq![whole[k]] + final(current).rest())
                                    =~= whole.take(k + 1) + final(current).rest());
                                k = k + 1;
                            }
                        },
                    }
                },
            }
        }
    }

    /// Tries to cut a block of `size` bytes with alignment `align` from the
    /// region of `region`.
    ///
    /// Returns the address at which the block starts, or an error where the
    /// region cannot hold it.
    pub fn alloc_from_region(region: &ListNode, size: usize, align: usize) -> (start: Result<
        usize,
        (),
    >)
        requires
            region.region().end() <= usize::MAX,
            is_pow2(align as int),
        ensures
            start == match region.region().alloc_start(size, align) {
                Some(addr) => Ok::<usize, ()>(addr),
                None => Err::<usize, ()>(()),
            },
    {
        proof {
            lemma_pow2_positive(align);
            lemma_align_up_is_least(region.region().start as int, align as int);
        }
        let alloc_start = match checked_align_up(region.start_addr(), align) {
            Some(start) => start,
            None => {
                return Err(());
            },
        };
        let alloc_end = match alloc_start.checked_add(size) {
            Some(end) => end,
            None => {
                return Err(());
            },
        };
        if alloc_end > region.end_addr() {
            // region too small
            return Err(());
        }
        let excess_size = region.end_addr() - alloc_end;
        if excess_size > 0 && excess_size < NODE_SIZE {
            // the rest of the region is too small to hold a node, which it
            // must, as the region is split in a used and a free part
            return Err(());
        }
        // region suitable for allocation
        Ok(alloc_start)
    }

    /// Adjusts a request so that the block that serves it can hold a node of
    /// the free list once it is released.
    ///
    /// Returns the adjusted size and alignment.
    pub fn size_align(size: usize, align: usize) -> (adjusted: (usize, usize))
        requires
            is_request(size, align),
        ensures
            adjusted == spec_size_align(size, align),
            adjusted.0 >= size,
            adjusted.0 >= NODE_SIZE,
            adjusted.0 as int % NODE_ALIGN as int == 0,
            adjusted.1 >= align,
            is_pow2(adjusted.1 as int),
    {
        proof {
            lemma_size_align(size, align);
        }
        let align = if align < NODE_ALIGN {
            NODE_ALIGN
        } else {
            align
        };
        let padded = align_up(size, align);
        let size = if padded < NODE_SIZE {
            NODE_SIZE
        } else {
            padded
        };
        (size, align)
    }

    /// Serves a request for `size` bytes with alignment `align` from the
    /// first free region that can hold the adjusted request. What is left
    /// of the region behind the block becomes a free region of its own, at
    /// the front of the list. Returns `None` where no region can hold the
    /// block.
    pub fn allocate(&mut self, size: usize, align: usize) -> (block: Option<usize>)
        requires
            old(self).wf(),
            is_request(size, align),
        ensures
            final(self).wf(),
            final(self)@ == spec_allocate(old(self)@, size, align).0,
            block == spec_allocate(old(self)@, size, align).1,
            block matches Some(addr) ==> addr as int % align as int == 0,
    {
        // perform layout adjustments
        let (adjusted_size, adjusted_align) = Self::size_align(size, align);
        proof {
            lemma_first_fit(old(self)@, adjusted_size, adjusted_align);
        }
        match self.find_region(adjusted_size, adjusted_align) {
            Some((region, alloc_start)) => {
                proof {
                    let i = first_fit(old(self)@, adjusted_size, adjusted_align).unwrap();
                    lemma_block_in_region(old(self)@[i], adjusted_size, adjusted_align);
                    lemma_aligned_to_smaller(alloc_start as int, align, adjusted_align);
                    if alloc_start + adjusted_size < old(self)@[i].end() {
                        lemma_excess_is_unused(old(self)@, i, adjusted_size, adjusted_align);
                    }
                }
                let alloc_end = alloc_start + adjusted_size;
                let excess_size = region.end_addr() - alloc_end;
                if excess_size > 0 {
                    self.add_free_region(alloc_end, excess_size);
                }
                Some(alloc_start)
            },
            None => None,
        }
    }

    /// Takes back the block at `ptr` that a request for `size` bytes with
    /// alignment `align` was served with: it becomes a free region at the
    /// front of the list.
    pub fn deallocate(&mut self, ptr: usize, size: usize, align: usize)
        requires
            old(self).wf(),
            is_request(size, align),
            is_unused(old(self)@, Region { start: ptr, size: spec_size_align(size, align).0 }),
        ensures
            final(self).wf(),
            final(self)@ == spec_deallocate(old(self)@, ptr, size, align),
    {
        // perform layout adjustments
        let (size, _) = Self::size_align(size, align);
        self.add_free_region(ptr, size)
    }
}

/// `first_fit` yields the index of a region that can hold the block and that
/// no such region precedes, and `None` where no region can hold the block.
pub proof fn lemma_first_fit(free: Seq<Region>, size: usize, align: usize)
    ensures
        match first_fit(free, size, align) {
            Some(i) => {
                &&& 0 <= i < free.len()
                &&& free[i].alloc_start(size, align) is Some
                &&& forall|j: int|
                    0 <= j < i ==> (#[trigger] free[j]).alloc_start(size, align) is None
            },
            None => forall|j: int|
                0 <= j < free.len() ==> (#[trigger] free[j]).alloc_start(size, align) is None,
        },
    decreases free.len(),
{
    if free.len() > 0 && free[0].alloc_start(size, align) is None {
        let rest = free.skip(1);
        lemma_first_fit(rest, size, align);
        match first_fit(rest, size, align) {
            Some(i) => {
                assert forall|j: int| 0 <= j < i + 1 implies (#[trigger] free[j]).alloc_start(
                    size,
                    align,
                ) is None by {
                    if j > 0 {
                        assert(free[j] == rest[j - 1]);
                    }
                }
            },
            None => {
                assert forall|j: int| 0 <= j < free.len() implies (#[trigger] free[j]).alloc_start(
                    size,
                    align,
                ) is None by {
                    if j > 0 {
                        assert(free[j] == rest[j - 1]);
                    }
                }
            },
        }
    }
}

proof fn lemma_push_keeps_wf(free: Seq<Region>, region: Region)
    requires
        regions_wf(free),
        is_unused(free, region),
    ensures
        regions_wf(seq![region] + free),
{
    let pushed = seq![region] + free;
    assert forall|i: int, j: int|
        0 <= i < pushed.len() && 0 <= j < pushed.len() && i != j implies !(
    #[trigger] pushed[i]).overlaps(#[trigger] pushed[j]) by {
        if i > 0 {
            assert(pushed[i] == free[i - 1]);
        }
        if j > 0 {
            assert(pushed[j] == free[j - 1]);
        }
    }
}

proof fn lemma_remove_keeps_wf(free: Seq<Region>, k: int)
    requires
        regions_wf(free),
        0 <= k < free.len(),
    ensures
        regions_wf(free.remove(k)),
        forall|x: int| covered(free.remove(k), x) ==> covered(free, x),
{
    let rest = free.remove(k);
    assert forall|i: int| 0 <= i < rest.len() implies (#[trigger] rest[i]).wf() by {
        assert(rest[i] == free[if i < k { i } else { i + 1 }]);
    }
    assert forall|i: int, j: int|
        0 <= i < rest.len() && 0 <= j < rest.len() && i != j implies !(#[trigger] rest[i]).overlaps(
        #[trigger] rest[j],
    ) by {
        assert(rest[i] == free[if i < k { i } else { i + 1 }]);
        assert(rest[j] == free[if j < k { j } else { j + 1 }]);
    }
    assert forall|x: int| covered(rest, x) implies covered(free, x) by {
        let i = choose|i: int| 0 <= i < rest.len() && (#[trigger] rest[i]).contains(x);
        assert(rest[i] == free[if i < k { i } else { i + 1 }]);
    }
}

/// An adjusted request has an alignment that is a power of two and at least
/// that of a node, and a size that is at least that of a node and a multiple
/// of a node's alignment.
proof fn lemma_size_align(size: usize, align: usize)
    requires
        is_request(size, align),
    ensures
        ({
            let (adjusted_size, adjusted_align) = spec_size_align(size, align);
            &&& is_pow2(adjusted_align as int)
            &&& is_pow2(NODE_ALIGN as int)
            &&& adjusted_align >= align
            &&& adjusted_align >= NODE_ALIGN
            &&& adjusted_size >= size
            &&& adjusted_size >= NODE_SIZE
            &&& adjusted_size as int % NODE_ALIGN as int == 0
            &&& adjusted_size <= isize::MAX
            &&& size + adjusted_align - 1 <= usize::MAX
        }),
{
    let (adjusted_size, adjusted_align) = spec_size_align(size, align);
    assert(is_pow2(NODE_ALIGN as int)) by {
        lemma2_to64();
        lemma_is_pow2(3);
    }
    lemma_pow2_positive(adjusted_align);
    lemma_align_up_is_least(size as int, adjusted_align as int);
    lemma_align_up_overflow(size as int, adjusted_align as int);
    let padded = spec_align_up(size as int, adjusted_align as int);
    lemma_aligned_to_smaller(padded, NODE_ALIGN, adjusted_align);
}

/// A block that is cut from a region lies in the region, and starts at a
/// multiple of its alignment.
proof fn lemma_block_in_region(region: Region, size: usize, align: usize)
    requires
        region.end() <= usize::MAX,
        align > 0,
        region.alloc_start(size, align) is Some,
    ensures
        ({
            let start = region.alloc_start(size, align).unwrap();
            &&& region.start <= start
            &&& start + size <= region.end()
            &&& start as int % align as int == 0
            &&& start + size < region.end() ==> start + size + NODE_SIZE <= region.end()
        }),
{
    lemma_align_up_is_least(region.start as int, align as int);
}

/// What is left of a free region behind a block that was cut from it can
/// join the other free regions.
proof fn lemma_excess_is_unused(free: Seq<Region>, i: int, size: usize, align: usize)
    requires
        regions_wf(free),
        0 <= i < free.len(),
        is_pow2(align as int),
        align >= NODE_ALIGN,
        size as int % NODE_ALIGN as int == 0,
        free[i].alloc_start(size, align) is Some,
        free[i].alloc_start(size, align).unwrap() + size < free[i].end(),
    ensures
        ({
            let end = free[i].alloc_start(size, align).unwrap() + size;
            is_unused(
                free.remove(i),
                Region { start: end as usize, size: (free[i].end() - end) as usize },
            )
        }),
{
    let start = free[i].alloc_start(size, align).unwrap();
    let end = start + size;
    let excess = Region { start: end as usize, size: (free[i].end() - end) as usize };
    let rest = free.remove(i);
    lemma_block_in_region(free[i], size, align);
    assert(is_pow2(NODE_ALIGN as int)) by {
        lemma2_to64();
        lemma_is_pow2(3);
    }
    lemma_aligned_to_smaller(start as int, NODE_ALIGN, align);
    assert forall|j: int| 0 <= j < rest.len() implies !(#[trigger] rest[j]).overlaps(excess) by {
        let j0 = if j < i { j } else { j + 1 };
        assert(rest[j] == free[j0]);
        assert(!free[j0].overlaps(free[i]));
    }
}

/// The free list after the first `n` of `requests` were made, in order.
pub open spec fn after_requests(free: Seq<Region>, requests: Seq<Request>, n: nat) -> Seq<Region>
    decreases n,
{
    if n == 0 {
        free
    } else {
        let before = after_requests(free, requests, (n - 1) as nat);
        spec_allocate(before, requests[n - 1].size, requests[n - 1].align).0
    }
}

/// The address that request `i` of `requests` yields when the requests are
/// made in order.
pub open spec fn block(free: Seq<Region>, requests: Seq<Request>, i: nat) -> Option<usize> {
    spec_allocate(
        after_requests(free, requests, i),
        requests[i as int].size,
        requests[i as int].align,
    ).1
}

/// One request on a well-formed free list: the free list stays well-formed
/// and gains no address; the block starts at a multiple of the alignment
/// asked for, and its addresses, those of the adjusted size, were free
/// before and are not free afterwards.
pub proof fn lemma_allocate_step(free: Seq<Region>, size: usize, align: usize)
    requires
        regions_wf(free),
        is_request(size, align),
    ensures
        ({
            let after = spec_allocate(free, size, align).0;
            let adjusted_size = spec_size_align(size, align).0;
            &&& regions_wf(after)
            &&& forall|x: int| covered(after, x) ==> covered(free, x)
            &&& spec_allocate(free, size, align).1 matches Some(addr) ==> {
                &&& addr as int % align as int == 0
                &&& addr + adjusted_size <= usize::MAX
                &&& forall|x: int|
                    addr <= x < addr + adjusted_size ==> covered(free, x) && !covered(after, x)
            }
        }),
{
    let (adjusted_size, adjusted_align) = spec_size_align(size, align);
    let after = spec_allocate(free, size, align).0;
    lemma_size_align(size, align);
    lemma_first_fit(free, adjusted_size, adjusted_align);
    if let Some(i) = first_fit(free, adjusted_size, adjusted_align) {
        let region = free[i];
        let start = region.alloc_start(adjusted_size, adjusted_align).unwrap();
        let end = start + adjusted_size;
        let rest = free.remove(i);
        lemma_pow2_positive(adjusted_align);
        lemma_block_in_region(region, adjusted_size, adjusted_align);
        lemma_aligned_to_smaller(start as int, align, adjusted_align);
        lemma_remove_keeps_wf(free, i);
        if end < region.end() {
            let excess = Region { start: end as usize, size: (region.end() - end) as usize };
            lemma_excess_is_unused(free, i, adjusted_size, adjusted_align);
            lemma_push_keeps_wf(rest, excess);
        }
        assert forall|x: int| covered(after, x) implies covered(free, x) by {
            let m = choose|m: int| 0 <= m < after.len() && (#[trigger] after[m]).contains(x);
            if end < region.end() && m == 0 {
                assert(region.contains(x));
            } else {
                let n = if end < region.end() { m - 1 } else { m };
                assert(after[m] == rest[n]);
                assert(rest[n] == free[if n < i { n } else { n + 1 }]);
            }
        }
        assert forall|x: int| start <= x < end implies covered(free, x) && !covered(after, x) by {
            assert(region.contains(x));
            if covered(after, x) {
                let m = choose|m: int| 0 <= m < after.len() && (#[trigger] after[m]).contains(x);
                if !(end < region.end() && m == 0) {
                    let n = if end < region.end() { m - 1 } else { m };
                    let j = if n < i { n } else { n + 1 };
                    assert(after[m] == rest[n]);
                    assert(rest[n] == free[j]);
                    assert(free[j].overlaps(free[i]));
                }
            }
        }
    }
}

/// A run of requests, made with no release in between, leaves the free list
/// well-formed and adds no address to it.
pub proof fn lemma_requests_shrink(free: Seq<Region>, requests: Seq<Request>, m: nat, n: nat)
    requires
        regions_wf(free),
        forall|k: int|
            0 <= k < requests.len() ==> is_request(
                (#[trigger] requests[k]).size,
                requests[k].align,
            ),
        m <= n <= requests.len(),
    ensures
        regions_wf(after_requests(free, requests, n)),
        forall|x: int|
            covered(after_requests(free, requests, n), x) ==> covered(
                after_requests(free, requests, m),
                x,
            ),
    decreases n,
{
    if n > 0 {
        let before = after_requests(free, requests, (n - 1) as nat);
        if m < n {
            lemma_requests_shrink(free, requests, m, (n - 1) as nat);
        } else {
            lemma_requests_shrink(free, requests, (n - 1) as nat, (n - 1) as nat);
        }
        lemma_allocate_step(before, requests[n - 1].size, requests[n - 1].align);
    }
}

/// No overlap: of the blocks that a run of requests yields, with no release
/// in between, no two share an address. This holds of the blocks in their
/// adjusted sizes, which are no smaller than the sizes asked for.
pub proof fn lemma_blocks_disjoint(free: Seq<Region>, requests: Seq<Request>, i: nat, j: nat)
    requires
        regions_wf(free),
        forall|k: int|
            0 <= k < requests.len() ==> is_request(
                (#[trigger] requests[k]).size,
                requests[k].align,
            ),
        i < j < requests.len(),
        block(free, requests, i) is Some,
        block(free, requests, j) is Some,
    ensures
        ({
            let first = block(free, requests, i).unwrap();
            let first_size = spec_size_align(requests[i as int].size, requests[i as int].align).0;
            let second = block(free, requests, j).unwrap();
            let second_size = spec_size_align(requests[j as int].size, requests[j as int].align).0;
            &&& first_size >= requests[i as int].size
            &&& second_size >= requests[j as int].size
            &&& first + first_size <= second || second + second_size <= first
        }),
{
    let first = block(free, requests, i).unwrap();
    let first_size = spec_size_align(requests[i as int].size, requests[i as int].align).0;
    let second = block(free, requests, j).unwrap();
    let second_size = spec_size_align(requests[j as int].size, requests[j as int].align).0;
    let before_first = after_requests(free, requests, i);
    let after_first = after_requests(free, requests, i + 1);
    let before_second = after_requests(free, requests, j);
    lemma_size_align(requests[i as int].size, requests[i as int].align);
    lemma_size_align(requests[j as int].size, requests[j as int].align);
    lemma_requests_shrink(free, requests, i, i);
    lemma_requests_shrink(free, requests, i + 1, j);
    lemma_allocate_step(before_first, requests[i as int].size, requests[i as int].align);
    lemma_allocate_step(before_second, requests[j as int].size, requests[j as int].align);
    if !(first + first_size <= second || second + second_size <= first) {
        let x = if first <= second { second as int } else { first as int };
        assert(covered(before_second, x));
        assert(covered(after_first, x));
        assert(!covered(after_first, x));
    }
}

/// Round trip: where a block is allocated, released and asked for again,
/// the second request yields the same address and leaves the free list as
/// the first request left it.
pub proof fn lemma_round_trip(free: Seq<Region>, size: usize, align: usize)
    requires
        regions_wf(free),
        is_request(size, align),
        spec_allocate(free, size, align).1 is Some,
    ensures
        ({
            let first = spec_allocate(free, size, align);
            let ptr = first.1.unwrap();
            let released = spec_deallocate(first.0, ptr, size, align);
            &&& is_unused(first.0, Region { start: ptr, size: spec_size_align(size, align).0 })
            &&& spec_allocate(released, size, align) == first
        }),
{
    let (adjusted_size, adjusted_align) = spec_size_align(size, align);
    let first = spec_allocate(free, size, align);
    let ptr = first.1.unwrap();
    let block = Region { start: ptr, size: adjusted_size };
    let released = spec_deallocate(first.0, ptr, size, align);
    lemma_size_align(size, align);
    lemma_pow2_positive(adjusted_align);
    lemma_first_fit(free, adjusted_size, adjusted_align);
    let i = first_fit(free, adjusted_size, adjusted_align).unwrap();
    lemma_block_in_region(free[i], adjusted_size, adjusted_align);
    lemma_allocate_step(free, size, align);
    assert(is_pow2(NODE_ALIGN as int)) by {
        lemma2_to64();
        lemma_is_pow2(3);
    }
    lemma_aligned_to_smaller(ptr as int, NODE_ALIGN, adjusted_align);
    assert forall|k: int| 0 <= k < first.0.len() implies !(#[trigger] first.0[k]).overlaps(
        block,
    ) by {
        if first.0[k].overlaps(block) {
            let x = if first.0[k].start <= ptr { ptr as int } else { first.0[k].start as int };
            assert(first.0[k].contains(x));
            assert(covered(first.0, x));
        }
    }
    assert(released[0] == block);
    assert(block.alloc_start(adjusted_size, adjusted_align) == Some(ptr));
    assert(first_fit(released, adjusted_size, adjusted_align) == Some(0int));
    assert(released.remove(0) =~= first.0);
}

/// Splitting: where the first region that can hold the adjusted request
/// starts at a multiple of the adjusted alignment and is larger than the
/// adjusted size by at least the size of a node, the block starts where the
/// region started, and the free list holds, in place of that region, one new
/// region at its front: what is left of the region behind the block.
pub proof fn lemma_split(free: Seq<Region>, size: usize, align: usize, i: int)
    requires
        regions_wf(free),
        is_request(size, align),
        first_fit(free, spec_size_align(size, align).0, spec_size_align(size, align).1) == Some(i),
        free[i].start as int % spec_size_align(size, align).1 as int == 0,
        free[i].size >= spec_size_align(size, align).0 + NODE_SIZE,
    ensures
        ({
            let allocated = spec_size_align(size, align).0;
            let excess = Region {
                start: (free[i].start + allocated) as usize,
                size: (free[i].size - allocated) as usize,
            };
            spec_allocate(free, size, align) == (seq![excess] + free.remove(i), Some(free[i].start))
        }),
{
    lemma_first_fit(free, spec_size_align(size, align).0, spec_size_align(size, align).1);
}

/// Every region is at most as large as all the regions together.
pub proof fn lemma_region_within_total(free: Seq<Region>, i: int)
    requires
        0 <= i < free.len(),
    ensures
        free[i].size <= total_size(free),
        0 <= total_size(free),
    decreases free.len(),
{
    let rest = free.skip(1);
    assert(total_size(free) == free[0].size + total_size(rest));
    if i > 0 {
        lemma_region_within_total(rest, i - 1);
        assert(rest[i - 1] == free[i]);
    } else if rest.len() > 0 {
        lemma_region_within_total(rest, 0);
    } else {
        assert(total_size(rest) == 0);
    }
}

/// Exhaustion: a request for more bytes than all the free regions hold
/// together yields no block and leaves the free list as it is.
pub proof fn lemma_exhaustion(free: Seq<Region>, size: usize, align: usize)
    requires
        regions_wf(free),
        is_request(size, align),
        size > total_size(free),
    ensures
        spec_allocate(free, size, align) == (free, None::<usize>),
{
    let (adjusted_size, adjusted_align) = spec_size_align(size, align);
    lemma_size_align(size, align);
    lemma_pow2_positive(adjusted_align);
    lemma_first_fit(free, adjusted_size, adjusted_align);
    if let Some(i) = first_fit(free, adjusted_size, adjusted_align) {
        lemma_block_in_region(free[i], adjusted_size, adjusted_align);
        lemma_region_within_total(free, i);
    }
}

} // verus!
