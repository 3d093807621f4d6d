//! A bump allocator: a pointer that only moves forward, and a count of the
//! blocks that are still in use. The whole heap is reclaimed at once when
//! that count returns to zero.

use vstd::prelude::*;
use vstd::arithmetic::power2::is_pow2;
use crate::allocator::{checked_align_up, lemma_align_up_is_least, spec_align_up, Request};

verus! {

/// The state of a bump allocator as plain values.
pub struct BumpState {
    /// First address of the heap.
    pub heap_start: usize,
    /// First address behind the heap.
    pub heap_end: usize,
    /// Where the search for the next block starts.
    pub next: usize,
    /// Number of blocks handed out and not yet released.
    pub allocations: usize,
}

impl BumpState {
    /// The bump pointer lies in the heap, and an allocator without live
    /// blocks has it at the heap's start.
    pub open spec fn wf(self) -> bool {
        &&& self.heap_start <= self.next <= self.heap_end
        &&& self.allocations == 0 ==> self.next == self.heap_start
    }

    /// Number of bytes between the bump pointer and the end of the heap.
    pub open spec fn free_space(self) -> int {
        self.heap_end - self.next
    }

    /// Where a block with alignment `align` would start.
    pub open spec fn alloc_start(self, align: usize) -> int {
        spec_align_up(self.next as int, align as int)
    }

    /// Whether a block of `size` bytes with alignment `align` still fits.
    pub open spec fn can_alloc(self, size: usize, align: usize) -> bool {
        self.alloc_start(align) + size <= self.heap_end
    }

    /// A request for `size` bytes with alignment `align`: the state after
    /// it, and the address it yields.
    pub open spec fn allocate(self, size: usize, align: usize) -> (BumpState, Option<usize>) {
        if self.can_alloc(size, align) {
            (
                BumpState {
                    next: (self.alloc_start(align) + size) as usize,
                    allocations: (self.allocations + 1) as usize,
                    ..self
                },
                Some(self.alloc_start(align) as usize),
            )
        } else {
            (self, None)
        }
    }

    /// The state after one block is released.
    pub open spec fn deallocate(self) -> BumpState {
        if self.allocations == 1 {
            BumpState { next: self.heap_start, allocations: 0, ..self }
        } else {
            BumpState { allocations: (self.allocations - 1) as usize, ..self }
        }
    }

    /// The state after the first `n` of `requests` were made, in order.
    pub open spec fn after_requests(self, requests: Seq<Request>, n: nat) -> BumpState
        decreases n,
    {
        if n == 0 {
            self
        } else {
            let before = self.after_requests(requests, (n - 1) as nat);
            before.allocate(requests[n - 1].size, requests[n - 1].align).0
        }
    }

    /// The address that request `i` of `requests` yields when the requests
    /// are made in order.
    pub open spec fn block(self, requests: Seq<Request>, i: nat) -> Option<usize> {
        let request = requests[i as int];
        self.after_requests(requests, i).allocate(request.size, request.align).1
    }

    /// How many of the first `n` of `requests` yield a block.
    pub open spec fn served(self, requests: Seq<Request>, n: nat) -> nat
        decreases n,
    {
        if n == 0 {
            0
        } else if self.block(requests, (n - 1) as nat) is Some {
            self.served(requests, (n - 1) as nat) + 1
        } else {
            self.served(requests, (n - 1) as nat)
        }
    }

    /// The state after `n` blocks were released.
    pub open spec fn after_releases(self, n: nat) -> BumpState
        decreases n,
    {
        if n == 0 {
            self
        } else {
            self.deallocate().after_releases((n - 1) as nat)
        }
    }
}

/// An allocator that hands out the heap from its start onwards and takes
/// it back only as a whole.
pub struct BumpAllocator {
    heap_start: usize,
    heap_end: usize,
    next: usize,
    allocations: usize,
}

impl View for BumpAllocator {
    type V = BumpState;

    closed spec fn view(&self) -> BumpState {
        BumpState {
            heap_start: self.heap_start,
            heap_end: self.heap_end,
            next: self.next,
            allocations: self.allocations,
        }
    }
}

impl BumpAllocator {
    /// Creates a new empty bump allocator.
    pub fn new() -> (allocator: Self)
        ensures
            allocator@ == (BumpState { heap_start: 0, heap_end: 0, next: 0, allocations: 0 }),
            allocator@.wf(),
    {
        BumpAllocator { heap_start: 0, heap_end: 0, next: 0, allocations: 0 }
    }

    /// The number of blocks handed out and not yet released.
    pub fn allocations(&self) -> (count: usize)
        ensures
            count == self@.allocations,
    {
        self.allocations
    }

    /// Puts the allocator in charge of the `heap_size` bytes from
    /// `heap_start` on. The count of live blocks is left as it is.
    pub fn init(&mut self, heap_start: usize, heap_size: usize)
        requires
            heap_start + heap_size <= usize::MAX,
        ensures
            final(self)@ == (BumpState {
                heap_start,
                heap_end: (heap_start + heap_size) as usize,
                next: heap_start,
                allocations: old(self)@.allocations,
            }),
            final(self)@.wf(),
    {
        self.heap_start = heap_start;
        self.heap_end = heap_start + heap_size;
        self.next = heap_start;
    }

    /// Hands out the next `size` bytes at an address that is a multiple of
    /// `align`, or `None` where they do not fit before the end of the heap.
    pub fn allocate(&mut self, size: usize, align: usize) -> (block: Option<usize>)
        requires
            is_pow2(align as int),
            old(self)@.allocations < usize::MAX,
        ensures
            final(self)@ == old(self)@.allocate(size, align).0,
            block == old(self)@.allocate(size, align).1,
            block is Some <==> old(self)@.can_alloc(size, align),
            block matches Some(addr) ==> addr % align == 0 && old(self)@.next <= addr && addr + size
                == final(self)@.next,
            old(self)@.wf() ==> final(self)@.wf(),
    {
        proof {
            assert(align > 0) by {
                reveal(is_pow2);
            }
            lemma_align_up_is_least(self.next as int, align as int);
        }
        let alloc_start = match checked_align_up(self.next, align) {
            Some(start) => start,
            None => {
                return None;
            },
        };
        let alloc_end = match alloc_start.checked_add(size) {
            Some(end) => end,
            None => {
                return None;
            },
        };
        if alloc_end > self.heap_end {
            None
        } else {
            self.next = alloc_end;
            self.allocations += 1;
            Some(alloc_start)
        }
    }

    /// Takes note that one block was released. The block itself is not
    /// looked at: when the last live block is released, the whole heap is
    /// free again.
    pub fn deallocate(&mut self, _ptr: usize, _size: usize, _align: usize)
        requires
            old(self)@.allocations > 0,
        ensures
            final(self)@ == old(self)@.deallocate(),
            old(self)@.wf() ==> final(self)@.wf(),
    {
        self.allocations -= 1;
        if self.allocations == 0 {
            self.next = self.heap_start;
        }
    }
}

/// Requests never move the bump pointer back, nor the heap.
pub proof fn lemma_requests_advance(state: BumpState, requests: Seq<Request>, m: nat, n: nat)
    requires
        m <= n <= requests.len(),
        forall|k: int| 0 <= k < requests.len() ==> (#[trigger] requests[k]).align > 0,
    ensures
        state.after_requests(requests, m).next <= state.after_requests(requests, n).next,
        state.after_requests(requests, n).heap_start == state.heap_start,
        state.after_requests(requests, n).heap_end == state.heap_end,
    decreases n,
{
    if n > 0 {
        let before = state.after_requests(requests, (n - 1) as nat);
        lemma_align_up_is_least(before.next as int, requests[n - 1].align as int);
        if m < n {
            lemma_requests_advance(state, requests, m, (n - 1) as nat);
        } else {
            lemma_requests_advance(state, requests, (n - 1) as nat, (n - 1) as nat);
        }
    }
}

/// No overlap: of the blocks that a run of requests yields, with no release
/// in between, an earlier one ends before a later one starts.
pub proof fn lemma_blocks_disjoint(state: BumpState, requests: Seq<Request>, i: nat, j: nat)
    requires
        i < j < requests.len(),
        forall|k: int| 0 <= k < requests.len() ==> (#[trigger] requests[k]).align > 0,
        state.block(requests, i) is Some,
        state.block(requests, j) is Some,
    ensures
        state.block(requests, i).unwrap() + requests[i as int].size <= state.block(
            requests,
            j,
        ).unwrap(),
{
    let before_j = state.after_requests(requests, j);
    lemma_requests_advance(state, requests, i + 1, j);
    lemma_align_up_is_least(before_j.next as int, requests[j as int].align as int);
    assert(state.after_requests(requests, i + 1) == state.after_requests(requests, i).allocate(
        requests[i as int].size,
        requests[i as int].align,
    ).0);
}

/// Exhaustion: a request for more bytes than lie between the bump pointer
/// and the end of the heap yields no block and changes nothing.
pub proof fn lemma_exhaustion(state: BumpState, size: usize, align: usize)
    requires
        align > 0,
        state.next <= state.heap_end,
        size > state.free_space(),
    ensures
        state.allocate(size, align) == (state, None::<usize>),
{
    lemma_align_up_is_least(state.next as int, align as int);
}

/// Round trip: where a block is allocated, released and asked for again,
/// the second request yields the same address if the release left no live
/// block, and for a block of at least one byte only then.
pub proof fn lemma_round_trip(state: BumpState, size: usize, align: usize)
    requires
        state.wf(),
        align > 0,
        state.allocations < usize::MAX,
        state.allocate(size, align).1 is Some,
    ensures
        ({
            let first = state.allocate(size, align);
            let released = first.0.deallocate();
            let second = released.allocate(size, align);
            &&& released.allocations == 0 ==> released == state && second == first
            &&& second.1 == first.1 && size > 0 ==> released.allocations == 0
        }),
{
    let first = state.allocate(size, align);
    let released = first.0.deallocate();
    lemma_align_up_is_least(state.next as int, align as int);
    lemma_align_up_is_least(released.next as int, align as int);
}

/// The count of live blocks after a run of requests, made with no release
/// in between, has grown by the number of requests that yielded a block,
/// and a well-formed state stays so.
pub proof fn lemma_requests_counted(state: BumpState, requests: Seq<Request>, n: nat)
    requires
        n <= requests.len(),
        state.allocations + n <= usize::MAX,
        forall|k: int| 0 <= k < requests.len() ==> (#[trigger] requests[k]).align > 0,
    ensures
        state.after_requests(requests, n).allocations == state.allocations + state.served(
            requests,
            n,
        ),
        state.served(requests, n) <= n,
        state.wf() ==> state.after_requests(requests, n).wf(),
    decreases n,
{
    if n > 0 {
        let before = state.after_requests(requests, (n - 1) as nat);
        lemma_requests_counted(state, requests, (n - 1) as nat);
        lemma_align_up_is_least(before.next as int, requests[n - 1].align as int);
    }
}

/// As many releases as there are live blocks bring the bump pointer back to
/// the start of the heap.
pub proof fn lemma_releases_reset(state: BumpState)
    requires
        state.allocations == 0 ==> state.next == state.heap_start,
    ensures
        state.after_releases(state.allocations as nat) == (BumpState {
            next: state.heap_start,
            allocations: 0,
            ..state
        }),
    decreases state.allocations,
{
    if state.allocations > 0 {
        lemma_releases_reset(state.deallocate());
    }
}

/// Bump reset: after the blocks that a run of requests yielded have all been
/// released, the allocator is where it was before the first request, so the
/// next block starts at the start of the heap, rounded up to its alignment.
pub proof fn lemma_reset_after_releases(
    state: BumpState,
    requests: Seq<Request>,
    size: usize,
    align: usize,
)
    requires
        state.wf(),
        state.allocations == 0,
        requests.len() <= usize::MAX,
        forall|k: int| 0 <= k < requests.len() ==> (#[trigger] requests[k]).align > 0,
        align > 0,
    ensures
        ({
            let busy = state.after_requests(requests, requests.len());
            let idle = busy.after_releases(state.served(requests, requests.len()));
            &&& busy.allocations == state.served(requests, requests.len())
            &&& idle == state
            &&& idle.allocate(size, align).1 matches Some(addr) ==> addr == spec_align_up(
                state.heap_start as int,
                align as int,
            )
        }),
{
    let busy = state.after_requests(requests, requests.len());
    lemma_requests_counted(state, requests, requests.len());
    lemma_requests_advance(state, requests, 0, requests.len());
    lemma_releases_reset(busy);
    lemma_align_up_is_least(state.next as int, align as int);
}

} // verus!
