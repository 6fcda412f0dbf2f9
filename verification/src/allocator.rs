//! The free-list engine: descriptors for the free regions of a heap, kept in
//! address-ascending order, with first-fit allocation and ordered insertion
//! of released regions.
//!
//! In the running kernel the descriptors live physically inside the memory
//! they describe, linked by raw pointers. Here the same placement arithmetic
//! is carried out over an explicit table of descriptors holding each region's
//! start address and size, so the whole engine is plain verified code; only
//! the constants below tie it to the in-memory layout (a descriptor header
//! occupies `NODE_SIZE` bytes and must sit on a `WORD_64`-aligned address).

pub mod global_impl;

pub use self::global_impl::Locked;

use vstd::prelude::*;

verus! {

/// Alignment constant for 64-bit architecture (8 bytes). Every descriptor
/// is placed on an address that is a multiple of this.
pub const WORD_64: usize = 8;

/// Bytes a free-block descriptor header occupies in the managed memory:
/// one machine word for the size and one for the successor link. A region
/// smaller than this cannot be tracked and is discarded.
pub const NODE_SIZE: usize = 16;

/// Describes one free region of the heap: `addr` is the first byte of the
/// region (where the descriptor header itself would be written) and `size`
/// is the number of bytes the region spans, header included.
#[derive(Clone, Copy, Debug, PartialEq, Eq, Structural)]
pub struct ListNode {
    pub size: usize,
    pub addr: usize,
}

/// Categorizes how a requested size fits into a free block.
#[derive(Clone, Copy, Debug, PartialEq, Eq, Structural)]
pub enum FitResult {
    /// The block matches the request perfectly (after alignment); the payload
    /// is the alignment-adjusted start address of the allocation.
    Perfect(usize),
    /// The block is larger than needed; it can be split into a used prefix
    /// starting at the payload address and a remaining free part.
    Split(usize),
}

/// The smallest multiple of `align` that is at least `addr`.
pub open spec fn align_up_spec(addr: int, align: int) -> int {
    if addr % align == 0 {
        addr
    } else {
        addr + align - addr % align
    }
}

/// Rounding an address up to an alignment stays within one `align` of the
/// address, lands on a multiple of `align`, and never moves downwards.
pub proof fn lemma_align_up(addr: int, align: int)
    requires
        addr >= 0,
        align >= 1,
    ensures
        addr <= align_up_spec(addr, align) < addr + align,
        align_up_spec(addr, align) % align == 0,
{
    if addr % align != 0 {
        assert(0 <= addr % align < align) by (nonlinear_arith)
            requires
                addr >= 0 && align >= 1,
        ;
        assert((addr + align - addr % align) % align == 0) by (nonlinear_arith)
            requires
                align >= 1,
        ;
    }
}

/// How a request for `size` bytes at alignment `align` fits into `node`,
/// over unbounded integers: the alignment-adjusted start of the allocation
/// either reaches the block's end exactly (a perfect fit), or leaves at
/// least one descriptor header of room behind the allocation's end *rounded
/// up to descriptor alignment* — where the remainder's descriptor would
/// actually be written (a split fit) — or the block is rejected. Measuring
/// from the rounded-up address is what keeps every split remainder at least
/// one header large. A request whose end would not even fit in the address
/// space can never reach a block's end and is rejected by the same rule.
pub open spec fn fit_of(node: ListNode, size: int, align: int) -> Option<FitResult> {
    let end = node.addr + node.size;
    let aligned = align_up_spec(node.addr as int, align);
    if aligned + size == end {
        Some(FitResult::Perfect(aligned as usize))
    } else if align_up_spec(aligned + size, WORD_64 as int) + NODE_SIZE <= end {
        Some(FitResult::Split(aligned as usize))
    } else {
        None
    }
}

impl ListNode {
    /// A descriptor for a region of `size` bytes with no address assigned
    /// yet.
    pub fn new(size: usize) -> (r: Self)
        ensures
            r.size == size,
            r.addr == 0,
    {
        ListNode { size, addr: 0 }
    }

    /// Returns the starting memory address of this node.
    pub fn start_addr(&self) -> (r: usize)
        ensures
            r == self.addr,
    {
        self.addr
    }

    /// Returns the end address (exclusive) of the memory block managed by
    /// this node.
    pub fn end_addr(&self) -> (r: usize)
        requires
            self.addr + self.size <= usize::MAX,
        ensures
            r == self.addr + self.size,
    {
        self.addr + self.size
    }

    /// Relocates a node to a new address and size. Useful when splitting a
    /// block: the remainder of the block becomes a descriptor further along.
    pub fn update_node(&mut self, new_size: usize, new_addr: usize) -> (r: usize)
        ensures
            final(self).size == new_size,
            final(self).addr == new_addr,
            r == new_addr,
    {
        self.size = new_size;
        self.addr = new_addr;
        self.start_addr()
    }

    /// Checks if a request for `size` with `align` can be satisfied by this
    /// block, and if so whether it consumes the block exactly or splits it.
    pub fn can_fit(&self, size: usize, align: usize) -> (r: Option<FitResult>)
        requires
            align >= 1,
            self.addr + self.size <= usize::MAX,
        ensures
            r == fit_of(*self, size as int, align as int),
    {
        proof {
            lemma_align_up(self.addr as int, align as int);
        }
        let end = self.addr + self.size;
        let rem = self.addr % align;
        if rem != 0 && align - rem > usize::MAX - self.addr {
            // The aligned start would lie beyond the address space, so the
            // allocation cannot end inside the block.
            return None;
        }
        let aligned_address = if rem == 0 {
            self.addr
        } else {
            self.addr + (align - rem)
        };
        if size > usize::MAX - aligned_address {
            // The allocation's end would lie beyond the address space.
            return None;
        }
        let end_alloc = aligned_address + size;
        if end_alloc == end {
            // Fits exactly till the end of the block.
            return Some(FitResult::Perfect(aligned_address));
        }
        // A split would write the remainder's descriptor at the allocation's
        // end rounded up to descriptor alignment; measure the remainder from
        // there.
        proof {
            lemma_align_up(end_alloc as int, WORD_64 as int);
        }
        let rem2 = end_alloc % WORD_64;
        if rem2 != 0 && WORD_64 - rem2 > usize::MAX - end_alloc {
            return None;
        }
        let new_free_addr = if rem2 == 0 {
            end_alloc
        } else {
            end_alloc + (WORD_64 - rem2)
        };
        if new_free_addr < end && end - new_free_addr >= NODE_SIZE {
            // Enough space left over to store a new node header.
            Some(FitResult::Split(aligned_address))
        } else {
            // Either doesn't fit or the leftover fragment is too small.
            None
        }
    }
}

/// Aligns the given address upwards to the nearest multiple of `align`.
pub fn align_up(addr: usize, align: usize) -> (r: usize)
    requires
        align >= 1,
        align_up_spec(addr as int, align as int) <= usize::MAX,
    ensures
        r == align_up_spec(addr as int, align as int),
{
    proof {
        lemma_align_up(addr as int, align as int);
    }
    let rem = addr % align;
    if rem == 0 {
        addr
    } else {
        addr + (align - rem)
    }
}

/// Well-formedness of a free list: every block ends inside the address
/// space, spans at least one descriptor header (anything smaller could not
/// carry its own descriptor), starts on a word-aligned address, and the
/// blocks are address-ascending and non-overlapping (each block ends at or
/// before the next one starts).
pub open spec fn wf_free_list(s: Seq<ListNode>) -> bool {
    &&& forall|i: int|
        0 <= i < s.len() ==> (#[trigger] s[i]).addr + s[i].size <= usize::MAX
    &&& forall|i: int| 0 <= i < s.len() ==> (#[trigger] s[i]).size >= NODE_SIZE
    &&& forall|i: int| 0 <= i < s.len() ==> (#[trigger] s[i]).addr as int % (WORD_64 as int) == 0
    &&& forall|i: int, j: int|
        0 <= i < j < s.len() ==> (#[trigger] s[i]).addr + s[i].size <= (#[trigger] s[j]).addr
}

/// No free block of `s` intersects the half-open region `[lo, hi)`.
pub open spec fn region_free_of(s: Seq<ListNode>, lo: int, hi: int) -> bool {
    forall|i: int|
        0 <= i < s.len() ==> ((#[trigger] s[i]).addr + s[i].size <= lo || hi <= s[i].addr)
}

/// The index of the first block that fits a request, if any block does.
pub open spec fn first_fit(s: Seq<ListNode>, size: int, align: int) -> Option<int>
    decreases s.len(),
{
    if s.len() == 0 {
        None
    } else if fit_of(s[0], size, align) is Some {
        Some(0)
    } else {
        match first_fit(s.drop_first(), size, align) {
            Some(i) => Some(i + 1),
            None => None,
        }
    }
}

/// The descriptor left behind by a split fit: the allocation's end, rounded
/// up to descriptor alignment, becomes the new start, and the block keeps
/// its old end.
pub open spec fn split_remainder(node: ListNode, size: int, align: int) -> ListNode {
    let aligned = align_up_spec(node.addr as int, align);
    let new_addr = align_up_spec(aligned + size, WORD_64 as int);
    ListNode { size: (node.addr + node.size - new_addr) as usize, addr: new_addr as usize }
}

/// Where a new block starting at `addr` belongs in the address-ascending
/// list: immediately before the first block whose start exceeds `addr`.
pub open spec fn insertion_index(s: Seq<ListNode>, addr: int) -> int
    decreases s.len(),
{
    if s.len() == 0 {
        0
    } else if s[0].addr > addr {
        0
    } else {
        1 + insertion_index(s.drop_first(), addr)
    }
}

/// What releasing the region `[addr, addr + size)` does to a free list: the
/// start is rounded up to word alignment and the region's size recomputed
/// from there; a region then too small to hold a descriptor header is
/// discarded, any other is inserted at its address-ordered position.
pub open spec fn add_region_spec(s: Seq<ListNode>, addr: int, size: int) -> Seq<ListNode> {
    let a = align_up_spec(addr, WORD_64 as int);
    let end = addr + size;
    if end - a < NODE_SIZE {
        s
    } else {
        s.insert(insertion_index(s, a), ListNode { size: (end - a) as usize, addr: a as usize })
    }
}

/// `first_fit` returns exactly the first fitting index: if everything before
/// `i` is rejected and `i` fits, the search lands on `i`.
pub proof fn lemma_first_fit_at(s: Seq<ListNode>, size: int, align: int, i: int)
    requires
        0 <= i < s.len(),
        fit_of(s[i], size, align) is Some,
        forall|j: int| 0 <= j < i ==> fit_of(#[trigger] s[j], size, align) is None,
    ensures
        first_fit(s, size, align) == Some(i),
    decreases s.len(),
{
    if i == 0 {
    } else {
        assert(fit_of(s[0], size, align) is None);
        assert(forall|j: int|
            0 <= j < i - 1 ==> fit_of(#[trigger] s.drop_first()[j], size, align) is None);
        lemma_first_fit_at(s.drop_first(), size, align, i - 1);
    }
}

/// If no block fits, the search comes back empty.
pub proof fn lemma_first_fit_none(s: Seq<ListNode>, size: int, align: int)
    requires
        forall|j: int| 0 <= j < s.len() ==> fit_of(#[trigger] s[j], size, align) is None,
    ensures
        first_fit(s, size, align) is None,
    decreases s.len(),
{
    if s.len() > 0 {
        lemma_first_fit_none(s.drop_first(), size, align);
    }
}

/// Conversely, a successful search points at a fitting block and at
/// nothing fitting before it.
pub proof fn lemma_first_fit_some(s: Seq<ListNode>, size: int, align: int)
    requires
        first_fit(s, size, align) is Some,
    ensures
        ({
            let i = first_fit(s, size, align)->0;
            &&& 0 <= i < s.len()
            &&& fit_of(s[i], size, align) is Some
            &&& forall|j: int| 0 <= j < i ==> fit_of(#[trigger] s[j], size, align) is None
        }),
    decreases s.len(),
{
    if s.len() > 0 && fit_of(s[0], size, align) is None {
        lemma_first_fit_some(s.drop_first(), size, align);
        assert(forall|j: int|
            1 <= j < s.len() ==> #[trigger] s[j] == s.drop_first()[j - 1]);
    }
}

/// If any block at all fits, the search succeeds.
pub proof fn lemma_fit_implies_found(s: Seq<ListNode>, size: int, align: int, i: int)
    requires
        0 <= i < s.len(),
        fit_of(s[i], size, align) is Some,
    ensures
        first_fit(s, size, align) is Some,
    decreases s.len(),
{
    if fit_of(s[0], size, align) is None {
        lemma_fit_implies_found(s.drop_first(), size, align, i - 1);
    }
}

/// Removing a block from a well-formed free list leaves it well-formed.
pub proof fn lemma_wf_remove(s: Seq<ListNode>, i: int)
    requires
        wf_free_list(s),
        0 <= i < s.len(),
    ensures
        wf_free_list(s.remove(i)),
{
    let t = s.remove(i);
    assert forall|k: int| 0 <= k < t.len() implies #[trigger] t[k] == s[if k < i {
        k
    } else {
        k + 1
    }] by {}
}

/// Replacing a block by one that stays within its bounds (same end, start
/// not before the old start) keeps the free list well-formed, provided the
/// replacement is itself word-aligned, non-empty and bounded.
pub proof fn lemma_wf_replace_within(s: Seq<ListNode>, i: int, node: ListNode)
    requires
        wf_free_list(s),
        0 <= i < s.len(),
        s[i].addr <= node.addr,
        node.addr + node.size == s[i].addr + s[i].size,
        node.size >= NODE_SIZE,
        node.addr as int % (WORD_64 as int) == 0,
    ensures
        wf_free_list(s.update(i, node)),
{
    let t = s.update(i, node);
    assert forall|k: int, l: int|
        0 <= k < l < t.len() implies (#[trigger] t[k]).addr + t[k].size <= (#[trigger] t[l]).addr by {
        assert(s[k].addr + s[k].size <= s[l].addr);
    }
}

/// Inserting a block that lies entirely between its neighbours keeps the
/// free list well-formed.
pub proof fn lemma_wf_insert(s: Seq<ListNode>, i: int, node: ListNode)
    requires
        wf_free_list(s),
        0 <= i <= s.len(),
        node.addr + node.size <= usize::MAX,
        node.size >= NODE_SIZE,
        node.addr as int % (WORD_64 as int) == 0,
        forall|j: int| 0 <= j < i ==> (#[trigger] s[j]).addr + s[j].size <= node.addr,
        forall|j: int| i <= j < s.len() ==> node.addr + node.size <= (#[trigger] s[j]).addr,
    ensures
        wf_free_list(s.insert(i, node)),
{
    let t = s.insert(i, node);
    s.insert_ensures(i, node);
    assert forall|k: int, l: int|
        0 <= k < l < t.len() implies (#[trigger] t[k]).addr + t[k].size <= (#[trigger] t[l]).addr by {
        if k < i && l < i {
            assert(t[k] == s[k] && t[l] == s[l]);
        } else if k < i && l == i {
            assert(t[k] == s[k]);
        } else if k < i && l > i {
            assert(t[k] == s[k] && t[l] == s[l - 1]);
        } else if k == i {
            assert(t[l] == s[l - 1]);
        } else {
            assert(t[k] == s[k - 1] && t[l] == s[l - 1]);
        }
    }
    assert forall|k: int| 0 <= k < t.len() implies (#[trigger] t[k]).addr + t[k].size <= usize::MAX
        && t[k].size >= NODE_SIZE && t[k].addr as int % (WORD_64 as int) == 0 by {
        if k < i {
            assert(t[k] == s[k]);
        } else if k > i {
            assert(t[k] == s[k - 1]);
        }
    }
}

/// The insertion point for `addr` is exactly the boundary between a prefix
/// of blocks starting at or below `addr` and the rest.
pub proof fn lemma_insertion_index_at(s: Seq<ListNode>, addr: int, i: int)
    requires
        0 <= i <= s.len(),
        forall|j: int| 0 <= j < i ==> (#[trigger] s[j]).addr <= addr,
        i < s.len() ==> s[i].addr > addr,
    ensures
        insertion_index(s, addr) == i,
    decreases s.len(),
{
    if s.len() > 0 && i > 0 {
        assert(s[0].addr <= addr);
        assert(forall|j: int|
            0 <= j < i - 1 ==> (#[trigger] s.drop_first()[j]).addr <= addr);
        assert(i - 1 < s.drop_first().len() ==> s.drop_first()[i - 1].addr > addr);
        lemma_insertion_index_at(s.drop_first(), addr, i - 1);
    }
}

/// The insertion point always lies within the list.
pub proof fn lemma_insertion_index_range(s: Seq<ListNode>, addr: int)
    ensures
        0 <= insertion_index(s, addr) <= s.len(),
    decreases s.len(),
{
    if s.len() > 0 && !(s[0].addr > addr) {
        lemma_insertion_index_range(s.drop_first(), addr);
    }
}

/// Perfect-fit exactness: a request whose size equals a free block's size,
/// when the block's start already satisfies the requested alignment and no
/// earlier block fits, is classified as a perfect fit, the search lands on
/// that block, and serving the request removes exactly that one node
/// (the list shrinks by one).
pub proof fn lemma_perfect_fit_exactness(s: Seq<ListNode>, size: int, align: int, i: int)
    requires
        align >= 1,
        0 <= i < s.len(),
        forall|j: int| 0 <= j < i ==> fit_of(#[trigger] s[j], size, align) is None,
        align_up_spec(s[i].addr as int, align) == s[i].addr,
        size == s[i].size,
    ensures
        first_fit(s, size, align) == Some(i),
        fit_of(s[i], size, align) == Some(FitResult::Perfect(s[i].addr)),
        s.remove(i).len() == s.len() - 1,
{
    assert(fit_of(s[i], size, align) == Some(FitResult::Perfect(s[i].addr)));
    lemma_first_fit_at(s, size, align, i);
}

/// Split correctness: a request that consumes less than a free block and
/// leaves at least one descriptor header of room behind the relocated
/// descriptor position, with no earlier block fitting, is served from the
/// block's alignment-adjusted start; exactly one node replaces the old one
/// (the list keeps its length), its size is the old size minus the bytes
/// consumed from the block's start up to the relocated descriptor, and that
/// remainder is itself at least one descriptor header.
pub proof fn lemma_split_correctness(s: Seq<ListNode>, size: int, align: int, i: int)
    requires
        align >= 1,
        size >= 0,
        0 <= i < s.len(),
        s[i].addr + s[i].size <= usize::MAX,
        forall|j: int| 0 <= j < i ==> fit_of(#[trigger] s[j], size, align) is None,
        align_up_spec(align_up_spec(s[i].addr as int, align) + size, WORD_64 as int) + NODE_SIZE
            <= s[i].addr + s[i].size,
    ensures
        ({
            let a = align_up_spec(s[i].addr as int, align);
            let consumed = align_up_spec(a + size, WORD_64 as int) - s[i].addr;
            &&& first_fit(s, size, align) == Some(i)
            &&& fit_of(s[i], size, align) == Some(FitResult::Split(a as usize))
            &&& split_remainder(s[i], size, align).size == s[i].size - consumed
            &&& split_remainder(s[i], size, align).size >= NODE_SIZE
            &&& s.update(i, split_remainder(s[i], size, align)).len() == s.len()
        }),
{
    lemma_align_up(s[i].addr as int, align);
    let a = align_up_spec(s[i].addr as int, align);
    lemma_align_up(a + size, WORD_64 as int);
    assert(fit_of(s[i], size, align) == Some(FitResult::Split(a as usize)));
    lemma_first_fit_at(s, size, align, i);
}

/// Fragment rejection: a block that could host the requested bytes but
/// whose only possible split would leave a remainder smaller than one
/// descriptor header (measured from the relocated descriptor's position)
/// is skipped even though it is otherwise a candidate, and the search
/// continues to the next fitting block.
pub proof fn lemma_fragment_rejected(s: Seq<ListNode>, size: int, align: int, i: int, k: int)
    requires
        0 <= i < k < s.len(),
        forall|j: int| 0 <= j < i ==> fit_of(#[trigger] s[j], size, align) is None,
        align_up_spec(s[i].addr as int, align) + size < s[i].addr + s[i].size,
        align_up_spec(align_up_spec(s[i].addr as int, align) + size, WORD_64 as int) + NODE_SIZE
            > s[i].addr + s[i].size,
        forall|j: int| i < j < k ==> fit_of(#[trigger] s[j], size, align) is None,
        fit_of(s[k], size, align) is Some,
    ensures
        fit_of(s[i], size, align) is None,
        first_fit(s, size, align) == Some(k),
{
    lemma_first_fit_at(s, size, align, k);
}

/// Round-trip reuse: releasing a word-aligned region of at least one
/// descriptor header and then requesting exactly its size, at an alignment
/// its address already satisfies, finds a perfect fit again; and when no
/// block before the re-inserted one fits, the very same address is handed
/// back.
pub proof fn lemma_round_trip_reuse(s: Seq<ListNode>, addr: usize, n: usize, align: int)
    requires
        align >= 1,
        addr as int % (WORD_64 as int) == 0,
        align_up_spec(addr as int, align) == addr,
        NODE_SIZE <= n,
        addr + n <= usize::MAX,
    ensures
        ({
            let reinserted = ListNode { size: n, addr };
            let s2 = add_region_spec(s, addr as int, n as int);
            let k = insertion_index(s, addr as int);
            &&& s2 == s.insert(k, reinserted)
            &&& fit_of(reinserted, n as int, align) == Some(FitResult::Perfect(addr))
            &&& first_fit(s2, n as int, align) is Some
            &&& (forall|j: int| 0 <= j < k ==> fit_of(#[trigger] s2[j], n as int, align) is None)
                ==> first_fit(s2, n as int, align) == Some(k)
        }),
{
    let reinserted = ListNode { size: n, addr };
    let s2 = add_region_spec(s, addr as int, n as int);
    let k = insertion_index(s, addr as int);
    lemma_insertion_index_range(s, addr as int);
    s.insert_ensures(k, reinserted);
    assert(s2[k] == reinserted);
    lemma_fit_implies_found(s2, n as int, align, k);
    if forall|j: int| 0 <= j < k ==> fit_of(#[trigger] s2[j], n as int, align) is None {
        lemma_first_fit_at(s2, n as int, align, k);
    }
}

/// Exhaustion determinism: when no free block fits a request, every block
/// individually rejects it, so the same request keeps failing against the
/// unchanged list; releasing a region whose word-aligned usable part fits
/// the request makes it succeed again.
pub proof fn lemma_exhaustion_until_release(
    s: Seq<ListNode>,
    size: int,
    align: int,
    addr: usize,
    rsize: usize,
)
    requires
        first_fit(s, size, align) is None,
        addr + rsize <= usize::MAX,
    ensures
        forall|i: int| 0 <= i < s.len() ==> fit_of(#[trigger] s[i], size, align) is None,
        ({
            let a = align_up_spec(addr as int, WORD_64 as int);
            let usable = ListNode { size: (addr + rsize - a) as usize, addr: a as usize };
            (NODE_SIZE <= addr + rsize - a <= usize::MAX && fit_of(usable, size, align) is Some)
                ==> first_fit(add_region_spec(s, addr as int, rsize as int), size, align)
                is Some
        }),
{
    assert forall|i: int| 0 <= i < s.len() implies fit_of(#[trigger] s[i], size, align)
        is None by {
        if fit_of(s[i], size, align) is Some {
            lemma_fit_implies_found(s, size, align, i);
        }
    }
    let a = align_up_spec(addr as int, WORD_64 as int);
    let usable = ListNode { size: (addr + rsize - a) as usize, addr: a as usize };
    if NODE_SIZE <= addr + rsize - a <= usize::MAX && fit_of(usable, size, align) is Some {
        let s2 = add_region_spec(s, addr as int, rsize as int);
        let k = insertion_index(s, a);
        lemma_insertion_index_range(s, a);
        lemma_align_up(addr as int, WORD_64 as int);
        s.insert_ensures(k, usable);
        assert(s2[k] == usable);
        lemma_fit_implies_found(s2, size, align, k);
    }
}

/// Undersized releases vanish: a region whose word-aligned remainder
/// cannot hold one descriptor header is dropped silently, leaving the free
/// list — and with it the total tracked capacity — exactly unchanged.
pub proof fn lemma_undersized_release_dropped(s: Seq<ListNode>, addr: int, size: int)
    requires
        addr + size - align_up_spec(addr, WORD_64 as int) < NODE_SIZE,
    ensures
        add_region_spec(s, addr, size) == s,
{
}

/// The free-list engine: the table of free-block descriptors, in
/// address-ascending order. In the kernel the entries are chained through
/// a sentinel head node inside the heap itself; here the sentinel is the
/// table and the chain is its order.
pub struct LinkedListAllocator {
    free: Vec<ListNode>,
}

impl Default for LinkedListAllocator {
    /// An empty allocator, exactly as `new` makes it.
    fn default() -> (r: Self)
        ensures
            r@ == Seq::<ListNode>::empty(),
    {
        Self::new()
    }
}

impl View for LinkedListAllocator {
    type V = Seq<ListNode>;

    closed spec fn view(&self) -> Seq<ListNode> {
        self.free@
    }
}

impl LinkedListAllocator {
    /// Every allocator value, wherever it lives, carries a well-formed free
    /// list: the engine's operations establish and preserve this without any
    /// demand on their callers.
    #[verifier::type_invariant]
    spec fn inv(&self) -> bool {
        wf_free_list(self@)
    }

    /// Creates an empty allocator with no managed memory.
    pub fn new() -> (r: Self)
        ensures
            r@ == Seq::<ListNode>::empty(),
            wf_free_list(r@),
    {
        let r = Self { free: Vec::new() };
        proof {
            assert(r@ =~= Seq::<ListNode>::empty());
        }
        r
    }

    /// Initializes the allocator with a memory range. Must be called exactly
    /// once, on a fresh allocator; the caller must own the range and not use
    /// it elsewhere afterwards.
    pub fn init(&mut self, heap_start: usize, heap_size: usize)
        requires
            old(self)@.len() == 0,
            heap_start + heap_size <= usize::MAX,
        ensures
            wf_free_list(final(self)@),
            final(self)@ == add_region_spec(old(self)@, heap_start as int, heap_size as int),
    {
        self.add_free_region(heap_start, heap_size);
    }

    /// Adds a chunk of memory to the free list, maintaining address order.
    /// The start is rounded up to word alignment; a region then too small to
    /// host a descriptor header is silently discarded. The region should be
    /// one this allocator handed out, so that it cannot intersect any block
    /// already on the free list; a region that nevertheless does is refused
    /// outright (dropped like an undersized one) rather than allowed to
    /// corrupt the list.
    pub fn add_free_region(&mut self, addr: usize, size: usize)
        requires
            addr + size <= usize::MAX,
        ensures
            wf_free_list(final(self)@),
            ({
                let a = align_up_spec(addr as int, WORD_64 as int);
                if region_free_of(old(self)@, a, addr + size) {
                    final(self)@ == add_region_spec(old(self)@, addr as int, size as int)
                } else {
                    final(self)@ == old(self)@
                }
            }),
    {
        proof {
            use_type_invariant(&*self);
            lemma_align_up(addr as int, WORD_64 as int);
        }
        let rem = addr % WORD_64;
        if rem != 0 && WORD_64 - rem > usize::MAX - addr {
            // Rounding the start up would leave the address space: nothing
            // of the region is usable.
            return;
        }
        let aligned_addr = if rem == 0 {
            addr
        } else {
            addr + (WORD_64 - rem)
        };
        let end = addr + size;

        // Discard the region if it's too small to even hold a node header.
        if aligned_addr > end || end - aligned_addr < NODE_SIZE {
            return;
        }
        let current_size = end - aligned_addr;

        // Find the insertion point that keeps the list sorted by address.
        let mut idx: usize = 0;
        while idx < self.free.len() && self.free[idx].addr <= aligned_addr
            invariant
                0 <= idx <= self.free.len(),
                self == old(self),
                forall|j: int| 0 <= j < idx ==> (#[trigger] self.free@[j]).addr <= aligned_addr,
            decreases self.free.len() - idx,
        {
            idx += 1;
        }

        // A region that intersects a block already on the list would break
        // the ordering: refuse it. Only the two neighbours of the insertion
        // point can intersect an otherwise-ordered region.
        if idx > 0 {
            let prev = self.free[idx - 1];
            if prev.end_addr() > aligned_addr {
                proof {
                    assert(!region_free_of(self@, aligned_addr as int, end as int)) by {
                        assert(!((self@[idx - 1].addr + self@[idx - 1].size <= aligned_addr as int)
                            || (end as int <= self@[idx - 1].addr)));
                    }
                }
                return;
            }
        }
        if idx < self.free.len() && self.free[idx].addr < end {
            proof {
                assert(!region_free_of(self@, aligned_addr as int, end as int)) by {
                    assert(!((self@[idx as int].addr + self@[idx as int].size
                        <= aligned_addr as int) || (end as int <= self@[idx as int].addr)));
                }
            }
            return;
        }

        let node = ListNode { size: current_size, addr: aligned_addr };
        proof {
            lemma_insertion_index_at(self@, aligned_addr as int, idx as int);
            assert forall|j: int| 0 <= j < idx implies (#[trigger] self@[j]).addr + self@[j].size
                <= node.addr by {
                if j < idx - 1 {
                    assert(self@[j].addr + self@[j].size <= self@[idx - 1].addr);
                    assert(self@[idx - 1].addr <= aligned_addr);
                }
            }
            assert forall|j: int| idx <= j < self@.len() implies node.addr + node.size
                <= (#[trigger] self@[j]).addr by {
                if j > idx {
                    assert(self@[idx as int].addr + self@[idx as int].size <= self@[j].addr);
                }
            }
            lemma_wf_insert(self@, idx as int, node);
            assert(region_free_of(self@, aligned_addr as int, end as int));
        }
        let mut list = Vec::new();
        core::mem::swap(&mut list, &mut self.free);
        list.insert(idx, node);
        self.free = list;
    }

    /// Searches the list for the first free region that can host `size`
    /// bytes at alignment `align` and carves the allocation out of it:
    /// a perfect fit unlinks the block, a split fit leaves the remainder
    /// behind as a relocated descriptor. Returns the allocation's start
    /// address, or `None` if no block fits.
    pub fn find_region(&mut self, size: usize, align: usize) -> (r: Option<usize>)
        requires
            align >= 1,
        ensures
            wf_free_list(final(self)@),
            ({
                let found = first_fit(old(self)@, size as int, align as int);
                match found {
                    None => r is None && final(self)@ == old(self)@,
                    Some(i) => match fit_of(old(self)@[i], size as int, align as int) {
                        Some(FitResult::Perfect(a)) => r == Some(a) && final(self)@ == old(
                            self,
                        )@.remove(i),
                        Some(FitResult::Split(a)) => r == Some(a) && final(self)@ == old(
                            self,
                        )@.update(i, split_remainder(old(self)@[i], size as int, align as int)),
                        None => false,
                    },
                }
            }),
    {
        proof {
            use_type_invariant(&*self);
        }
        let mut idx: usize = 0;

        // Iterate through the list of free blocks.
        while idx < self.free.len()
            invariant
                wf_free_list(self@),
                self == old(self),
                align >= 1,
                0 <= idx <= self.free.len(),
                forall|j: int|
                    0 <= j < idx ==> fit_of(#[trigger] self@[j], size as int, align as int)
                        is None,
            decreases self.free.len() - idx,
        {
            let node = self.free[idx];
            match node.can_fit(size, align) {
                Some(FitResult::Perfect(address)) => {
                    // Perfect match: remove this node from the list entirely.
                    proof {
                        lemma_first_fit_at(self@, size as int, align as int, idx as int);
                        lemma_wf_remove(self@, idx as int);
                    }
                    let mut list = Vec::new();
                    core::mem::swap(&mut list, &mut self.free);
                    list.remove(idx);
                    self.free = list;
                    return Some(address);
                }
                Some(FitResult::Split(address)) => {
                    // Split match: the caller gets the start, and the
                    // remainder becomes a relocated node with the same end.
                    proof {
                        lemma_first_fit_at(self@, size as int, align as int, idx as int);
                        lemma_align_up(node.addr as int, align as int);
                        lemma_align_up(address + size, WORD_64 as int);
                    }
                    let alloc_end = address + size;
                    let new_free_addr = align_up(alloc_end, WORD_64);
                    let new_free_size = node.end_addr() - new_free_addr;
                    let mut relocated = node;
                    relocated.update_node(new_free_size, new_free_addr);
                    proof {
                        assert(relocated == split_remainder(node, size as int, align as int));
                        lemma_wf_replace_within(self@, idx as int, relocated);
                    }
                    let mut list = Vec::new();
                    core::mem::swap(&mut list, &mut self.free);
                    list.remove(idx);
                    list.insert(idx, relocated);
                    self.free = list;
                    proof {
                        assert(self@ =~= old(self)@.update(
                            idx as int,
                            split_remainder(node, size as int, align as int),
                        ));
                    }
                    return Some(address);
                }
                None => {
                    // No fit in this block, move to the next one.
                    idx += 1;
                }
            }
        }
        proof {
            lemma_first_fit_none(self@, size as int, align as int);
        }
        None
    }

    /// The number of free blocks currently on the list.
    pub fn block_count(&self) -> (r: usize)
        ensures
            r == self@.len(),
    {
        self.free.len()
    }

    /// The start address of the free block at position `i` of the
    /// address-ascending list.
    pub fn block_addr(&self, i: usize) -> (r: usize)
        requires
            i < self@.len(),
        ensures
            r == self@[i as int].addr,
    {
        self.free[i].addr
    }

    /// The size in bytes of the free block at position `i` of the
    /// address-ascending list.
    pub fn block_size(&self, i: usize) -> (r: usize)
        requires
            i < self@.len(),
        ensures
            r == self@[i as int].size,
    {
        self.free[i].size
    }
}

} // verus!
