//! A binary buddy allocator for the kernel heap.
//!
//! The allocator manages the region `base .. base + total_size` in
//! power-of-two blocks. `free_lists[o]` tracks the free blocks of
//! size `2^(o + MIN_ORDER)`; a block's buddy is its partner of the
//! same size, and freeing merges free buddies into larger blocks.
//! Free lists are kept as plain vectors of block records with
//! bounds-checked addresses. The invariant keeps every listed block
//! inside the managed region, aligned to its own size relative to
//! the region base, with no two free blocks sharing a byte; a ghost
//! set records the outstanding (handed-out) blocks, pairwise
//! disjoint and disjoint from every free block, so an allocation is
//! proved to never overlap another outstanding allocation.

use vstd::prelude::*;

verus! {

/// Bit width of the minimum allocation unit: the smallest block is
/// `2^MIN_ORDER` bytes.
pub const MIN_ORDER: usize = 3;

/// Maximum order relative to [`MIN_ORDER`].
pub const MAX_ORDER: usize = 27;

/// 2 to the power `k`.
pub open spec fn pow2(k: int) -> int
    decreases k,
{
    if k <= 0 {
        1
    } else {
        2 * pow2(k - 1)
    }
}

/// Block size of an order: `2^(order + MIN_ORDER)` bytes.
pub open spec fn spec_block_size(order: int) -> int {
    pow2(order + MIN_ORDER)
}

/// Powers of two are positive and increase.
pub proof fn lemma_pow2_positive(k: int)
    ensures
        pow2(k) >= 1,
    decreases k,
{
    if k > 0 {
        lemma_pow2_positive(k - 1);
    }
}

/// Powers of two do not shrink as the exponent grows.
proof fn lemma_pow2_mono(j: int, k: int)
    requires
        j <= k,
    ensures
        pow2(j) <= pow2(k),
    decreases k - j,
{
    if j < k {
        lemma_pow2_mono(j, k - 1);
        lemma_pow2_positive(k - 1);
    }
}

/// The powers of two up to the largest block stay within bounds.
proof fn lemma_pow2_bound(k: int)
    requires
        k <= 30,
    ensures
        pow2(k) <= 0x40000000,
{
    lemma_pow2_mono(k, 30);
    assert(pow2(30) == 0x40000000) by {
        reveal_with_fuel(pow2, 32);
    }
}

/// Index of the first record of `target` in a free list, scanning
/// from `i`.
pub open spec fn find_block(list: Seq<FreeNode>, target: usize, i: int) -> Option<int>
    decreases list.len() - i,
{
    if i < 0 || i >= list.len() {
        None
    } else if list[i].addr == target {
        Some(i)
    } else {
        find_block(list, target, i + 1)
    }
}

/// A found block's index is in range and carries the target.
proof fn lemma_find_block_found(list: Seq<FreeNode>, target: usize, i: int)
    requires
        0 <= i,
    ensures
        find_block(list, target, i) matches Some(j) ==> i <= j < list.len() && list[j].addr
            == target,
    decreases list.len() - i,
{
    if i < list.len() {
        lemma_find_block_found(list, target, i + 1);
    }
}

/// One free block, recorded by its address.
pub struct FreeNode {
    /// Address of the block.
    pub addr: usize,
}

impl FreeNode {
    /// Records a free block on a list.
    pub fn push(list: &mut Vec<FreeNode>, addr: usize)
        ensures
            final(list)@ == old(list)@.push(FreeNode { addr }),
    {
        list.push(FreeNode { addr });
    }

    /// Takes one free block off the list, if any.
    pub fn pop(list: &mut Vec<FreeNode>) -> (r: Option<usize>)
        ensures
            r is None <==> old(list)@.len() == 0,
            r is None ==> final(list)@ == old(list)@,
            r matches Some(a) ==> old(list)@.len() > 0 && a == old(list)@.last().addr && final(
                list)@ == old(list)@.drop_last(),
    {
        let popped = list.pop();
        match popped {
            Some(node) => Some(node.addr),
            None => None,
        }
    }

    /// Removes the first record of the block at `target`, keeping
    /// the relative order of the rest, and reports whether one was
    /// found; an absent block leaves the list untouched.
    pub fn remove(list: &mut Vec<FreeNode>, target: usize) -> (r: bool)
        ensures
            ({
                let m = find_block(old(list)@, target, 0);
                match m {
                    Option::Some(i) => r && final(list)@ == old(list)@.remove(i),
                    Option::None => !r && final(list)@ == old(list)@,
                }
            }),
            r == exists|i: int| 0 <= i < old(list)@.len() && old(list)@[i].addr == target,
            r ==> forall|j: int|
                0 <= j < final(list)@.len() ==> exists|i: int|
                    0 <= i < old(list)@.len() && #[trigger] final(list)@[j] == old(list)@[i],
    {
        let n = list.len();
        let mut i: usize = 0;
        while i < n
            invariant
                i <= n,
                n == list@.len(),
                list@ == old(list)@,
                find_block(old(list)@, target, 0) == find_block(old(list)@, target, i as int),
                forall|k: int| 0 <= k < i ==> list@[k].addr != target,
            decreases n - i,
        {
            if list[i].addr == target {
                let ghost pre = list@;
                list.remove(i);
                proof {
                    assert(pre == old(list)@);
                    assert(old(list)@[i as int].addr == target);
                    assert(find_block(old(list)@, target, 0) == Some(i as int));
                    assert forall|j: int| 0 <= j < list@.len() implies exists|k: int|
                        0 <= k < pre.len() && #[trigger] list@[j] == pre[k] by {
                        if j < i {
                            assert(list@[j] == pre[j]);
                        } else {
                            assert(list@[j] == pre[j + 1]);
                        }
                    }
                }
                return true;
            }
            i = i + 1;
        }
        proof {
            if exists|k: int| 0 <= k < old(list)@.len() && old(list)@[k].addr == target {
                let k = choose|k: int|
                    0 <= k < old(list)@.len() && old(list)@[k].addr == target;
                assert(list@[k].addr != target);
            }
        }
        false
    }
}

/// The allocator state: region bounds and the per-order free lists,
/// with a ghost record of the outstanding (handed-out, not yet
/// freed) blocks as (address, order) pairs.
pub struct BuddyAllocator {
    /// Start address of the managed region.
    pub base: usize,
    /// Total size of the managed region in bytes.
    pub total_size: usize,
    /// Per-order free lists; `free_lists[o]` holds blocks of
    /// `2^(o + MIN_ORDER)` bytes.
    pub free_lists: Vec<Vec<FreeNode>>,
    /// The outstanding blocks: allocation records them, freeing
    /// removes them.
    pub live: Ghost<Set<(int, int)>>,
}

impl BuddyAllocator {
    /// A block record fits the region and is aligned to its size.
    pub open spec fn block_ok(self, order: int, addr: int) -> bool {
        &&& self.base <= addr
        &&& addr + spec_block_size(order) <= self.base + self.total_size
        &&& (addr - self.base) % spec_block_size(order) == 0
    }

    /// The block at `a1` of `o1` and the block at `a2` of `o2`
    /// share no byte.
    pub open spec fn spec_blocks_disjoint(a1: int, o1: int, a2: int, o2: int) -> bool {
        a1 + spec_block_size(o1) <= a2 || a2 + spec_block_size(o2) <= a1
    }

    /// No outstanding block shares a byte with `ptr .. ptr + size`.
    pub open spec fn live_disjoint_from(self, ptr: int, size: int) -> bool {
        forall|b: (int, int)| #[trigger]
            self.live@.contains(b) ==> (b.0 + spec_block_size(b.1) <= ptr || ptr + size <= b.0)
    }

    /// No listed free block shares a byte with `ptr .. ptr + size`.
    pub open spec fn free_disjoint_from(self, ptr: int, size: int) -> bool {
        forall|o: int, i: int|
            0 <= o <= MAX_ORDER && 0 <= i < self.free_lists@[o]@.len() ==> ((
            #[trigger] self.free_lists@[o]@[i]).addr as int + spec_block_size(o) <= ptr || ptr
                + size <= self.free_lists@[o]@[i].addr as int)
    }

    /// Some listed free block contains the bytes `ptr .. ptr + size`.
    pub open spec fn has_free_block_containing(self, ptr: int, size: int) -> bool {
        exists|o: int, i: int|
            0 <= o <= MAX_ORDER && 0 <= i < self.free_lists@[o]@.len() && (
            #[trigger] self.free_lists@[o]@[i]).addr as int <= ptr && ptr + size
                <= self.free_lists@[o]@[i].addr + spec_block_size(o)
    }

    /// Well-formed allocator: one list per order, every listed
    /// block inside the region and aligned to its own size, and no
    /// two listed free blocks sharing a byte.
    pub open spec fn wf(self) -> bool {
        &&& self.free_lists@.len() == MAX_ORDER + 1
        &&& self.base + self.total_size <= usize::MAX
        &&& forall|o: int, i: int|
            0 <= o <= MAX_ORDER && 0 <= i < self.free_lists@[o]@.len() ==> self.block_ok(
                o,
                #[trigger] self.free_lists@[o]@[i].addr as int,
            )
        &&& forall|o1: int, i1: int, o2: int, i2: int|
            0 <= o1 <= MAX_ORDER && 0 <= i1 < self.free_lists@[o1]@.len() && 0 <= o2 <= MAX_ORDER
                && 0 <= i2 < self.free_lists@[o2]@.len() && !(o1 == o2 && i1 == i2)
                ==> Self::spec_blocks_disjoint(
                (#[trigger] self.free_lists@[o1]@[i1]).addr as int,
                o1,
                (#[trigger] self.free_lists@[o2]@[i2]).addr as int,
                o2,
            )
        &&& forall|b: (int, int)| #[trigger]
            self.live@.contains(b) ==> 0 <= b.1 <= MAX_ORDER && self.block_ok(b.1, b.0)
        &&& forall|b1: (int, int), b2: (int, int)|
            #[trigger] self.live@.contains(b1) && #[trigger] self.live@.contains(b2) && b1 != b2
                ==> Self::spec_blocks_disjoint(b1.0, b1.1, b2.0, b2.1)
        &&& forall|o: int, i: int, b: (int, int)|
            0 <= o <= MAX_ORDER && 0 <= i < self.free_lists@[o]@.len() && #[trigger] self
                .live@.contains(b) ==> Self::spec_blocks_disjoint(
                (#[trigger] self.free_lists@[o]@[i]).addr as int,
                o,
                b.0,
                b.1,
            )
    }

    /// An allocator with no region and empty lists.
    pub fn new() -> (r: BuddyAllocator)
        ensures
            r.wf(),
            r.base == 0,
            r.total_size == 0,
            r.live@ == Set::<(int, int)>::empty(),
            forall|o: int| 0 <= o <= MAX_ORDER ==> r.free_lists@[o]@.len() == 0,
    {
        let mut lists: Vec<Vec<FreeNode>> = Vec::new();
        let mut o: usize = 0;
        while o < MAX_ORDER + 1
            invariant
                o <= MAX_ORDER + 1,
                lists@.len() == o,
                forall|k: int| 0 <= k < o ==> lists@[k]@.len() == 0,
            decreases MAX_ORDER + 1 - o,
        {
            lists.push(Vec::new());
            o = o + 1;
        }
        BuddyAllocator { base: 0, total_size: 0, free_lists: lists, live: Ghost(Set::empty()) }
    }

    /// Block size in bytes of a given order: `2^(order + MIN_ORDER)`.
    pub fn block_size(order: usize) -> (r: usize)
        requires
            order <= MAX_ORDER,
        ensures
            r == spec_block_size(order as int),
            r >= 8,
            r <= 0x40000000,
    {
        let mut size: usize = 8;
        let mut k: usize = 0;
        proof {
            lemma_pow2_bound(order as int + MIN_ORDER);
            assert(pow2(3) == 8) by {
                reveal_with_fuel(pow2, 4);
            }
        }
        while k < order
            invariant
                k <= order,
                order <= MAX_ORDER,
                size == pow2(k as int + MIN_ORDER),
                8 <= size <= 0x40000000,
            decreases order - k,
        {
            proof {
                lemma_pow2_bound(k as int + 1 + MIN_ORDER);
            }
            size = size * 2;
            k = k + 1;
        }
        size
    }

    /// Buddy of the block at `ptr` for `order`: its partner block of
    /// the same size, the one it merges with.
    pub fn buddy_addr(ptr: usize, order: usize) -> (r: usize)
        requires
            order <= MAX_ORDER,
            ptr + spec_block_size(order as int) <= usize::MAX,
        ensures
            r == spec_buddy_addr(ptr as int, order as int),
    {
        let bs = Self::block_size(order);
        if (ptr / bs) % 2 == 0 {
            ptr + bs
        } else {
            proof {
                vstd::arithmetic::div_mod::lemma_fundamental_div_mod(ptr as int, bs as int);
                assert(ptr as int >= bs as int) by (nonlinear_arith)
                    requires
                        bs >= 8,
                        ptr as int == bs as int * (ptr as int / bs as int) + ptr as int
                            % bs as int,
                        (ptr as int / bs as int) % 2 == 1,
                        ptr as int % bs as int >= 0,
                ;
            }
            ptr - bs
        }
    }

    /// Smallest order whose block size holds `size` bytes; nothing
    /// for a size beyond the largest block.
    pub fn size_to_order(size: usize) -> (r: Option<usize>)
        ensures
            r is Some <==> size <= spec_block_size(MAX_ORDER as int),
            r matches Some(o) ==> o <= MAX_ORDER && spec_block_size(o as int) >= size && (o > 0
                ==> spec_block_size(o as int - 1) < size),
    {
        let mut o: usize = 0;
        loop
            invariant
                o <= MAX_ORDER + 1,
                forall|k: int| 0 <= k < o ==> spec_block_size(k) < size,
            ensures
                (o <= MAX_ORDER && spec_block_size(o as int) >= size && forall|k: int|
                    0 <= k < o ==> spec_block_size(k) < size) || (o == MAX_ORDER + 1 && forall|
                    k: int,
                |
                    0 <= k <= MAX_ORDER ==> spec_block_size(k) < size),
            decreases MAX_ORDER + 1 - o,
        {
            if o > MAX_ORDER {
                break ;
            }
            let bs = Self::block_size(o);
            if bs >= size {
                break ;
            }
            o = o + 1;
        }
        proof {
            if o <= MAX_ORDER {
                lemma_pow2_mono(o as int + MIN_ORDER, MAX_ORDER as int + MIN_ORDER);
            } else {
                assert(spec_block_size(MAX_ORDER as int) < size);
            }
        }
        if o <= MAX_ORDER {
            Some(o)
        } else {
            None
        }
    }
}

/// Buddy address as a mathematical function: the partner block of
/// the same size, above an even-positioned block and below an odd
/// one.
pub open spec fn spec_buddy_addr(ptr: int, order: int) -> int {
    if (ptr / spec_block_size(order)) % 2 == 0 {
        ptr + spec_block_size(order)
    } else {
        ptr - spec_block_size(order)
    }
}

/// The buddy-allocator interface the kernel heap is consumed
/// through: initialise once with the managed region, then allocate
/// and release power-of-two blocks by order. The kernel core depends
/// only on this contract, not on the free-list internals.
pub trait BuddyAlloc: Sized {
    /// The implementor's internal invariant.
    spec fn inv(&self) -> bool;

    /// Start of the managed region.
    spec fn region_base(&self) -> int;

    /// Size of the managed region in bytes.
    spec fn region_size(&self) -> int;

    /// Some free block of the pool contains the bytes
    /// `ptr .. ptr + size`.
    spec fn free_covers(&self, ptr: int, size: int) -> bool;

    /// No free block of the pool shares a byte with
    /// `ptr .. ptr + size`.
    spec fn free_disjoint(&self, ptr: int, size: int) -> bool;

    /// The outstanding blocks: every (address, order) pair handed
    /// out by the allocator and not yet freed.
    spec fn live_blocks(&self) -> Set<(int, int)>;

    /// Hands the region `base .. base + size` to the allocator,
    /// carving it into power-of-two blocks: afterwards every byte of
    /// the region, up to the tail shorter than the minimum unit,
    /// lies in some free block.
    fn init(&mut self, base: usize, size: usize)
        requires
            old(self).inv(),
            base + size <= usize::MAX,
        ensures
            final(self).inv(),
            final(self).region_base() == base,
            final(self).region_size() == size,
            final(self).live_blocks() == Set::<(int, int)>::empty(),
            forall|u: int|
                0 <= u < 8 * (size as int / 8) ==> #[trigger] final(self).free_covers(
                    base + u,
                    1,
                ),
    ;

    /// Allocates a block of `2^(order + MIN_ORDER)` bytes, lying
    /// inside the managed region and aligned to its own size
    /// relative to the region base; nothing on exhaustion or an
    /// order beyond the largest.
    fn allocate(&mut self, order: usize) -> (r: Option<usize>)
        requires
            old(self).inv(),
        ensures
            final(self).inv(),
            final(self).region_base() == old(self).region_base(),
            final(self).region_size() == old(self).region_size(),
            r is None ==> final(self).live_blocks() == old(self).live_blocks(),
            r matches Some(p) ==> {
                &&& order <= MAX_ORDER
                &&& old(self).region_base() <= p as int
                &&& p as int + spec_block_size(order as int) <= old(self).region_base() + old(
                    self,
                ).region_size()
                &&& (p as int - old(self).region_base()) % spec_block_size(order as int) == 0
                &&& final(self).free_disjoint(p as int, spec_block_size(order as int))
                &&& final(self).live_blocks() == old(self).live_blocks().insert(
                    (p as int, order as int),
                )
                &&& forall|b: (int, int)| #[trigger]
                    old(self).live_blocks().contains(b) ==> BuddyAllocator::spec_blocks_disjoint(
                        p as int,
                        order as int,
                        b.0,
                        b.1,
                    )
            },
    ;

    /// Releases an outstanding block: it leaves the outstanding set
    /// and returns to the pool, merged with its free partner
    /// whenever one is found, so some free block contains it
    /// afterwards. The caller owes that the block was handed out by
    /// the allocator and not freed since; a double free is the
    /// unrecoverable invariant violation of the design, excluded
    /// here by the precondition.
    fn dealloc(&mut self, ptr: usize, order: usize)
        requires
            old(self).inv(),
            order <= MAX_ORDER,
            old(self).live_blocks().contains((ptr as int, order as int)),
        ensures
            final(self).inv(),
            final(self).region_base() == old(self).region_base(),
            final(self).region_size() == old(self).region_size(),
            final(self).live_blocks() == old(self).live_blocks().remove(
                (ptr as int, order as int),
            ),
            final(self).free_covers(ptr as int, spec_block_size(order as int)),
    ;
}

/// The kernel heap allocator: a thin wrapper around
/// [`BuddyAllocator`] implementing the [`BuddyAlloc`] interface.
pub struct Allocator(pub BuddyAllocator);

impl Allocator {
    /// An allocator with no region yet.
    pub fn new() -> (r: Allocator)
        ensures
            r.0.wf(),
            r.0.total_size == 0,
    {
        Allocator(BuddyAllocator::new())
    }
}

/// Halving an alignment: a multiple of a doubled block size is a
/// multiple of the block size, as is its upper half.
proof fn lemma_align_split(x: int, b: int)
    requires
        b >= 1,
        x % (2 * b) == 0,
    ensures
        x % b == 0,
        (x + b) % b == 0,
{
    vstd::arithmetic::div_mod::lemma_fundamental_div_mod(x, 2 * b);
    let q = x / (2 * b);
    assert(x == 2 * b * q);
    assert(x == (2 * q) * b && x + b == (2 * q + 1) * b) by (nonlinear_arith)
        requires
            x == 2 * b * q,
    ;
    vstd::arithmetic::div_mod::lemma_mod_multiples_basic(2 * q, b);
    vstd::arithmetic::div_mod::lemma_mod_multiples_basic(2 * q + 1, b);
}

/// An even-positioned block starts its doubled block.
proof fn lemma_align_merge_even(x: int, b: int)
    requires
        b >= 1,
        x >= 0,
        x % b == 0,
        (x / b) % 2 == 0,
    ensures
        x % (2 * b) == 0,
{
    vstd::arithmetic::div_mod::lemma_fundamental_div_mod(x, b);
    let h = x / b;
    vstd::arithmetic::div_mod::lemma_fundamental_div_mod(h, 2);
    assert(x == (h / 2) * (2 * b)) by (nonlinear_arith)
        requires
            x == b * h,
            h == 2 * (h / 2),
    ;
    vstd::arithmetic::div_mod::lemma_mod_multiples_basic(h / 2, 2 * b);
}

/// An odd-positioned block sits in the upper half of its doubled
/// block.
proof fn lemma_align_merge_odd(x: int, b: int)
    requires
        b >= 1,
        x >= 0,
        x % b == 0,
        (x / b) % 2 == 1,
    ensures
        x >= b,
        (x - b) % (2 * b) == 0,
{
    vstd::arithmetic::div_mod::lemma_fundamental_div_mod(x, b);
    let h = x / b;
    vstd::arithmetic::div_mod::lemma_fundamental_div_mod(h, 2);
    assert(h >= 1) by (nonlinear_arith)
        requires
            x >= 0,
            b >= 1,
            x == b * h,
            h % 2 == 1,
            h == 2 * (h / 2) + 1,
    ;
    assert(x >= b && x - b == (h / 2) * (2 * b)) by (nonlinear_arith)
        requires
            b >= 1,
            x == b * h,
            h >= 1,
            h == 2 * (h / 2) + 1,
    ;
    vstd::arithmetic::div_mod::lemma_mod_multiples_basic(h / 2, 2 * b);
}

/// Largest order whose block starts aligned at `off` and fits below
/// `size`.
fn best_order(off: usize, size: usize) -> (r: (usize, usize))
    requires
        off % 8 == 0,
        off + 8 <= size,
    ensures
        r.0 <= MAX_ORDER,
        r.1 == spec_block_size(r.0 as int),
        r.1 >= 8,
        off as int % spec_block_size(r.0 as int) == 0,
        off + r.1 <= size,
{
    let mut o: usize = 0;
    let mut bs: usize = 8;
    proof {
        assert(pow2(3) == 8) by {
            reveal_with_fuel(pow2, 4);
        }
    }
    loop
        invariant
            o <= MAX_ORDER,
            bs == spec_block_size(o as int),
            8 <= bs <= 0x40000000,
            off as int % spec_block_size(o as int) == 0,
            off + bs <= size,
        ensures
            o <= MAX_ORDER,
            bs == spec_block_size(o as int),
            bs >= 8,
            off as int % spec_block_size(o as int) == 0,
            off + bs <= size,
        decreases MAX_ORDER - o,
    {
        if o == MAX_ORDER {
            break ;
        }
        proof {
            lemma_pow2_bound(o as int + 1 + MIN_ORDER);
        }
        let nbs = bs * 2;
        if off % nbs == 0 && size - off >= nbs {
            o = o + 1;
            bs = nbs;
        } else {
            break ;
        }
    }
    (o, bs)
}

impl BuddyAlloc for Allocator {
    /// The wrapped allocator's own invariant.
    open spec fn inv(&self) -> bool {
        self.0.wf()
    }

    /// Start of the managed region.
    open spec fn region_base(&self) -> int {
        self.0.base as int
    }

    /// Size of the managed region in bytes.
    open spec fn region_size(&self) -> int {
        self.0.total_size as int
    }

    /// Some free block of the pool contains the bytes
    /// `ptr .. ptr + size`.
    open spec fn free_covers(&self, ptr: int, size: int) -> bool {
        self.0.has_free_block_containing(ptr, size)
    }

    /// No free block of the pool shares a byte with
    /// `ptr .. ptr + size`.
    open spec fn free_disjoint(&self, ptr: int, size: int) -> bool {
        self.0.free_disjoint_from(ptr, size)
    }

    /// The outstanding blocks: every (address, order) pair handed
    /// out by the allocator and not yet freed.
    open spec fn live_blocks(&self) -> Set<(int, int)> {
        self.0.live@
    }

    /// Records the region and carves it greedily into maximal
    /// aligned power-of-two blocks, pushed onto their free lists.
    fn init(&mut self, base: usize, size: usize) {
        let mut b = BuddyAllocator::new();
        b.base = base;
        b.total_size = size;
        proof {
            assert forall|o2: int, i: int|
                0 <= o2 <= MAX_ORDER && 0 <= i < b.free_lists@[o2]@.len() implies b.block_ok(
                o2,
                #[trigger] b.free_lists@[o2]@[i].addr as int,
            ) by {
                assert(b.free_lists@[o2]@.len() == 0);
            }
        }
        let mut off: usize = 0;
        while size - off >= 8 && off < size
            invariant
                b.wf(),
                b.base == base,
                b.total_size == size,
                base + size <= usize::MAX,
                off <= size,
                off % 8 == 0,
                b.live@ == Set::<(int, int)>::empty(),
                forall|u: int|
                    0 <= u < off ==> #[trigger] b.has_free_block_containing(base + u, 1),
                forall|o2: int, i2: int|
                    0 <= o2 <= MAX_ORDER && 0 <= i2 < b.free_lists@[o2]@.len() ==> (
                    #[trigger] b.free_lists@[o2]@[i2]).addr as int + spec_block_size(o2) <= base
                        + off,
            decreases size - off,
        {
            let (o, bs) = best_order(off, size);
            let ghost pre = b.free_lists@;
            let ghost pre_b = b;
            let lref = &mut b.free_lists[o];
            FreeNode::push(lref, base + off);
            proof {
                assert forall|o2: int, i: int|
                    0 <= o2 <= MAX_ORDER && 0 <= i < b.free_lists@[o2]@.len() implies b.block_ok(
                    o2,
                    #[trigger] b.free_lists@[o2]@[i].addr as int,
                ) by {
                    if o2 == o {
                        if i < pre[o2]@.len() {
                            assert(b.free_lists@[o2]@[i] == pre[o2]@[i]);
                        } else {
                            assert(b.free_lists@[o2]@[i].addr == base + off);
                        }
                    } else {
                        assert(b.free_lists@[o2] == pre[o2]);
                    }
                }
                lemma_block_size_multiple(o as int);
                assert((off + bs) % 8 == 0) by (nonlinear_arith)
                    requires
                        off % 8 == 0,
                        bs == spec_block_size(o as int),
                        spec_block_size(o as int) % 8 == 0,
                ;
                // The new block starts at the frontier, beyond every
                // older block, so the lists stay pairwise disjoint
                // and the frontier moves past it.
                let ghost newi = pre[o as int]@.len() as int;
                assert forall|o1: int, i1: int, o2: int, i2: int|
                    0 <= o1 <= MAX_ORDER && 0 <= i1 < b.free_lists@[o1]@.len() && 0 <= o2
                        <= MAX_ORDER && 0 <= i2 < b.free_lists@[o2]@.len() && !(o1 == o2 && i1
                        == i2) implies BuddyAllocator::spec_blocks_disjoint(
                    (#[trigger] b.free_lists@[o1]@[i1]).addr as int,
                    o1,
                    (#[trigger] b.free_lists@[o2]@[i2]).addr as int,
                    o2,
                ) by {
                    if o1 == o && i1 == newi {
                        assert(pre_b.free_lists@[o2]@[i2].addr as int + spec_block_size(o2)
                            <= base + off);
                        assert(b.free_lists@[o2]@[i2] == pre_b.free_lists@[o2]@[i2]);
                    } else if o2 == o && i2 == newi {
                        assert(pre_b.free_lists@[o1]@[i1].addr as int + spec_block_size(o1)
                            <= base + off);
                        assert(b.free_lists@[o1]@[i1] == pre_b.free_lists@[o1]@[i1]);
                    } else {
                        assert(b.free_lists@[o1]@[i1] == pre_b.free_lists@[o1]@[i1]);
                        assert(b.free_lists@[o2]@[i2] == pre_b.free_lists@[o2]@[i2]);
                    }
                }
                assert forall|o2: int, i2: int|
                    0 <= o2 <= MAX_ORDER && 0 <= i2 < b.free_lists@[o2]@.len() implies (
                #[trigger] b.free_lists@[o2]@[i2]).addr as int + spec_block_size(o2) <= base + off
                    + bs by {
                    if o2 == o && i2 == newi {
                    } else {
                        assert(b.free_lists@[o2]@[i2] == pre_b.free_lists@[o2]@[i2]);
                        assert(pre_b.free_lists@[o2]@[i2].addr as int + spec_block_size(o2)
                            <= base + off);
                    }
                }
                // Coverage grows by exactly the pushed block.
                assert forall|u: int| 0 <= u < off + bs implies
                    #[trigger] b.has_free_block_containing(base + u, 1) by {
                    if u < off {
                        assert(pre_b.has_free_block_containing(base + u, 1));
                        let (o2, i2) = choose|o2: int, i2: int|
                            0 <= o2 <= MAX_ORDER && 0 <= i2 < pre_b.free_lists@[o2]@.len() && (
                            #[trigger] pre_b.free_lists@[o2]@[i2]).addr as int <= base + u && base
                                + u + 1 <= pre_b.free_lists@[o2]@[i2].addr + spec_block_size(o2);
                        if o2 == o {
                            assert(b.free_lists@[o2]@[i2] == pre_b.free_lists@[o2]@[i2]);
                        } else {
                            assert(b.free_lists@[o2] == pre_b.free_lists@[o2]);
                        }
                        assert(b.free_lists@[o2]@[i2] == pre_b.free_lists@[o2]@[i2]);
                    } else {
                        let last = b.free_lists@[o as int]@.len() - 1;
                        assert(b.free_lists@[o as int]@[last].addr == base + off);
                    }
                }
            }
            off = off + bs;
        }
        proof {
            // The loop stops within one minimum unit of the region's
            // end, so every whole unit is covered.
            assert(off as int >= 8 * (size as int / 8)) by (nonlinear_arith)
                requires
                    off % 8 == 0,
                    off <= size,
                    off as int > size as int - 8 || off == size,
            ;
        }
        self.0 = b;
    }

    /// Pops a block of the requested order, splitting a larger block
    /// down half by half when none of the exact size is free.
    fn allocate(&mut self, order: usize) -> (r: Option<usize>) {
        if order > MAX_ORDER {
            return None;
        }
        let mut src: usize = order;
        while src <= MAX_ORDER && self.0.free_lists[src].len() == 0
            invariant
                self.0.wf(),
                order <= src <= MAX_ORDER + 1,
            decreases MAX_ORDER + 1 - src,
        {
            src = src + 1;
        }
        if src > MAX_ORDER {
            return None;
        }
        let ghost pre = self.0.free_lists@;
        let ghost pre_b = self.0;
        let popped = FreeNode::pop(&mut self.0.free_lists[src]);
        let mut addr = match popped {
            Some(a) => a,
            None => {
                proof {
                    assert(false);
                }
                return None;
            },
        };
        proof {
            assert(pre[src as int]@.last().addr == addr);
            assert(self.0.block_ok(src as int, addr as int));
            assert forall|o2: int, i: int|
                0 <= o2 <= MAX_ORDER && 0 <= i < self.0.free_lists@[o2]@.len() implies self.0
                .block_ok(o2, #[trigger] self.0.free_lists@[o2]@[i].addr as int) by {
                if o2 == src {
                    assert(self.0.free_lists@[o2]@[i] == pre[o2]@[i]);
                } else {
                    assert(self.0.free_lists@[o2] == pre[o2]);
                }
            }
            // The survivors stay pairwise disjoint, and the popped
            // block is disjoint from every one of them.
            let ghost popi = pre[src as int]@.len() - 1;
            assert forall|o1: int, i1: int, o2: int, i2: int|
                0 <= o1 <= MAX_ORDER && 0 <= i1 < self.0.free_lists@[o1]@.len() && 0 <= o2
                    <= MAX_ORDER && 0 <= i2 < self.0.free_lists@[o2]@.len() && !(o1 == o2 && i1
                    == i2) implies BuddyAllocator::spec_blocks_disjoint(
                (#[trigger] self.0.free_lists@[o1]@[i1]).addr as int,
                o1,
                (#[trigger] self.0.free_lists@[o2]@[i2]).addr as int,
                o2,
            ) by {
                if o1 == src {
                    assert(self.0.free_lists@[o1]@[i1] == pre[o1]@[i1]);
                } else {
                    assert(self.0.free_lists@[o1] == pre[o1]);
                }
                if o2 == src {
                    assert(self.0.free_lists@[o2]@[i2] == pre[o2]@[i2]);
                } else {
                    assert(self.0.free_lists@[o2] == pre[o2]);
                }
            }
            assert forall|o2: int, i2: int|
                0 <= o2 <= MAX_ORDER && 0 <= i2 < self.0.free_lists@[o2]@.len() implies ((
            #[trigger] self.0.free_lists@[o2]@[i2]).addr as int + spec_block_size(o2)
                <= addr as int || addr as int + spec_block_size(src as int)
                <= self.0.free_lists@[o2]@[i2].addr as int) by {
                if o2 == src {
                    assert(self.0.free_lists@[o2]@[i2] == pre[o2]@[i2]);
                    assert(BuddyAllocator::spec_blocks_disjoint(
                        pre[o2]@[i2].addr as int,
                        o2,
                        pre[src as int]@[popi].addr as int,
                        src as int,
                    ));
                } else {
                    assert(self.0.free_lists@[o2]@[i2] == pre[o2]@[i2]);
                    assert(BuddyAllocator::spec_blocks_disjoint(
                        pre[o2]@[i2].addr as int,
                        o2,
                        pre[src as int]@[popi].addr as int,
                        src as int,
                    ));
                }
            }
            assert(self.0.free_disjoint_from(addr as int, spec_block_size(src as int)));
            // The popped block was free, so it is clear of every
            // outstanding block.
            assert forall|b: (int, int)| #[trigger] self.0.live@.contains(b) implies (b.0
                + spec_block_size(b.1) <= addr as int || addr as int + spec_block_size(
                src as int,
            ) <= b.0) by {
                assert(pre_b.live@.contains(b));
                assert(BuddyAllocator::spec_blocks_disjoint(
                    pre_b.free_lists@[src as int]@[popi].addr as int,
                    src as int,
                    b.0,
                    b.1,
                ));
            }
            assert(self.0.live_disjoint_from(addr as int, spec_block_size(src as int)));
        }
        let mut cur = src;
        while cur > order
            invariant
                self.0.wf(),
                self.0.base == old(self).0.base,
                self.0.total_size == old(self).0.total_size,
                order <= cur <= MAX_ORDER,
                self.0.block_ok(cur as int, addr as int),
                self.0.free_disjoint_from(addr as int, spec_block_size(cur as int)),
                self.0.live_disjoint_from(addr as int, spec_block_size(cur as int)),
                self.0.live@ == old(self).0.live@,
            decreases cur,
        {
            cur = cur - 1;
            let bs = BuddyAllocator::block_size(cur);
            proof {
                assert(spec_block_size(cur as int + 1) == 2 * spec_block_size(cur as int));
                lemma_align_split(addr as int - self.0.base as int, spec_block_size(cur as int));
            }
            let upper = addr + bs;
            let ghost pre2 = self.0.free_lists@;
            let ghost pre2_b = self.0;
            let lref = &mut self.0.free_lists[cur];
            FreeNode::push(lref, upper);
            proof {
                assert forall|o2: int, i: int|
                    0 <= o2 <= MAX_ORDER && 0 <= i < self.0.free_lists@[o2]@.len() implies self.0
                    .block_ok(o2, #[trigger] self.0.free_lists@[o2]@[i].addr as int) by {
                    if o2 == cur {
                        if i < pre2[o2]@.len() {
                            assert(self.0.free_lists@[o2]@[i] == pre2[o2]@[i]);
                        } else {
                            assert(self.0.free_lists@[o2]@[i].addr == upper);
                        }
                    } else {
                        assert(self.0.free_lists@[o2] == pre2[o2]);
                    }
                }
                // The split upper half lies inside the block being
                // carved, so it is disjoint from every listed block;
                // the kept lower half is disjoint from both.
                let ghost newi = pre2[cur as int]@.len() as int;
                assert forall|o1: int, i1: int, o2: int, i2: int|
                    0 <= o1 <= MAX_ORDER && 0 <= i1 < self.0.free_lists@[o1]@.len() && 0 <= o2
                        <= MAX_ORDER && 0 <= i2 < self.0.free_lists@[o2]@.len() && !(o1 == o2 && i1
                        == i2) implies BuddyAllocator::spec_blocks_disjoint(
                    (#[trigger] self.0.free_lists@[o1]@[i1]).addr as int,
                    o1,
                    (#[trigger] self.0.free_lists@[o2]@[i2]).addr as int,
                    o2,
                ) by {
                    if o1 == cur && i1 == newi {
                        assert(self.0.free_lists@[o2]@[i2] == pre2_b.free_lists@[o2]@[i2]);
                        assert(pre2_b.free_lists@[o2]@[i2].addr as int + spec_block_size(o2)
                            <= addr as int || addr as int + spec_block_size(cur as int + 1)
                            <= pre2_b.free_lists@[o2]@[i2].addr as int);
                    } else if o2 == cur && i2 == newi {
                        assert(self.0.free_lists@[o1]@[i1] == pre2_b.free_lists@[o1]@[i1]);
                        assert(pre2_b.free_lists@[o1]@[i1].addr as int + spec_block_size(o1)
                            <= addr as int || addr as int + spec_block_size(cur as int + 1)
                            <= pre2_b.free_lists@[o1]@[i1].addr as int);
                    } else {
                        assert(self.0.free_lists@[o1]@[i1] == pre2_b.free_lists@[o1]@[i1]);
                        assert(self.0.free_lists@[o2]@[i2] == pre2_b.free_lists@[o2]@[i2]);
                    }
                }
                assert forall|o2: int, i2: int|
                    0 <= o2 <= MAX_ORDER && 0 <= i2 < self.0.free_lists@[o2]@.len() implies ((
                #[trigger] self.0.free_lists@[o2]@[i2]).addr as int + spec_block_size(o2)
                    <= addr as int || addr as int + spec_block_size(cur as int)
                    <= self.0.free_lists@[o2]@[i2].addr as int) by {
                    if o2 == cur && i2 == newi {
                    } else {
                        assert(self.0.free_lists@[o2]@[i2] == pre2_b.free_lists@[o2]@[i2]);
                        assert(pre2_b.free_lists@[o2]@[i2].addr as int + spec_block_size(o2)
                            <= addr as int || addr as int + spec_block_size(cur as int + 1)
                            <= pre2_b.free_lists@[o2]@[i2].addr as int);
                    }
                }
                assert(self.0.free_disjoint_from(addr as int, spec_block_size(cur as int)));
                assert forall|b: (int, int)| #[trigger] self.0.live@.contains(b) implies (b.0
                    + spec_block_size(b.1) <= addr as int || addr as int + spec_block_size(
                    cur as int,
                ) <= b.0) by {
                    assert(pre2_b.live@.contains(b));
                }
                assert(self.0.live_disjoint_from(addr as int, spec_block_size(cur as int)));
                assert forall|o2: int, i2: int, b: (int, int)|
                    0 <= o2 <= MAX_ORDER && 0 <= i2 < self.0.free_lists@[o2]@.len() && #[trigger]
                    self.0.live@.contains(b) implies BuddyAllocator::spec_blocks_disjoint(
                    (#[trigger] self.0.free_lists@[o2]@[i2]).addr as int,
                    o2,
                    b.0,
                    b.1,
                ) by {
                    if o2 == cur && i2 == newi {
                        assert(pre2_b.live@.contains(b));
                        assert(b.0 + spec_block_size(b.1) <= addr as int || addr as int
                            + spec_block_size(cur as int + 1) <= b.0);
                    } else {
                        assert(self.0.free_lists@[o2]@[i2] == pre2_b.free_lists@[o2]@[i2]);
                        assert(pre2_b.live@.contains(b));
                        assert(BuddyAllocator::spec_blocks_disjoint(
                            pre2_b.free_lists@[o2]@[i2].addr as int,
                            o2,
                            b.0,
                            b.1,
                        ));
                    }
                }
            }
        }
        // Record the handed-out block as outstanding.
        let ghost pre_live = self.0.live@;
        proof {
            self.0.live@ = self.0.live@.insert((addr as int, order as int));
        }
        proof {
            // The new outstanding block is clear of the pool and of
            // every other outstanding block.
            assert forall|b1: (int, int), b2: (int, int)|
                #[trigger] self.0.live@.contains(b1) && #[trigger] self.0.live@.contains(b2) && b1
                    != b2 implies BuddyAllocator::spec_blocks_disjoint(b1.0, b1.1, b2.0, b2.1) by {
                if b1 == ((addr as int, order as int)) {
                    assert(pre_live.contains(b2));
                } else if b2 == ((addr as int, order as int)) {
                    assert(pre_live.contains(b1));
                } else {
                    assert(pre_live.contains(b1));
                    assert(pre_live.contains(b2));
                }
            }
            assert forall|b: (int, int)| #[trigger] self.0.live@.contains(b) implies 0 <= b.1
                <= MAX_ORDER && self.0.block_ok(b.1, b.0) by {
                if b != ((addr as int, order as int)) {
                    assert(pre_live.contains(b));
                }
            }
            assert forall|o2: int, i2: int, b: (int, int)|
                0 <= o2 <= MAX_ORDER && 0 <= i2 < self.0.free_lists@[o2]@.len() && #[trigger]
                self.0.live@.contains(b) implies BuddyAllocator::spec_blocks_disjoint(
                (#[trigger] self.0.free_lists@[o2]@[i2]).addr as int,
                o2,
                b.0,
                b.1,
            ) by {
                if b != ((addr as int, order as int)) {
                    assert(pre_live.contains(b));
                }
            }
        }
        Some(addr)
    }

    /// Returns a block to its free list, merging it with its free
    /// buddy into ever larger blocks while one is found. A block that
    /// does not fit the managed region is ignored. The caller owes
    /// that the freed block is not free already (no double free,
    /// which the original design treats as an unrecoverable
    /// violation).
    fn dealloc(&mut self, ptr: usize, order: usize) {
        let bs0 = BuddyAllocator::block_size(order);
        proof {
            // An outstanding block fits the region by the invariant,
            // so the checks below never reject one.
            assert(self.0.block_ok(order as int, ptr as int));
        }
        if ptr < self.0.base {
            proof {
                assert(false);
            }
            return ;
        }
        let off0 = ptr - self.0.base;
        if off0 % bs0 != 0 {
            proof {
                assert(false);
            }
            return ;
        }
        if off0 > self.0.total_size || self.0.total_size - off0 < bs0 {
            proof {
                assert(false);
            }
            return ;
        }
        // The freed block leaves the outstanding set; by the
        // invariant it is clear of every free block and of every
        // other outstanding block.
        let ghost live0 = self.0.live@;
        proof {
            self.0.live@ = self.0.live@.remove((ptr as int, order as int));
            assert forall|b: (int, int)| #[trigger] self.0.live@.contains(b) implies 0 <= b.1
                <= MAX_ORDER && self.0.block_ok(b.1, b.0) by {
                assert(live0.contains(b));
            }
            assert forall|b1: (int, int), b2: (int, int)|
                #[trigger] self.0.live@.contains(b1) && #[trigger] self.0.live@.contains(b2) && b1
                    != b2 implies BuddyAllocator::spec_blocks_disjoint(b1.0, b1.1, b2.0, b2.1) by {
                assert(live0.contains(b1));
                assert(live0.contains(b2));
            }
            assert forall|o2: int, i2: int, b: (int, int)|
                0 <= o2 <= MAX_ORDER && 0 <= i2 < self.0.free_lists@[o2]@.len() && #[trigger]
                self.0.live@.contains(b) implies BuddyAllocator::spec_blocks_disjoint(
                (#[trigger] self.0.free_lists@[o2]@[i2]).addr as int,
                o2,
                b.0,
                b.1,
            ) by {
                assert(live0.contains(b));
            }
            // Clear of every free block ...
            assert forall|o2: int, i2: int|
                0 <= o2 <= MAX_ORDER && 0 <= i2 < self.0.free_lists@[o2]@.len() implies ((
            #[trigger] self.0.free_lists@[o2]@[i2]).addr as int + spec_block_size(o2)
                <= ptr as int || ptr as int + spec_block_size(order as int)
                <= self.0.free_lists@[o2]@[i2].addr as int) by {
                assert(BuddyAllocator::spec_blocks_disjoint(
                    self.0.free_lists@[o2]@[i2].addr as int,
                    o2,
                    ptr as int,
                    order as int,
                ));
            }
            assert(self.0.free_disjoint_from(ptr as int, spec_block_size(order as int)));
            // ... and of every remaining outstanding block.
            assert forall|b: (int, int)| #[trigger] self.0.live@.contains(b) implies (b.0
                + spec_block_size(b.1) <= ptr as int || ptr as int + spec_block_size(
                order as int,
            ) <= b.0) by {
                assert(live0.contains(b));
                assert(BuddyAllocator::spec_blocks_disjoint(
                    ptr as int,
                    order as int,
                    b.0,
                    b.1,
                ));
            }
            assert(self.0.live_disjoint_from(ptr as int, spec_block_size(order as int)));
        }
        let mut o = order;
        let mut cur_off = off0;
        proof {
            assert(ptr as int == self.0.base + off0);
        }
        while o < MAX_ORDER
            invariant
                self.0.wf(),
                self.0.base == old(self).0.base,
                self.0.total_size == old(self).0.total_size,
                order <= o <= MAX_ORDER,
                cur_off as int % spec_block_size(o as int) == 0,
                cur_off + spec_block_size(o as int) <= self.0.total_size,
                cur_off <= off0,
                off0 + spec_block_size(order as int) <= cur_off + spec_block_size(o as int),
                self.0.live@ == old(self).0.live@.remove((ptr as int, order as int)),
                self.0.free_disjoint_from(
                    self.0.base + cur_off,
                    spec_block_size(o as int),
                ),
                self.0.live_disjoint_from(
                    self.0.base + cur_off,
                    spec_block_size(o as int),
                ),
            ensures
                self.0.wf(),
                self.0.base == old(self).0.base,
                self.0.total_size == old(self).0.total_size,
                order <= o <= MAX_ORDER,
                cur_off as int % spec_block_size(o as int) == 0,
                cur_off + spec_block_size(o as int) <= self.0.total_size,
                cur_off <= off0,
                off0 + spec_block_size(order as int) <= cur_off + spec_block_size(o as int),
                self.0.live@ == old(self).0.live@.remove((ptr as int, order as int)),
                self.0.free_disjoint_from(
                    self.0.base + cur_off,
                    spec_block_size(o as int),
                ),
                self.0.live_disjoint_from(
                    self.0.base + cur_off,
                    spec_block_size(o as int),
                ),
            decreases MAX_ORDER - o,
        {
            let bso = BuddyAllocator::block_size(o);
            let even = (cur_off / bso) % 2 == 0;
            proof {
                if !even {
                    lemma_align_merge_odd(cur_off as int, spec_block_size(o as int));
                }
            }
            let partner_off = if even {
                cur_off + bso
            } else {
                cur_off - bso
            };
            if even && self.0.total_size - partner_off < bso {
                break ;
            }
            let ghost pre = self.0.free_lists@;
            let ghost pre_b = self.0;
            let base = self.0.base;
            let lref = &mut self.0.free_lists[o];
            let merged = FreeNode::remove(lref, base + partner_off);
            proof {
                lemma_find_block_found(pre[o as int]@, (base + partner_off) as usize, 0);
                let ghost m = find_block(pre[o as int]@, (base + partner_off) as usize, 0);
                // Survivor entries map one-for-one onto distinct old
                // entries, so every per-block and pairwise fact
                // carries over.
                assert forall|o2: int, i: int|
                    0 <= o2 <= MAX_ORDER && 0 <= i < self.0.free_lists@[o2]@.len() implies self.0
                    .block_ok(o2, #[trigger] self.0.free_lists@[o2]@[i].addr as int) by {
                    if o2 == o && merged {
                        let idx0 = m.unwrap();
                        if i < idx0 {
                            assert(self.0.free_lists@[o2]@[i] == pre[o2]@[i]);
                        } else {
                            assert(self.0.free_lists@[o2]@[i] == pre[o2]@[i + 1]);
                        }
                    } else {
                        assert(self.0.free_lists@[o2]@[i] == pre[o2]@[i]);
                    }
                }
                assert forall|o1: int, i1: int, o2: int, i2: int|
                    0 <= o1 <= MAX_ORDER && 0 <= i1 < self.0.free_lists@[o1]@.len() && 0 <= o2
                        <= MAX_ORDER && 0 <= i2 < self.0.free_lists@[o2]@.len() && !(o1 == o2 && i1
                        == i2) implies BuddyAllocator::spec_blocks_disjoint(
                    (#[trigger] self.0.free_lists@[o1]@[i1]).addr as int,
                    o1,
                    (#[trigger] self.0.free_lists@[o2]@[i2]).addr as int,
                    o2,
                ) by {
                    let j1 = if o1 == o && merged && i1 >= m.unwrap() {
                        i1 + 1
                    } else {
                        i1
                    };
                    let j2 = if o2 == o && merged && i2 >= m.unwrap() {
                        i2 + 1
                    } else {
                        i2
                    };
                    assert(self.0.free_lists@[o1]@[i1] == pre_b.free_lists@[o1]@[j1]);
                    assert(self.0.free_lists@[o2]@[i2] == pre_b.free_lists@[o2]@[j2]);
                    assert(BuddyAllocator::spec_blocks_disjoint(
                        pre_b.free_lists@[o1]@[j1].addr as int,
                        o1,
                        pre_b.free_lists@[o2]@[j2].addr as int,
                        o2,
                    ));
                }
                // The survivors stay clear of the current block.
                assert forall|o2: int, i2: int|
                    0 <= o2 <= MAX_ORDER && 0 <= i2 < self.0.free_lists@[o2]@.len() implies ((
                #[trigger] self.0.free_lists@[o2]@[i2]).addr as int + spec_block_size(o2)
                    <= pre_b.base + cur_off || pre_b.base + cur_off + spec_block_size(o as int)
                    <= self.0.free_lists@[o2]@[i2].addr as int) by {
                    let j2 = if o2 == o && merged && i2 >= m.unwrap() {
                        i2 + 1
                    } else {
                        i2
                    };
                    assert(self.0.free_lists@[o2]@[i2] == pre_b.free_lists@[o2]@[j2]);
                }
            }
            if merged {
                proof {
                    if even {
                        lemma_align_merge_even(cur_off as int, spec_block_size(o as int));
                    }
                    assert(spec_block_size(o as int + 1) == 2 * spec_block_size(o as int));
                }
                let ghost old_cur = cur_off as int;
                let ghost old_o = o as int;
                cur_off = if partner_off < cur_off {
                    cur_off - bso
                } else {
                    cur_off
                };
                o = o + 1;
                proof {
                    // The merged block is the union of the freed
                    // block and its removed partner, both clear of
                    // every surviving free block.
                    lemma_find_block_found(pre[old_o]@, (base + partner_off) as usize, 0);
                    let m = find_block(pre[old_o]@, (base + partner_off) as usize, 0);
                    let idx0 = m.unwrap();
                    assert(pre_b.free_lists@[old_o]@[idx0].addr == base + partner_off);
                    assert forall|o2: int, i2: int|
                        0 <= o2 <= MAX_ORDER && 0 <= i2 < self.0.free_lists@[o2]@.len() implies ((
                    #[trigger] self.0.free_lists@[o2]@[i2]).addr as int + spec_block_size(o2)
                        <= self.0.base + cur_off || self.0.base + cur_off + spec_block_size(
                        o as int,
                    ) <= self.0.free_lists@[o2]@[i2].addr as int) by {
                        let j2 = if o2 == old_o && i2 >= idx0 {
                            i2 + 1
                        } else {
                            i2
                        };
                        assert(self.0.free_lists@[o2]@[i2] == pre_b.free_lists@[o2]@[j2]);
                        assert(!(o2 == old_o && j2 == idx0));
                        assert(BuddyAllocator::spec_blocks_disjoint(
                            pre_b.free_lists@[o2]@[j2].addr as int,
                            o2,
                            pre_b.free_lists@[old_o]@[idx0].addr as int,
                            old_o,
                        ));
                        lemma_pow2_positive(o2 + MIN_ORDER);
                    }
                    // Outstanding blocks stay clear of the merged
                    // block: of its freed half by the invariant, of
                    // its partner half because the partner was free.
                    assert forall|b: (int, int)| #[trigger] self.0.live@.contains(b) implies (b.0
                        + spec_block_size(b.1) <= self.0.base + cur_off || self.0.base + cur_off
                        + spec_block_size(o as int) <= b.0) by {
                        assert(pre_b.live@.contains(b));
                        assert(BuddyAllocator::spec_blocks_disjoint(
                            pre_b.free_lists@[old_o]@[idx0].addr as int,
                            old_o,
                            b.0,
                            b.1,
                        ));
                        lemma_pow2_positive(b.1 + MIN_ORDER);
                    }
                    assert(self.0.live_disjoint_from(
                        self.0.base + cur_off,
                        spec_block_size(o as int),
                    ));
                }
            } else {
                break ;
            }
        }
        // Record the (possibly merged) block, which contains the
        // freed one.
        proof {
            lemma_pow2_positive(o as int + MIN_ORDER);
        }
        let base = self.0.base;
        let ghost pre = self.0.free_lists@;
        let ghost pre_b = self.0;
        let lref = &mut self.0.free_lists[o];
        FreeNode::push(lref, base + cur_off);
        proof {
            assert forall|o2: int, i: int|
                0 <= o2 <= MAX_ORDER && 0 <= i < self.0.free_lists@[o2]@.len() implies self.0
                .block_ok(o2, #[trigger] self.0.free_lists@[o2]@[i].addr as int) by {
                if o2 == o {
                    if i < pre[o2]@.len() {
                        assert(self.0.free_lists@[o2]@[i] == pre[o2]@[i]);
                    } else {
                        assert(self.0.free_lists@[o2]@[i].addr == base + cur_off);
                    }
                } else {
                    assert(self.0.free_lists@[o2] == pre[o2]);
                }
            }
            // The recorded block is clear of every other free block.
            let ghost newi = pre[o as int]@.len() as int;
            assert forall|o1: int, i1: int, o2: int, i2: int|
                0 <= o1 <= MAX_ORDER && 0 <= i1 < self.0.free_lists@[o1]@.len() && 0 <= o2
                    <= MAX_ORDER && 0 <= i2 < self.0.free_lists@[o2]@.len() && !(o1 == o2 && i1
                    == i2) implies BuddyAllocator::spec_blocks_disjoint(
                (#[trigger] self.0.free_lists@[o1]@[i1]).addr as int,
                o1,
                (#[trigger] self.0.free_lists@[o2]@[i2]).addr as int,
                o2,
            ) by {
                if o1 == o && i1 == newi {
                    assert(self.0.free_lists@[o2]@[i2] == pre_b.free_lists@[o2]@[i2]);
                } else if o2 == o && i2 == newi {
                    assert(self.0.free_lists@[o1]@[i1] == pre_b.free_lists@[o1]@[i1]);
                } else {
                    assert(self.0.free_lists@[o1]@[i1] == pre_b.free_lists@[o1]@[i1]);
                    assert(self.0.free_lists@[o2]@[i2] == pre_b.free_lists@[o2]@[i2]);
                }
            }
            let last = self.0.free_lists@[o as int]@.len() - 1;
            assert(self.0.free_lists@[o as int]@[last].addr == base + cur_off);
            assert(self.0.has_free_block_containing(
                ptr as int,
                spec_block_size(order as int),
            ));
        }
    }
}

/// Block sizes are multiples of the smallest unit.
proof fn lemma_block_size_multiple(o: int)
    requires
        0 <= o,
    ensures
        spec_block_size(o) % 8 == 0,
    decreases o,
{
    if o == 0 {
        assert(pow2(3) == 8) by {
            reveal_with_fuel(pow2, 4);
        }
    }
    if o > 0 {
        lemma_block_size_multiple(o - 1);
        assert(spec_block_size(o) == 2 * spec_block_size(o - 1));
        assert(spec_block_size(o) % 8 == 0) by (nonlinear_arith)
            requires
                spec_block_size(o - 1) % 8 == 0,
                spec_block_size(o) == 2 * spec_block_size(o - 1),
        ;
    }
}

/// Smallest order whose block both holds `size` bytes and is
/// aligned for `align`: a block is aligned to its own size, so the
/// larger of the two demands decides. This is the glue a byte-level
/// allocation request goes through before [`BuddyAlloc::allocate`].
pub fn order_for(size: usize, align: usize) -> (r: Option<usize>)
    ensures
        ({
            let need = if size >= align {
                size as int
            } else {
                align as int
            };
            &&& (r is Some <==> need <= spec_block_size(MAX_ORDER as int))
            &&& (r matches Some(o) ==> o <= MAX_ORDER && spec_block_size(o as int) >= need && (o
                > 0 ==> spec_block_size(o as int - 1) < need))
        }),
{
    let need = if size >= align {
        size
    } else {
        align
    };
    BuddyAllocator::size_to_order(need)
}

/// A wrapper lending exclusive access to the allocator it holds; on
/// the single-core target, one flow uses it at a time.
pub struct LockedBuddy<T> {
    /// The wrapped allocator.
    pub inner: T,
}

impl<T> LockedBuddy<T> {
    /// Wraps an allocator instance.
    pub fn new(inner: T) -> (r: LockedBuddy<T>)
        ensures
            r.inner == inner,
    {
        LockedBuddy { inner }
    }

    /// Exclusive access to the wrapped allocator.
    pub fn get_mut(&mut self) -> (r: &mut T)
        ensures
            *r == old(self).inner,
            final(self).inner == *final(r),
    {
        &mut self.inner
    }
}

} // verus!
