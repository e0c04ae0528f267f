//! Physical memory: a buddy allocator over the pages behind the kernel image.
//!
//! Blocks hold `2^order` pages of 4 KiB, order 0 to 12 (16 MiB). Each order has a free list that
//! is used last in, first out. A freed block is joined with its buddy as long as the buddy is
//! free and of the same order. Reserved pages never enter a free list.

use vstd::prelude::*;
use crate::bytes::round_up;
use crate::fdt::BoardParams;
use crate::tiling::{
    aligned, block_pages, buddy, covered, disjoint, fits, in_block, lemma_block_pages_pos,
    lemma_block_pages_split, lemma_block_pages_values, lemma_buddy, lemma_buddy_is_head,
    lemma_extend_block, lemma_extend_holes, lemma_halves, lemma_merge, lemma_nest, lemma_split,
    parent, tiles, Block, MAX_ORDER,
};

verus! {

/// Size of a physical page in bytes.
pub const PAGE_SIZE: u64 = 4096;

/// Most pages that the allocator manages (128 MiB of RAM).
pub const MAX_PAGES: usize = 32768;

/// Size of the largest block in bytes.
pub const MAX_BLOCK: u64 = 0x100_0000;

/// Per-page record: the order of the block headed here, and whether it is in use.
#[derive(Clone, Copy)]
pub struct PageMeta {
    pub order: u8,
    pub used: bool,
}

/// Abstract state of the allocator. Pages are numbered from the base address.
#[verifier::ext_equal]
pub struct BuddyState {
    /// Physical address of page 0.
    pub base: int,
    /// Number of pages managed.
    pub pages: int,
    /// Free list of each order, top of the list last.
    pub lists: Seq<Seq<usize>>,
    /// Allocated blocks: head page to order.
    pub used: Map<int, int>,
    /// Pages that are never handed out.
    pub reserved: Set<int>,
}

/// Page `h` stands in list `l`.
pub open spec fn in_list(l: Seq<usize>, h: int) -> bool {
    exists|i: int| 0 <= i < l.len() && #[trigger] l[i] == h
}

/// The list without page `h`, the other entries in their order.
pub open spec fn unlinked(l: Seq<usize>, h: int) -> Seq<usize> {
    l.remove(choose|i: int| 0 <= i < l.len() && #[trigger] l[i] == h)
}

/// No page occurs twice.
pub open spec fn distinct(l: Seq<usize>) -> bool {
    forall|i: int, j: int| 0 <= i < j < l.len() ==> #[trigger] l[i] != #[trigger] l[j]
}

/// Lowest order from `o` on whose list is not empty, or `MAX_ORDER + 1`.
pub open spec fn first_fit(lists: Seq<Seq<usize>>, o: int) -> int
    decreases MAX_ORDER + 1 - o,
{
    if o > MAX_ORDER {
        MAX_ORDER + 1
    } else if lists[o].len() > 0 {
        o
    } else {
        first_fit(lists, o + 1)
    }
}

/// The lists after block `(h, from)` was taken from the top of its list and split down to order
/// `to`: each upper half goes on top of the list of its order.
pub open spec fn split_lists(lists: Seq<Seq<usize>>, h: int, from: int, to: int) -> Seq<
    Seq<usize>,
> {
    Seq::new(
        lists.len(),
        |k: int|
            if to <= k < from {
                lists[k].push((h + block_pages(k)) as usize)
            } else if k == from {
                lists[k].drop_last()
            } else {
                lists[k]
            },
    )
}

/// The lists after block `(h, o)` was given back: while the buddy is free it leaves its list and
/// the pair is given back as one block of the next order.
pub open spec fn join_lists(lists: Seq<Seq<usize>>, h: int, o: int) -> Seq<Seq<usize>>
    decreases MAX_ORDER - o,
{
    if o < MAX_ORDER && in_list(lists[o], buddy(h, o)) {
        join_lists(lists.update(o, unlinked(lists[o], buddy(h, o))), parent(h, o), o + 1)
    } else {
        lists.update(o, lists[o].push(h as usize))
    }
}

impl BuddyState {
    /// Blocks that stand in the free lists.
    pub open spec fn free_blocks(self) -> Set<Block> {
        Set::new(|b: Block| 0 <= b.1 <= MAX_ORDER && in_list(self.lists[b.1], b.0))
    }

    /// Blocks that are allocated.
    pub open spec fn used_blocks(self) -> Set<Block> {
        Set::new(|b: Block| self.used.dom().contains(b.0) && self.used[b.0] == b.1)
    }

    /// No two buddies are free side by side: what can be joined has been joined.
    pub open spec fn coalesced(self) -> bool {
        forall|b: Block| #[trigger]
            self.free_blocks().contains(b) && b.1 < MAX_ORDER ==> !in_list(
                self.lists[b.1],
                buddy(b.0, b.1),
            )
    }

    /// Free blocks, allocated blocks and the blocks of `extra` tile the pages that are not
    /// reserved; no block is counted twice.
    pub open spec fn wf_with(self, extra: Set<Block>) -> bool {
        &&& self.lists.len() == MAX_ORDER + 1
        &&& forall|o: int| 0 <= o <= MAX_ORDER ==> distinct(#[trigger] self.lists[o])
        &&& tiles(self.free_blocks() + self.used_blocks() + extra, self.reserved, self.pages)
        &&& forall|b: Block| #[trigger]
            self.free_blocks().contains(b) ==> !self.used_blocks().contains(b)
                && !extra.contains(b)
        &&& forall|b: Block| #[trigger] self.used_blocks().contains(b) ==> !extra.contains(b)
        &&& self.coalesced()
        &&& forall|p: int| #[trigger] self.reserved.contains(p) ==> 0 <= p < self.pages
        &&& 0 <= self.pages <= MAX_PAGES
    }

    /// Free and allocated blocks tile the pages that are not reserved.
    pub closed spec fn wf(self) -> bool {
        self.wf_with(Set::empty())
    }

    /// Physical address of page `p`.
    pub open spec fn addr(self, p: int) -> int {
        self.base + p * PAGE_SIZE
    }

    /// Page that holds the physical address.
    pub open spec fn index(self, addr: int) -> int {
        (addr - self.base) / (PAGE_SIZE as int)
    }

    /// `addr` is the address of an allocated block of this order.
    pub open spec fn allocated(self, addr: int, order: int) -> bool {
        &&& self.used.dom().contains(self.index(addr))
        &&& self.addr(self.index(addr)) == addr
        &&& self.used[self.index(addr)] == order
    }

    /// State after a block of the given order was handed out.
    pub open spec fn after_alloc(self, order: int) -> BuddyState {
        let from = first_fit(self.lists, order);
        let h = self.lists[from].last() as int;
        BuddyState {
            lists: split_lists(self.lists, h, from, order),
            used: self.used.insert(h, order),
            ..self
        }
    }

    /// Address of the page that is handed out next, when one is free.
    pub open spec fn next_page(self) -> int {
        self.addr(self.lists[first_fit(self.lists, 0)].last() as int)
    }

    /// State after `n` single pages were handed out.
    pub open spec fn after_pages(self, n: int) -> BuddyState
        decreases n,
    {
        if n <= 0 {
            self
        } else {
            self.after_pages(n - 1).after_alloc(0)
        }
    }

    /// State after the allocated block headed by page `h` was given back.
    pub open spec fn after_free(self, h: int) -> BuddyState {
        BuddyState {
            lists: join_lists(self.lists, h, self.used[h]),
            used: self.used.remove(h),
            ..self
        }
    }

    /// `addr` names the head page of an allocated block.
    pub open spec fn can_free(self, addr: int) -> bool {
        &&& addr % (PAGE_SIZE as int) == 0
        &&& self.used.dom().contains(self.index(addr))
        &&& self.addr(self.index(addr)) == addr
    }
}

/// Buddy allocator.
pub struct BuddyAllocator {
    base: u64,
    real_count: usize,
    page_count: usize,
    meta: Vec<PageMeta>,
    free_lists: Vec<Vec<usize>>,
}

impl View for BuddyAllocator {
    type V = BuddyState;

    closed spec fn view(&self) -> BuddyState {
        BuddyState {
            base: self.base as int,
            pages: self.real_count as int,
            lists: Seq::new(self.free_lists@.len(), |o: int| self.free_lists@[o]@),
            used: Map::new(
                |p: int|
                    0 <= p < self.real_count && p < self.meta@.len() && self.meta@[p].used
                        && self.meta@[p].order <= MAX_ORDER,
                |p: int| self.meta@[p].order as int,
            ),
            reserved: Set::new(
                |p: int|
                    0 <= p < self.real_count && p < self.meta@.len() && self.meta@[p].used
                        && self.meta@[p].order > MAX_ORDER,
            ),
        }
    }
}

/// `1 << order`, the number of pages in a block.
fn block_size(order: usize) -> (r: usize)
    requires
        order <= MAX_ORDER,
    ensures
        r == block_pages(order as int),
        1 <= r <= 4096,
{
    proof {
        lemma_block_pages_values();
        assert((1usize << 0usize) == 1 && (1usize << 1usize) == 2 && (1usize << 2usize) == 4 && (
        1usize << 3usize) == 8 && (1usize << 4usize) == 16 && (1usize << 5usize) == 32 && (1usize
            << 6usize) == 64 && (1usize << 7usize) == 128 && (1usize << 8usize) == 256 && (1usize
            << 9usize) == 512 && (1usize << 10usize) == 1024 && (1usize << 11usize) == 2048 && (
        1usize << 12usize) == 4096) by (bit_vector);
    }
    1usize << order
}

impl BuddyAllocator {
    /// Records of pages and free lists agree, and the region is addressable.
    spec fn inv(&self) -> bool {
        &&& self.base % PAGE_SIZE == 0
        &&& self.base + self.real_count * PAGE_SIZE <= u64::MAX
        &&& self.real_count <= self.page_count <= MAX_PAGES
        &&& self.meta@.len() == self.page_count
        &&& self.free_lists@.len() == MAX_ORDER + 1
        &&& forall|o: int, i: int|
            #![trigger self.free_lists@[o]@[i]]
            0 <= o <= MAX_ORDER && 0 <= i < self.free_lists@[o]@.len() ==> {
                &&& self.free_lists@[o]@[i] < self.page_count
                &&& self.meta@[self.free_lists@[o]@[i] as int].order == o
                &&& !self.meta@[self.free_lists@[o]@[i] as int].used
            }
        &&& forall|p: int|
            #![trigger self.meta@[p]]
            self.real_count <= p < self.page_count ==> self.meta@[p].used
    }

    /// The allocator is in a consistent state.
    pub closed spec fn wf(&self) -> bool {
        self.inv() && self@.wf()
    }

    /// What a consistent allocator promises of its state.
    pub proof fn lemma_wf(&self)
        requires
            self.wf(),
        ensures
            self@.wf(),
            self@.base % (PAGE_SIZE as int) == 0,
            0 <= self@.base,
            self@.addr(self@.pages) <= u64::MAX,
    {
    }

    /// Address of a page.
    fn block_addr(&self, idx: usize) -> (r: u64)
        requires
            self.inv(),
            idx <= self@.pages,
        ensures
            r == self@.addr(idx as int),
    {
        self.base + idx as u64 * PAGE_SIZE
    }

    /// Page of an address.
    fn block_index(&self, addr: u64) -> (r: usize)
        requires
            self.inv(),
            self@.base <= addr < self@.addr(self@.pages),
        ensures
            r == self@.index(addr as int),
            r < self@.pages,
    {
        let d: u64 = addr - self.base;
        assert(d / 4096 < self.real_count);
        (d / PAGE_SIZE) as usize
    }

    /// Put block `(idx, order)` on top of the free list of its order.
    fn push(&mut self, idx: usize, order: usize)
        requires
            old(self).inv(),
            order <= MAX_ORDER,
            idx < old(self)@.pages,
            !old(self)@.used.dom().contains(idx as int),
            !old(self)@.reserved.contains(idx as int),
            forall|o: int|
                0 <= o <= MAX_ORDER ==> !in_list(#[trigger] old(self)@.lists[o], idx as int),
        ensures
            final(self).inv(),
            final(self)@ == (BuddyState {
                lists: old(self)@.lists.update(
                    order as int,
                    old(self)@.lists[order as int].push(idx),
                ),
                ..old(self)@
            }),
    {
        let ghost before = self@;
        assert(!self.meta@[idx as int].used);
        assert forall|o: int, i: int|
            #![trigger self.free_lists@[o]@[i]]
            0 <= o <= MAX_ORDER && 0 <= i < self.free_lists@[o]@.len() implies self.free_lists@[o]@[i]
            != idx by {
            if self.free_lists@[o]@[i] == idx {
                assert(before.lists[o][i] == idx as int);
                assert(in_list(before.lists[o], idx as int));
            }
        }
        self.free_lists[order].push(idx);
        self.meta[idx] = PageMeta { order: order as u8, used: false };
        proof {
            assert(self@.lists =~= before.lists.update(order as int, before.lists[order as int].push(idx)));
            assert(self@.used =~= before.used);
            assert(self@.reserved =~= before.reserved);
        }
    }

    /// Take the block on top of the free list of this order.
    fn pop(&mut self, order: usize) -> (r: Option<usize>)
        requires
            old(self).inv(),
            order <= MAX_ORDER,
        ensures
            final(self).inv(),
            match r {
                None => old(self)@.lists[order as int].len() == 0 && final(self)@ == old(self)@,
                Some(idx) => {
                    &&& old(self)@.lists[order as int].len() > 0
                    &&& idx == old(self)@.lists[order as int].last()
                    &&& final(self)@ == (BuddyState {
                        lists: old(self)@.lists.update(
                            order as int,
                            old(self)@.lists[order as int].drop_last(),
                        ),
                        ..old(self)@
                    })
                },
            },
    {
        let ghost before = self@;
        let r = self.free_lists[order].pop();
        proof {
            assert(before.lists[order as int] == old(self).free_lists@[order as int]@);
            match r {
                None => {
                    assert(self@.lists =~= before.lists);
                },
                Some(idx) => {
                    assert(self@.lists =~= before.lists.update(
                        order as int,
                        before.lists[order as int].drop_last(),
                    ));
                },
            }
            assert(self@.used =~= before.used);
            assert(self@.reserved =~= before.reserved);
        }
        r
    }

    /// Take a given block out of the free list of its order.
    fn unlink(&mut self, target: usize, order: usize)
        requires
            old(self).inv(),
            order <= MAX_ORDER,
            distinct(old(self)@.lists[order as int]),
            in_list(old(self)@.lists[order as int], target as int),
        ensures
            final(self).inv(),
            final(self)@ == (BuddyState {
                lists: old(self)@.lists.update(
                    order as int,
                    unlinked(old(self)@.lists[order as int], target as int),
                ),
                ..old(self)@
            }),
    {
        let ghost before = self@;
        let ghost l = before.lists[order as int];
        assert(l == self.free_lists@[order as int]@);
        let ghost at = choose|i: int| 0 <= i < l.len() && #[trigger] l[i] == target as int;
        let n: usize = self.free_lists[order].len();
        let mut i: usize = 0;
        while i < n
            invariant
                *self == *old(self),
                self.inv(),
                self@ == before,
                order <= MAX_ORDER,
                l == self.free_lists@[order as int]@,
                l == before.lists[order as int],
                n == l.len(),
                distinct(l),
                0 <= at < l.len(),
                l[at] == target,
                at == (choose|i: int| 0 <= i < l.len() && #[trigger] l[i] == target as int),
                i <= at,
            decreases n - i,
        {
            if self.free_lists[order][i] == target {
                assert(i == at);
                self.free_lists[order].remove(i);
                proof {
                    assert(self.free_lists@[order as int]@ == l.remove(at));
                    assert(self@.lists =~= before.lists.update(order as int, l.remove(at)));
                    assert(self@.used =~= before.used);
                    assert(self@.reserved =~= before.reserved);
                }
                return ;
            }
            i += 1;
        }
    }
}

proof fn lemma_pushed(l: Seq<usize>, h: usize)
    ensures
        forall|x: int| #[trigger] in_list(l.push(h), x) <==> in_list(l, x) || x == h,
        distinct(l) && !in_list(l, h as int) ==> distinct(l.push(h)),
{
    let m = l.push(h);
    assert forall|x: int| #[trigger] in_list(m, x) <==> in_list(l, x) || x == h by {
        if in_list(l, x) {
            let i = choose|i: int| 0 <= i < l.len() && #[trigger] l[i] == x;
            assert(m[i] == x);
        }
        if x == h {
            assert(m[l.len() as int] == x);
        }
        if in_list(m, x) {
            let i = choose|i: int| 0 <= i < m.len() && #[trigger] m[i] == x;
            if i < l.len() {
                assert(l[i] == x);
            }
        }
    }
    if distinct(l) && !in_list(l, h as int) {
        assert forall|i: int, j: int| 0 <= i < j < m.len() implies #[trigger] m[i]
            != #[trigger] m[j] by {
            if j == l.len() {
                assert(l[i] != h);
            } else {
                assert(l[i] != l[j]);
            }
        }
    }
}

proof fn lemma_removed(l: Seq<usize>, at: int)
    requires
        distinct(l),
        0 <= at < l.len(),
    ensures
        distinct(l.remove(at)),
        forall|x: int| #[trigger] in_list(l.remove(at), x) <==> in_list(l, x) && x != l[at],
{
    let m = l.remove(at);
    assert forall|i: int| 0 <= i < m.len() implies #[trigger] m[i] == l[if i < at {
        i
    } else {
        i + 1
    }] by {}
    assert forall|x: int| #[trigger] in_list(m, x) <==> in_list(l, x) && x != l[at] by {
        if in_list(l, x) && x != l[at] {
            let i = choose|i: int| 0 <= i < l.len() && #[trigger] l[i] == x;
            let k = if i < at {
                i
            } else {
                i - 1
            };
            assert(m[k] == x);
        }
        if in_list(m, x) {
            let i = choose|i: int| 0 <= i < m.len() && #[trigger] m[i] == x;
            let k = if i < at {
                i
            } else {
                i + 1
            };
            assert(l[k] == x);
            assert(l[k] != l[at]);
        }
    }
}

proof fn lemma_unlinked(l: Seq<usize>, h: int)
    requires
        distinct(l),
        in_list(l, h),
    ensures
        distinct(unlinked(l, h)),
        forall|x: int| #[trigger] in_list(unlinked(l, h), x) <==> in_list(l, x) && x != h,
{
    let at = choose|i: int| 0 <= i < l.len() && #[trigger] l[i] == h;
    lemma_removed(l, at);
}

proof fn lemma_dropped(l: Seq<usize>)
    requires
        distinct(l),
        l.len() > 0,
    ensures
        distinct(l.drop_last()),
        in_list(l, l.last() as int),
        forall|x: int| #[trigger]
            in_list(l.drop_last(), x) <==> in_list(l, x) && x != l.last(),
{
    lemma_removed(l, l.len() - 1);
    assert(l.remove(l.len() - 1) =~= l.drop_last());
    assert(l[l.len() - 1] == l.last());
}

impl BuddyState {
    /// The state with another list at order `o`.
    spec fn with_list(self, o: int, l: Seq<usize>) -> BuddyState {
        BuddyState { lists: self.lists.update(o, l), ..self }
    }

    /// Taking a free block off its list leaves it as the one extra block.
    proof fn lemma_take(self, h: int, o: int, l: Seq<usize>)
        requires
            self.wf(),
            0 <= o <= MAX_ORDER,
            in_list(self.lists[o], h),
            distinct(l),
            forall|x: int| #[trigger] in_list(l, x) <==> in_list(self.lists[o], x) && x != h,
        ensures
            self.with_list(o, l).wf_with(set![(h, o)]),
    {
        let t = self.with_list(o, l);
        assert forall|b: Block| #[trigger] t.free_blocks().contains(b) <==> self.free_blocks().contains(b) && b != (h, o) by {
            if b.1 == o {
                assert(in_list(l, b.0) <==> in_list(self.lists[o], b.0) && b.0 != h);
            }
        }
        assert(self.free_blocks().contains((h, o)));
        assert(t.used_blocks() =~= self.used_blocks());
        assert(t.free_blocks() + t.used_blocks() + set![(h, o)] =~= self.free_blocks()
            + self.used_blocks() + Set::empty());
        assert forall|b: Block| #[trigger]
            t.free_blocks().contains(b) && b.1 < MAX_ORDER implies !in_list(
            t.lists[b.1],
            buddy(b.0, b.1),
        ) by {
            assert(self.free_blocks().contains(b));
            if b.1 == o {
                assert(in_list(l, buddy(b.0, b.1)) ==> in_list(self.lists[o], buddy(b.0, b.1)));
            }
        }
        assert forall|k: int| 0 <= k <= MAX_ORDER implies distinct(#[trigger] t.lists[k]) by {
            assert(distinct(self.lists[k]));
        }
    }

    /// Splitting the extra block: its upper half becomes free.
    proof fn lemma_split_extra(self, h: int, o: int)
        requires
            self.wf_with(set![(h, o + 1)]),
            0 <= o < MAX_ORDER,
        ensures
            0 <= h,
            h + block_pages(o + 1) <= self.pages,
            !self.reserved.contains(h + block_pages(o)),
            !self.used.dom().contains(h + block_pages(o)),
            forall|k: int|
                0 <= k <= MAX_ORDER ==> !in_list(
                    #[trigger] self.lists[k],
                    h + block_pages(o),
                ),
            self.with_list(o, self.lists[o].push((h + block_pages(o)) as usize)).wf_with(
                set![(h, o)],
            ),
    {
        let u = h + block_pages(o);
        let hi = (u, o);
        let whole = (h, o + 1);
        let all = self.free_blocks() + self.used_blocks() + set![whole];
        assert(all.contains(whole));
        assert(fits(whole, self.pages));
        lemma_block_pages_pos(o);
        lemma_halves(h, o);
        assert(in_block(whole, u));
        let l = self.lists[o].push(u as usize);
        let t = self.with_list(o, l);
        self.lemma_not_head(whole, u);
        assert(distinct(self.lists[o]));
        assert(!in_list(self.lists[o], u));
        lemma_pushed(self.lists[o], u as usize);
        self.lemma_not_head(whole, h);
        assert(!in_list(self.lists[o], h));
        lemma_split(all, self.reserved, self.pages, h, o);
        assert forall|b: Block| #[trigger] t.free_blocks().contains(b) <==> self.free_blocks().contains(b) || b == hi by {
            if b.1 == o {
                assert(in_list(l, b.0) <==> in_list(self.lists[o], b.0) || b.0 == u);
            }
        }
        assert(t.used_blocks() =~= self.used_blocks());
        assert(!self.used_blocks().contains((h, o)));
        assert(!self.free_blocks().contains((h, o)));
        assert(t.free_blocks() + t.used_blocks() + set![(h, o)] =~= all.remove(whole).insert(
            (h, o),
        ).insert(hi));
        assert(!self.used_blocks().contains(hi));
        assert forall|b: Block| #[trigger]
            t.free_blocks().contains(b) && b.1 < MAX_ORDER implies !in_list(
            t.lists[b.1],
            buddy(b.0, b.1),
        ) by {
            if b == hi {
                assert(!in_list(l, h));
            } else {
                assert(self.free_blocks().contains(b));
                if b.1 == o && buddy(b.0, o) == u {
                    assert(all.contains(b));
                    assert(fits(b, self.pages));
                    lemma_buddy(b.0, o);
                    assert(b.0 == h);
                }
            }
        }
        assert forall|k: int| 0 <= k <= MAX_ORDER implies distinct(#[trigger] t.lists[k]) by {
            assert(distinct(self.lists[k]));
        }
    }

    /// A page of the extra block heads no other block and is not reserved.
    proof fn lemma_not_head(self, e: Block, p: int)
        requires
            self.wf_with(set![e]),
            in_block(e, p),
        ensures
            0 <= p < self.pages,
            !self.reserved.contains(p),
            !self.used.dom().contains(p),
            forall|k: int| 0 <= k <= MAX_ORDER ==> !in_list(#[trigger] self.lists[k], p),
    {
        let all = self.free_blocks() + self.used_blocks() + set![e];
        assert(all.contains(e));
        assert(fits(e, self.pages));
        if self.used.dom().contains(p) {
            let b = (p, self.used[p]);
            assert(self.used_blocks().contains(b));
            assert(all.contains(b) && b != e);
            assert(fits(b, self.pages));
            lemma_block_pages_pos(b.1);
            assert(disjoint(b, e));
        }
        assert forall|k: int| 0 <= k <= MAX_ORDER implies !in_list(
            #[trigger] self.lists[k],
            p,
        ) by {
            if in_list(self.lists[k], p) {
                let b = (p, k);
                assert(self.free_blocks().contains(b));
                assert(all.contains(b) && b != e);
                lemma_block_pages_pos(k);
                assert(disjoint(b, e));
            }
        }
    }

    /// The extra block becomes an allocated block.
    proof fn lemma_mark_used(self, h: int, o: int)
        requires
            self.wf_with(set![(h, o)]),
        ensures
            (BuddyState { used: self.used.insert(h, o), ..self }).wf(),
    {
        let t = BuddyState { used: self.used.insert(h, o), ..self };
        let all = self.free_blocks() + self.used_blocks() + set![(h, o)];
        assert(all.contains((h, o)));
        assert(fits((h, o), self.pages));
        lemma_block_pages_pos(o);
        self.lemma_not_head((h, o), h);
        assert(t.free_blocks() =~= self.free_blocks());
        assert(t.used_blocks() =~= self.used_blocks().insert((h, o)));
        assert(t.free_blocks() + t.used_blocks() + Set::empty() =~= all);
        assert forall|b: Block| #[trigger]
            t.free_blocks().contains(b) && b.1 < MAX_ORDER implies !in_list(
            t.lists[b.1],
            buddy(b.0, b.1),
        ) by {
            assert(self.free_blocks().contains(b));
        }
    }

    /// An allocated block becomes the extra block.
    proof fn lemma_unmark(self, h: int)
        requires
            self.wf(),
            self.used.dom().contains(h),
        ensures
            (BuddyState { used: self.used.remove(h), ..self }).wf_with(set![(h, self.used[h])]),
            fits((h, self.used[h]), self.pages),
    {
        let o = self.used[h];
        let t = BuddyState { used: self.used.remove(h), ..self };
        let all = self.free_blocks() + self.used_blocks() + Set::empty();
        assert(self.used_blocks().contains((h, o)));
        assert(all.contains((h, o)));
        assert(fits((h, o), self.pages));
        assert(t.free_blocks() =~= self.free_blocks());
        assert(t.used_blocks() =~= self.used_blocks().remove((h, o)));
        assert(t.free_blocks() + t.used_blocks() + set![(h, o)] =~= all);
        assert forall|b: Block| #[trigger]
            t.free_blocks().contains(b) && b.1 < MAX_ORDER implies !in_list(
            t.lists[b.1],
            buddy(b.0, b.1),
        ) by {
            assert(self.free_blocks().contains(b));
        }
    }

    /// The extra block joins its free buddy.
    proof fn lemma_join_extra(self, h: int, o: int)
        requires
            self.wf_with(set![(h, o)]),
            o < MAX_ORDER,
            in_list(self.lists[o], buddy(h, o)),
        ensures
            self.with_list(o, unlinked(self.lists[o], buddy(h, o))).wf_with(
                set![(parent(h, o), o + 1)],
            ),
    {
        let b0 = buddy(h, o);
        let all = self.free_blocks() + self.used_blocks() + set![(h, o)];
        assert(all.contains((h, o)));
        assert(fits((h, o), self.pages));
        lemma_buddy(h, o);
        lemma_block_pages_pos(o);
        let l = unlinked(self.lists[o], b0);
        let t = self.with_list(o, l);
        assert(distinct(self.lists[o]));
        lemma_unlinked(self.lists[o], b0);
        assert(self.free_blocks().contains((b0, o)));
        assert(all.contains((b0, o)));
        lemma_merge(all, self.reserved, self.pages, h, o);
        let p = parent(h, o);
        let whole = (p, o + 1);
        assert forall|b: Block| #[trigger] t.free_blocks().contains(b) <==> self.free_blocks().contains(b) && b != (b0, o) by {
            if b.1 == o {
                assert(in_list(l, b.0) <==> in_list(self.lists[o], b.0) && b.0 != b0);
            }
        }
        assert(t.used_blocks() =~= self.used_blocks());
        // The parent is no block yet: it would overlap the extra block.
        assert(!all.contains(whole)) by {
            if all.contains(whole) {
                assert(whole != (h, o));
                assert(disjoint(whole, (h, o)));
            }
        }
        assert(t.free_blocks() + t.used_blocks() + set![whole] =~= all.remove((h, o)).remove(
            (b0, o),
        ).insert(whole));
        assert forall|b: Block| #[trigger]
            t.free_blocks().contains(b) && b.1 < MAX_ORDER implies !in_list(
            t.lists[b.1],
            buddy(b.0, b.1),
        ) by {
            assert(self.free_blocks().contains(b));
            if b.1 == o {
                assert(in_list(l, buddy(b.0, b.1)) ==> in_list(self.lists[o], buddy(b.0, b.1)));
            }
        }
        assert forall|k: int| 0 <= k <= MAX_ORDER implies distinct(#[trigger] t.lists[k]) by {
            assert(distinct(self.lists[k]));
        }
    }

    /// The extra block, whose buddy is not free, becomes a free block.
    proof fn lemma_give_back(self, h: int, o: int)
        requires
            self.wf_with(set![(h, o)]),
            o < MAX_ORDER ==> !in_list(self.lists[o], buddy(h, o)),
        ensures
            self.with_list(o, self.lists[o].push(h as usize)).wf(),
    {
        let all = self.free_blocks() + self.used_blocks() + set![(h, o)];
        assert(all.contains((h, o)));
        assert(fits((h, o), self.pages));
        lemma_block_pages_pos(o);
        self.lemma_not_head((h, o), h);
        let l = self.lists[o].push(h as usize);
        let t = self.with_list(o, l);
        assert(distinct(self.lists[o]));
        assert(!in_list(self.lists[o], h));
        lemma_pushed(self.lists[o], h as usize);
        assert forall|b: Block| #[trigger] t.free_blocks().contains(b) <==> self.free_blocks().contains(b) || b == (h, o) by {
            if b.1 == o {
                assert(in_list(l, b.0) <==> in_list(self.lists[o], b.0) || b.0 == h);
            }
        }
        assert(t.used_blocks() =~= self.used_blocks());
        assert(t.free_blocks() + t.used_blocks() + Set::empty() =~= all);
        lemma_buddy(h, o);
        assert forall|b: Block| #[trigger]
            t.free_blocks().contains(b) && b.1 < MAX_ORDER implies !in_list(
            t.lists[b.1],
            buddy(b.0, b.1),
        ) by {
            if b == (h, o) {
                assert(in_list(l, buddy(h, o)) ==> in_list(self.lists[o], buddy(h, o))
                    || buddy(h, o) == h);
            } else {
                assert(self.free_blocks().contains(b));
                assert(all.contains(b));
                assert(fits(b, self.pages));
                if b.1 == o && buddy(b.0, o) == h {
                    lemma_buddy(b.0, o);
                    assert(b.0 == buddy(h, o));
                }
            }
        }
        assert forall|k: int| 0 <= k <= MAX_ORDER implies distinct(#[trigger] t.lists[k]) by {
            assert(distinct(self.lists[k]));
        }
    }
}

impl BuddyAllocator {
    /// Hand out a block of `2^order` pages; `None` when no free block is large enough.
    ///
    /// The block comes from the lowest order that has a free block; the unused upper halves go
    /// back to the lists of their orders.
    pub fn alloc_block(&mut self, order: usize) -> (r: Option<u64>)
        requires
            old(self).wf(),
        ensures
            final(self).wf(),
            match r {
                None => {
                    &&& final(self)@ == old(self)@
                    &&& order > MAX_ORDER || first_fit(old(self)@.lists, order as int) > MAX_ORDER
                },
                Some(addr) => {
                    let from = first_fit(old(self)@.lists, order as int);
                    let h = old(self)@.lists[from].last() as int;
                    &&& order <= from <= MAX_ORDER
                    &&& addr == old(self)@.addr(h)
                    &&& final(self)@ == old(self)@.after_alloc(order as int)
                    &&& fits((h, order as int), old(self)@.pages)
                    &&& !old(self)@.used.dom().contains(h)
                },
            },
    {
        if order > MAX_ORDER {
            return None;
        }
        let ghost s = self@;
        let mut o: usize = order;
        let mut found: Option<usize> = None;
        while o <= MAX_ORDER && found.is_none()
            invariant
                order <= o <= MAX_ORDER + 1,
                self.inv(),
                s.wf(),
                found is None ==> self@ == s && first_fit(s.lists, order as int) == first_fit(
                    s.lists,
                    o as int,
                ),
                found is Some ==> {
                    &&& o <= MAX_ORDER
                    &&& o == first_fit(s.lists, order as int)
                    &&& s.lists[o as int].len() > 0
                    &&& found->0 == s.lists[o as int].last()
                    &&& self@ == s.with_list(o as int, s.lists[o as int].drop_last())
                },
            decreases MAX_ORDER + 1 - o + (if found is None { 1int } else { 0int }),
        {
            let r = self.pop(o);
            if r.is_none() {
                o += 1;
            }
            found = r;
        }
        if found.is_none() {
            return None;
        }
        let idx: usize = found.unwrap();
        let ghost h = idx as int;
        let ghost from = o as int;
        let mut cur: usize = o;
        proof {
            assert(distinct(s.lists[from]));
            lemma_dropped(s.lists[from]);
            s.lemma_take(h, from, s.lists[from].drop_last());
            assert(self@.lists =~= split_lists(s.lists, h, from, from));
        }
        while cur > order
            invariant
                order <= cur <= from <= MAX_ORDER,
                idx == h,
                self.inv(),
                self@.wf_with(set![(h, cur as int)]),
                self@ == (BuddyState { lists: split_lists(s.lists, h, from, cur as int), ..s }),
                s.lists.len() == MAX_ORDER + 1,
            decreases cur,
        {
            cur -= 1;
            let ghost t = self@;
            proof {
                t.lemma_split_extra(h, cur as int);
                lemma_block_pages_pos(cur as int);
            }
            let half: usize = block_size(cur);
            self.push(idx + half, cur);
            proof {
                assert(self@ == t.with_list(
                    cur as int,
                    t.lists[cur as int].push((h + block_pages(cur as int)) as usize),
                ));
                assert(self@.lists =~= split_lists(s.lists, h, from, cur as int));
            }
        }
        let ghost t = self@;
        proof {
            lemma_block_pages_pos(order as int);
            t.lemma_not_head((h, order as int), h);
            t.lemma_mark_used(h, order as int);
            let all = t.free_blocks() + t.used_blocks() + set![(h, order as int)];
            assert(all.contains((h, order as int)));
            assert(fits((h, order as int), t.pages));
            assert forall|k: int, i: int|
                #![trigger self.free_lists@[k]@[i]]
                0 <= k <= MAX_ORDER && 0 <= i
                    < self.free_lists@[k]@.len() implies self.free_lists@[k]@[i] != idx by {
                if self.free_lists@[k]@[i] == idx {
                    assert(t.lists[k][i] == h);
                    assert(in_list(t.lists[k], h));
                }
            }
        }
        self.meta[idx] = PageMeta { order: order as u8, used: true };
        proof {
            assert(self@.used =~= t.used.insert(h, order as int));
            assert(self@.reserved =~= t.reserved);
            assert(self@.lists =~= t.lists);
            assert(self@ =~= s.after_alloc(order as int));
        }
        Some(self.block_addr(idx))
    }

    /// Give back the block at `addr`, joining it with free buddies.
    ///
    /// Only the address of an allocated block is accepted: addresses outside the region, not on a
    /// page boundary, inside a block, or of a block that is free already are rejected and change
    /// nothing.
    pub fn free(&mut self, addr: u64) -> (r: Result<(), ()>)
        requires
            old(self).wf(),
        ensures
            final(self).wf(),
            r is Ok <==> old(self)@.can_free(addr as int),
            r is Ok ==> final(self)@ == old(self)@.after_free(old(self)@.index(addr as int)),
            r is Err ==> final(self)@ == old(self)@,
    {
        let ghost s = self@;
        let end: u64 = self.base + self.real_count as u64 * PAGE_SIZE;
        if addr < self.base || addr >= end || addr % PAGE_SIZE != 0 {
            return Err(());
        }
        let mut idx: usize = self.block_index(addr);
        let m: PageMeta = self.meta[idx];
        let mut order: usize = m.order as usize;
        if order > MAX_ORDER || !m.used {
            return Err(());
        }
        let ghost h0 = idx as int;
        let ghost o0 = order as int;
        assert(s.used.dom().contains(h0) && s.used[h0] == o0);
        proof {
            s.lemma_unmark(h0);
        }
        let head: usize = block_size(order);
        if idx % head != 0 {
            assert(false);
            return Err(());
        }
        let ghost before = self@;
        self.meta[idx] = PageMeta { order: m.order, used: false };
        proof {
            assert forall|k: int, i: int|
                #![trigger self.free_lists@[k]@[i]]
                0 <= k <= MAX_ORDER && 0 <= i
                    < self.free_lists@[k]@.len() implies self.free_lists@[k]@[i] != idx by {
                assert(self.free_lists@[k]@[i] == old(self).free_lists@[k]@[i]);
            }
            assert(self@.used =~= s.used.remove(h0));
            assert(self@.reserved =~= s.reserved);
            assert(self@.lists =~= s.lists);
        }
        let mut go: bool = order < MAX_ORDER;
        while go
            invariant
                go ==> order < MAX_ORDER,
                order <= MAX_ORDER,
                self.inv(),
                self@.wf_with(set![(idx as int, order as int)]),
                fits((idx as int, order as int), self@.pages),
                join_lists(s.lists, h0, o0) == join_lists(
                    self@.lists,
                    idx as int,
                    order as int,
                ),
                self@ == (BuddyState { lists: self@.lists, used: s.used.remove(h0), ..s }),
                !go ==> order == MAX_ORDER || !in_list(
                    self@.lists[order as int],
                    buddy(idx as int, order as int),
                ),
            decreases MAX_ORDER - order + (if go { 1int } else { 0int }),
        {
            let ghost t = self@;
            let size: usize = block_size(order);
            proof {
                lemma_buddy(idx as int, order as int);
                lemma_block_pages_pos(order as int);
            }
            let double: usize = size * 2;
            let b: usize = if idx % double == 0 {
                idx + size
            } else {
                idx - size
            };
            assert(b == buddy(idx as int, order as int));
            let free_buddy: bool = b + size <= self.page_count && !self.meta[b].used
                && self.meta[b].order as usize == order;
            proof {
                self.lemma_buddy_free(idx, order, b);
            }
            if !free_buddy {
                go = false;
            } else {
                self.unlink(b, order);
                proof {
                    t.lemma_join_extra(idx as int, order as int);
                    assert(self@ == t.with_list(
                        order as int,
                        unlinked(t.lists[order as int], b as int),
                    ));
                    assert(parent(idx as int, order as int) == if idx < b {
                        idx
                    } else {
                        b
                    });
                    let w = (parent(idx as int, order as int), order + 1);
                    let all = self@.free_blocks() + self@.used_blocks() + set![w];
                    assert(all.contains(w));
                    assert(fits(w, self@.pages));
                }
                if b < idx {
                    idx = b;
                }
                order += 1;
                go = order < MAX_ORDER;
            }
        }
        let ghost t = self@;
        proof {
            lemma_block_pages_pos(order as int);
            t.lemma_not_head((idx as int, order as int), idx as int);
            t.lemma_give_back(idx as int, order as int);
        }
        self.push(idx, order);
        proof {
            assert(self@ == t.with_list(order as int, t.lists[order as int].push(idx)));
            assert(self@ =~= s.after_free(h0));
        }
        Ok(())
    }

    /// The page record of a buddy tells whether the buddy is a free block of the same order.
    proof fn lemma_buddy_free(&self, idx: usize, order: usize, b: usize)
        requires
            self.inv(),
            self@.wf_with(set![(idx as int, order as int)]),
            fits((idx as int, order as int), self@.pages),
            order < MAX_ORDER,
            b == buddy(idx as int, order as int),
        ensures
            in_list(self@.lists[order as int], b as int) <==> b + block_pages(order as int)
                <= self.page_count && !self.meta@[b as int].used && self.meta@[b as int].order
                == order,
    {
        let t = self@;
        let e = (idx as int, order as int);
        let all = t.free_blocks() + t.used_blocks() + set![e];
        lemma_block_pages_pos(order as int);
        assert(all.contains(e));
        if in_list(t.lists[order as int], b as int) {
            let l = self.free_lists@[order as int]@;
            let i = choose|i: int| 0 <= i < l.len() && #[trigger] l[i] == b as int;
            assert(self.free_lists@[order as int]@[i] == b);
            assert(t.free_blocks().contains((b as int, order as int)));
            assert(all.contains((b as int, order as int)));
            assert(fits((b as int, order as int), t.pages));
        }
        if b + block_pages(order as int) <= self.page_count && !self.meta@[b as int].used
            && self.meta@[b as int].order == order {
            assert(b < self.real_count);
            assert(!t.reserved.contains(b as int));
            let k = lemma_buddy_is_head(all, t.reserved, t.pages, idx as int, order as int);
            let c = (b as int, k);
            lemma_buddy(idx as int, order as int);
            assert(c != e);
            assert(!t.used_blocks().contains(c));
            assert(t.free_blocks().contains(c));
            let l = self.free_lists@[k]@;
            let i = choose|i: int| 0 <= i < l.len() && #[trigger] l[i] == b as int;
            assert(self.free_lists@[k]@[i] == b);
        }
    }
}

/// Page `p` lies in one of the page ranges (first page, page behind the last).
pub open spec fn in_ranges(ranges: Seq<(usize, usize)>, p: int) -> bool {
    exists|i: int| 0 <= i < ranges.len() && #[trigger] ranges[i].0 <= p < ranges[i].1
}

/// Entries grow from the bottom of the list to its top.
pub open spec fn ascending(l: Seq<usize>) -> bool {
    forall|i: int, j: int| 0 <= i < j < l.len() ==> #[trigger] l[i] < #[trigger] l[j]
}

/// Block `b` lies inside `[0, n)` and touches none of the ranges.
pub open spec fn clean(ranges: Seq<(usize, usize)>, b: Block, n: int) -> bool {
    b.0 + block_pages(b.1) <= n && forall|p: int|
        #![trigger in_ranges(ranges, p)]
        in_block(b, p) ==> !in_ranges(ranges, p)
}

impl BuddyState {
    /// State of an allocator over `count` pages from `base` in which nothing was handed out yet:
    /// the ranges are reserved, every list is in ascending order.
    pub open spec fn fresh(self, base: int, count: int, ranges: Seq<(usize, usize)>) -> bool {
        &&& self.base == base
        &&& self.pages == count
        &&& self.used == Map::<int, int>::empty()
        &&& forall|p: int| #[trigger]
            self.reserved.contains(p) <==> 0 <= p < count && in_ranges(ranges, p)
        &&& forall|o: int| 0 <= o <= MAX_ORDER ==> ascending(#[trigger] self.lists[o])
    }

    /// The lists are built up to page `c`.
    spec fn built(self, ranges: Seq<(usize, usize)>, c: int) -> bool {
        &&& self.lists.len() == MAX_ORDER + 1
        &&& forall|o: int|
            0 <= o <= MAX_ORDER ==> ascending(#[trigger] self.lists[o]) && distinct(self.lists[o])
        &&& tiles(self.free_blocks(), self.reserved, c)
        &&& self.used == Map::<int, int>::empty()
        &&& self.coalesced()
        &&& 0 <= c <= self.pages <= MAX_PAGES
        &&& forall|p: int| #[trigger]
            self.reserved.contains(p) <==> 0 <= p < c && in_ranges(ranges, p)
    }

    proof fn lemma_built_new(self, ranges: Seq<(usize, usize)>, c: int, p: int)
        requires
            self.built(ranges, c),
            c <= p,
        ensures
            forall|k: int| 0 <= k <= MAX_ORDER ==> !in_list(#[trigger] self.lists[k], p),
    {
        assert forall|k: int| 0 <= k <= MAX_ORDER implies !in_list(
            #[trigger] self.lists[k],
            p,
        ) by {
            if in_list(self.lists[k], p) {
                assert(self.free_blocks().contains((p, k)));
                assert(fits((p, k), c));
                lemma_block_pages_pos(k);
            }
        }
    }

    proof fn lemma_built_push(self, ranges: Seq<(usize, usize)>, c: int, o: int)
        requires
            self.built(ranges, c),
            fits((c, o), self.pages),
            clean(ranges, (c, o), self.pages),
            o < MAX_ORDER ==> !in_list(self.lists[o], buddy(c, o)),
        ensures
            self.with_list(o, self.lists[o].push(c as usize)).built(ranges, c + block_pages(o)),
    {
        let l = self.lists[o].push(c as usize);
        let t = self.with_list(o, l);
        let b = (c, o);
        lemma_block_pages_pos(o);
        self.lemma_built_new(ranges, c, c);
        assert(distinct(self.lists[o]) && ascending(self.lists[o]));
        assert(!in_list(self.lists[o], c));
        lemma_pushed(self.lists[o], c as usize);
        assert forall|x: Block| #[trigger] t.free_blocks().contains(x) <==> self.free_blocks().contains(x) || x == b by {
            if x.1 == o {
                assert(in_list(l, x.0) <==> in_list(self.lists[o], x.0) || x.0 == c);
            }
        }
        assert(t.free_blocks() =~= self.free_blocks().insert(b));
        assert(fits(b, c + block_pages(o)));
        assert forall|p: int| in_block(b, p) implies !#[trigger] self.reserved.contains(p) by {
            assert(!in_ranges(ranges, p));
        }
        lemma_extend_block(self.free_blocks(), self.reserved, c, b);
        assert(ascending(l)) by {
            assert forall|i: int, j: int| 0 <= i < j < l.len() implies #[trigger] l[i]
                < #[trigger] l[j] by {
                if j == self.lists[o].len() {
                    let x = self.lists[o][i];
                    assert(in_list(self.lists[o], x as int));
                    assert(self.free_blocks().contains((x as int, o)));
                    assert(fits((x as int, o), c));
                } else {
                    assert(self.lists[o][i] < self.lists[o][j]);
                }
            }
        }
        lemma_buddy(c, o);
        assert forall|x: Block| #[trigger]
            t.free_blocks().contains(x) && x.1 < MAX_ORDER implies !in_list(
            t.lists[x.1],
            buddy(x.0, x.1),
        ) by {
            if x == b {
                assert(in_list(l, buddy(c, o)) ==> in_list(self.lists[o], buddy(c, o)));
            } else {
                assert(self.free_blocks().contains(x));
                assert(fits(x, c));
                if x.1 == o && buddy(x.0, o) == c {
                    lemma_buddy(x.0, o);
                    assert(x.0 == buddy(c, o));
                }
            }
        }
        assert forall|k: int| 0 <= k <= MAX_ORDER implies ascending(#[trigger] t.lists[k])
            && distinct(t.lists[k]) by {
            assert(ascending(self.lists[k]) && distinct(self.lists[k]));
        }
        assert forall|p: int| #[trigger] t.reserved.contains(p) <==> 0 <= p < c + block_pages(o)
            && in_ranges(ranges, p) by {
            if c <= p < c + block_pages(o) {
                assert(in_block(b, p));
            }
        }
    }
}

impl BuddyAllocator {
    /// An allocator without memory.
    pub fn new() -> (r: BuddyAllocator)
        ensures
            r.wf(),
            r@.fresh(0, 0, Seq::empty()),
    {
        let mut a = BuddyAllocator {
            base: 0,
            real_count: 0,
            page_count: 0,
            meta: Vec::new(),
            free_lists: Vec::new(),
        };
        a.init(0, 0, &[]);
        proof {
            assert(forall|p: int| a@.reserved.contains(p) ==> 0 <= p < 0);
        }
        a
    }

    /// Set the allocator up over `count` pages from `base`; the pages of the `reserved` ranges
    /// are never handed out.
    pub fn init(&mut self, base: u64, count: usize, reserved: &[(usize, usize)])
        requires
            base % PAGE_SIZE == 0,
            count <= MAX_PAGES,
            base + count * PAGE_SIZE <= u64::MAX,
        ensures
            final(self).wf(),
            final(self)@.fresh(base as int, count as int, reserved@),
    {
        let top: usize = block_size(MAX_ORDER);
        proof {
            lemma_block_pages_values();
        }
        let padded: usize = (count + (top - 1)) / top * top;
        self.base = base;
        self.real_count = count;
        self.page_count = padded;
        self.meta = Vec::new();
        self.free_lists = Vec::new();
        let mut i: usize = 0;
        while i < padded
            invariant
                self.base == base,
                self.real_count == count,
                self.page_count == padded,
                i <= padded,
                self.free_lists@.len() == 0,
                self.meta@.len() == i,
                forall|p: int|
                    #![trigger self.meta@[p]]
                    0 <= p < i ==> (self.meta@[p].used <==> p >= count),
            decreases padded - i,
        {
            if i < count {
                self.meta.push(PageMeta { order: 0, used: false });
            } else {
                self.meta.push(PageMeta { order: MAX_ORDER as u8, used: true });
            }
            i += 1;
        }
        let mut o: usize = 0;
        while o < MAX_ORDER + 1
            invariant
                self.base == base,
                self.real_count == count,
                self.page_count == padded,
                self.meta@.len() == padded,
                forall|p: int|
                    #![trigger self.meta@[p]]
                    0 <= p < padded ==> (self.meta@[p].used <==> p >= count),
                o <= MAX_ORDER + 1,
                self.free_lists@.len() == o,
                forall|k: int| 0 <= k < o ==> (#[trigger] self.free_lists@[k])@.len() == 0,
            decreases MAX_ORDER + 1 - o,
        {
            self.free_lists.push(Vec::new());
            o += 1;
        }
        proof {
            assert(self@.used =~= Map::<int, int>::empty());
            assert(self@.reserved =~= Set::<int>::empty());
            assert forall|b: Block| !#[trigger] self@.free_blocks().contains(b) by {}
            assert(self.inv());
            assert(self@.built(reserved@, 0));
        }
        let mut idx: usize = 0;
        while idx < count
            invariant
                top == 4096,
                block_pages(12) == 4096,
                count <= MAX_PAGES,
                idx % 4096 == 0,
                idx <= count + 4096,
                self.inv(),
                self@.base == base,
                self@.pages == count,
                self@.built(reserved@, if idx < count { idx as int } else { count as int }),
            decreases count + 4096 - idx,
        {
            proof {
                assert(aligned(idx as int, MAX_ORDER as int));
            }
            self.carve(idx, MAX_ORDER, reserved);
            idx += top;
        }
        proof {
            let s = self@;
            assert(s.used_blocks() =~= Set::empty());
            assert(s.free_blocks() + s.used_blocks() + Set::empty() =~= s.free_blocks());
        }
    }

    /// Build the free lists over the pages of block `(idx, order)`: a block that no reserved
    /// range touches becomes free, a block inside one range becomes reserved, any other block is
    /// split.
    fn carve(&mut self, idx: usize, order: usize, reserved: &[(usize, usize)])
        requires
            old(self).inv(),
            order <= MAX_ORDER,
            idx <= MAX_PAGES + 4096,
            aligned(idx as int, order as int),
            old(self)@.built(
                reserved@,
                if idx < old(self)@.pages {
                    idx as int
                } else {
                    old(self)@.pages
                },
            ),
            order < MAX_ORDER && in_list(
                old(self)@.lists[order as int],
                buddy(idx as int, order as int),
            ) ==> !clean(reserved@, (idx as int, order as int), old(self)@.pages),
        ensures
            final(self).inv(),
            final(self)@.base == old(self)@.base,
            final(self)@.pages == old(self)@.pages,
            final(self)@.built(
                reserved@,
                if idx + block_pages(order as int) < old(self)@.pages {
                    idx + block_pages(order as int)
                } else {
                    old(self)@.pages
                },
            ),
            idx < old(self)@.pages ==> (in_list(final(self)@.lists[order as int], idx as int)
                <==> clean(reserved@, (idx as int, order as int), old(self)@.pages)),
        decreases order,
    {
        let ghost s = self@;
        let ghost b = (idx as int, order as int);
        proof {
            lemma_block_pages_pos(order as int);
            if order > 0 {
                lemma_block_pages_pos(order - 1);
                lemma_halves(idx as int, order - 1);
            }
        }
        let size: usize = block_size(order);
        let end: usize = idx + size;
        if idx >= self.real_count {
            return ;
        }
        if end <= self.real_count {
            let mut inside: bool = false;
            let mut overlap: bool = false;
            let mut i: usize = 0;
            let n: usize = reserved.len();
            while i < n
                invariant
                    n == reserved@.len(),
                    i <= n,
                    b == (idx as int, order as int),
                    end == idx + block_pages(order as int),
                    idx < end,
                    inside ==> forall|p: int|
                        #![trigger in_ranges(reserved@, p)]
                        in_block(b, p) ==> in_ranges(reserved@, p),
                    overlap ==> exists|p: int|
                        in_block(b, p) && #[trigger] in_ranges(reserved@, p),
                    inside ==> overlap,
                    !overlap ==> forall|k: int, p: int|
                        0 <= k < i && #[trigger] in_block(b, p) ==> !(#[trigger] reserved@[k].0 <= p
                            < reserved@[k].1),
                    order == 0 && overlap ==> inside,
                decreases n - i,
            {
                let rs: usize = reserved[i].0;
                let re: usize = reserved[i].1;
                if idx >= rs && end <= re {
                    inside = true;
                    proof {
                        assert forall|p: int|
                            #![trigger in_ranges(reserved@, p)]
                            in_block(b, p) implies in_ranges(reserved@, p) by {
                            assert(reserved@[i as int].0 <= p < reserved@[i as int].1);
                        }
                        assert(in_block(b, idx as int) && in_ranges(reserved@, idx as int));
                    }
                    overlap = true;
                }
                if rs < re && end > rs && idx < re {
                    overlap = true;
                    proof {
                        let p = if rs > idx {
                            rs as int
                        } else {
                            idx as int
                        };
                        assert(reserved@[i as int].0 <= p < reserved@[i as int].1);
                        assert(in_block(b, p) && in_ranges(reserved@, p));
                    }
                }
                i += 1;
            }
            if !overlap {
                proof {
                    assert forall|p: int|
                        #![trigger in_ranges(reserved@, p)]
                        in_block(b, p) implies !in_ranges(reserved@, p) by {
                        if in_ranges(reserved@, p) {
                            let k = choose|k: int|
                                0 <= k < reserved@.len() && #[trigger] reserved@[k].0 <= p
                                    < reserved@[k].1;
                            assert(in_block(b, p));
                        }
                    }
                    s.lemma_built_new(reserved@, idx as int, idx as int);
                    s.lemma_built_push(reserved@, idx as int, order as int);
                    lemma_pushed(s.lists[order as int], idx);
                }
                self.push(idx, order);
                return ;
            }
            assert(!clean(reserved@, b, s.pages));
            if inside {
                let mut p: usize = idx;
                let ghost m = self.meta@;
                while p < end
                    invariant
                        idx <= p <= end,
                        end <= self.real_count,
                        self.inv(),
                        s.built(reserved@, idx as int),
                        self@.base == s.base,
                        self@.pages == s.pages,
                        self@.lists == s.lists,
                        self@.used =~= s.used,
                        forall|q: int| #[trigger]
                            self@.reserved.contains(q) <==> s.reserved.contains(q) || idx <= q < p,
                    decreases end - p,
                {
                    let ghost before = *self;
                    proof {
                        s.lemma_built_new(reserved@, idx as int, p as int);
                        assert forall|k: int, i: int|
                            #![trigger self.free_lists@[k]@[i]]
                            0 <= k <= MAX_ORDER && 0 <= i
                                < self.free_lists@[k]@.len() implies self.free_lists@[k]@[i] != p by {
                            if self.free_lists@[k]@[i] == p {
                                assert(self@.lists[k][i] == p as int);
                                assert(in_list(s.lists[k], p as int));
                            }
                        }
                    }
                    self.meta[p] = PageMeta { order: u8::MAX, used: true };
                    proof {
                        assert(self@.lists =~= before@.lists);
                        assert forall|q: int| #[trigger]
                            self@.reserved.contains(q) <==> s.reserved.contains(q) || idx <= q
                                < p + 1 by {
                            assert(before@.reserved.contains(q) <==> s.reserved.contains(q) || idx <= q < p);
                        }
                        assert(!before@.used.dom().contains(p as int));
                        assert(self@.used =~= s.used);
                    }
                    p += 1;
                }
                proof {
                    let t = self@;
                    lemma_extend_holes(
                        s.free_blocks(),
                        s.reserved,
                        idx as int,
                        t.reserved,
                        end as int,
                    );
                    assert(t.free_blocks() =~= s.free_blocks());
                    assert forall|x: Block| #[trigger]
                        t.free_blocks().contains(x) && x.1 < MAX_ORDER implies !in_list(
                        t.lists[x.1],
                        buddy(x.0, x.1),
                    ) by {
                        assert(s.free_blocks().contains(x));
                    }
                    assert forall|q: int| #[trigger] t.reserved.contains(q) <==> 0 <= q < end
                        && in_ranges(reserved@, q) by {
                        if idx <= q < end {
                            assert(in_block(b, q));
                        }
                    }
                    s.lemma_built_new(reserved@, idx as int, idx as int);
                    assert(!in_list(s.lists[order as int], idx as int));
                }
                return ;
            }
        }
        assert(!clean(reserved@, b, s.pages));
        assert(order > 0);
        let half: usize = block_size(order - 1);
        let ghost lo = (idx as int, order - 1);
        let ghost hi = (idx + half, order - 1);
        proof {
            s.lemma_built_new(reserved@, idx as int, idx + half);
        }
        self.carve(idx, order - 1, reserved);
        let ghost t = self@;
        proof {
            // Both halves clean would make the whole block clean.
            if clean(reserved@, lo, s.pages) && clean(reserved@, hi, s.pages) {
                assert forall|p: int|
                    #![trigger in_ranges(reserved@, p)]
                    in_block(b, p) implies !in_ranges(reserved@, p) by {
                    assert(in_block(lo, p) || in_block(hi, p));
                }
                assert(clean(reserved@, b, s.pages));
            }
        }
        self.carve(idx + half, order - 1, reserved);
        proof {
            let f = self@;
            if in_list(f.lists[order as int], idx as int) {
                assert(f.free_blocks().contains(b));
                let c = if idx + block_pages(order as int) < f.pages {
                    idx + block_pages(order as int)
                } else {
                    f.pages
                };
                assert(fits(b, c));
                // The whole block is touched by a range, so a reserved page lies in a free block.
                let p = choose|p: int| in_block(b, p) && #[trigger] in_ranges(reserved@, p);
                assert(f.reserved.contains(p));
                assert(false);
            }
        }
    }
}

/// Number of pages in the free lists of orders below `o`.
pub open spec fn free_total(lists: Seq<Seq<usize>>, o: int) -> int
    decreases o,
{
    if o <= 0 {
        0
    } else {
        free_total(lists, o - 1) + lists[o - 1].len() * block_pages(o - 1)
    }
}

impl BuddyState {
    /// Number of free pages.
    pub open spec fn free_pages(self) -> int {
        free_total(self.lists, MAX_ORDER + 1)
    }
}

impl BuddyAllocator {
    /// Number of free pages.
    pub fn free_page_count(&self) -> (r: usize)
        requires
            self.wf(),
        ensures
            r == self@.free_pages(),
            r <= self@.pages,
    {
        let mut total: usize = 0;
        let mut o: usize = 0;
        proof {
            lemma_free_total_bound(self@, MAX_ORDER + 1);
        }
        while o < MAX_ORDER + 1
            invariant
                self.inv(),
                self@.wf(),
                o <= MAX_ORDER + 1,
                total == free_total(self@.lists, o as int),
                free_total(self@.lists, MAX_ORDER + 1) <= self@.pages,
            decreases MAX_ORDER + 1 - o,
        {
            let n: usize = self.free_lists[o].len();
            let size: usize = block_size(o);
            proof {
                assert(self@.lists[o as int].len() == n);
                lemma_free_total_mono(self@.lists, o + 1, MAX_ORDER + 1);
                lemma_free_total_mono(self@.lists, 0, o as int);
                assert(n * size >= 0) by (nonlinear_arith);
            }
            total = total + n * size;
            o += 1;
        }
        total
    }
}

proof fn lemma_free_total_mono(lists: Seq<Seq<usize>>, a: int, b: int)
    requires
        0 <= a <= b,
    ensures
        free_total(lists, a) <= free_total(lists, b),
    decreases b,
{
    if a < b {
        lemma_free_total_mono(lists, a, b - 1);
        lemma_block_pages_pos(b - 1);
        let n = lists[b - 1].len() as int;
        let k = block_pages(b - 1);
        assert(n * k >= 0) by (nonlinear_arith)
            requires
                n >= 0,
                k >= 1,
        ;
    }
}

proof fn lemma_free_total_update(lists: Seq<Seq<usize>>, o: int, l: Seq<usize>, n: int)
    requires
        0 <= o < lists.len(),
        0 <= n <= lists.len(),
    ensures
        free_total(lists.update(o, l), n) == free_total(lists, n) + (if o < n {
            (l.len() - lists[o].len()) * block_pages(o)
        } else {
            0
        }),
    decreases n,
{
    if n > 0 {
        lemma_free_total_update(lists, o, l, n - 1);
        if o == n - 1 {
            let a = l.len() as int;
            let b = lists[o].len() as int;
            let k = block_pages(o);
            assert(a * k == b * k + (a - b) * k) by (nonlinear_arith);
        }
    }
}

/// Pages of the first `i` blocks of list `l`, all of order `o`.
spec fn list_pages(l: Seq<usize>, o: int, i: int) -> Set<int> {
    Set::new(
        |p: int|
            exists|k: int| 0 <= k < i && in_block((#[trigger] l[k] as int, o), p),
    )
}

/// Pages of the free blocks of orders below `o`.
spec fn low_pages(lists: Seq<Seq<usize>>, o: int) -> Set<int> {
    Set::new(
        |p: int|
            exists|k: int, i: int|
                0 <= k < o && 0 <= i < lists[k].len() && in_block(
                    (#[trigger] lists[k][i] as int, k),
                    p,
                ),
    )
}

proof fn lemma_page_range(a: int, n: int)
    requires
        n >= 0,
    ensures
        Set::new(|p: int| a <= p < a + n).finite(),
        Set::new(|p: int| a <= p < a + n).len() == n,
    decreases n,
{
    let s = Set::new(|p: int| a <= p < a + n);
    if n == 0 {
        assert(s =~= Set::empty());
    } else {
        lemma_page_range(a, n - 1);
        assert(s =~= Set::new(|p: int| a <= p < a + (n - 1)).insert(a + n - 1));
    }
}

proof fn lemma_list_pages(s: BuddyState, o: int, i: int)
    requires
        s.wf(),
        0 <= o <= MAX_ORDER,
        0 <= i <= s.lists[o].len(),
    ensures
        list_pages(s.lists[o], o, i).finite(),
        list_pages(s.lists[o], o, i).len() == i * block_pages(o),
    decreases i,
{
    let l = s.lists[o];
    let all = s.free_blocks() + s.used_blocks() + Set::empty();
    if i == 0 {
        assert(list_pages(l, o, 0) =~= Set::empty());
    } else {
        lemma_list_pages(s, o, i - 1);
        lemma_block_pages_pos(o);
        let h = l[i - 1] as int;
        let b = Set::new(|p: int| h <= p < h + block_pages(o));
        lemma_page_range(h, block_pages(o));
        assert(list_pages(l, o, i) =~= list_pages(l, o, i - 1) + b) by {
            assert forall|p: int| list_pages(l, o, i).contains(p) implies (list_pages(l, o, i - 1)
                + b).contains(p) by {
                let k = choose|k: int| 0 <= k < i && in_block((#[trigger] l[k] as int, o), p);
                if k == i - 1 {
                    assert(b.contains(p));
                } else {
                    assert(list_pages(l, o, i - 1).contains(p));
                }
            }
            assert forall|p: int| (list_pages(l, o, i - 1) + b).contains(p) implies list_pages(
                l,
                o,
                i,
            ).contains(p) by {
                if b.contains(p) {
                    assert(in_block((l[i - 1] as int, o), p));
                } else {
                    let k = choose|k: int|
                        0 <= k < i - 1 && in_block((#[trigger] l[k] as int, o), p);
                    assert(0 <= k < i && in_block((l[k] as int, o), p));
                }
            }
        }
        assert(list_pages(l, o, i - 1).disjoint(b)) by {
            assert forall|p: int| list_pages(l, o, i - 1).contains(p) implies !b.contains(p) by {
                let k = choose|k: int| 0 <= k < i - 1 && in_block((#[trigger] l[k] as int, o), p);
                assert(distinct(l));
                assert(l[k] != l[i - 1]);
                assert(in_list(l, l[k] as int) && in_list(l, l[i - 1] as int));
                assert(s.free_blocks().contains((l[k] as int, o)));
                assert(s.free_blocks().contains((l[i - 1] as int, o)));
                assert(all.contains((l[k] as int, o)) && all.contains((l[i - 1] as int, o)));
            }
        }
        vstd::set_lib::lemma_set_disjoint_lens(list_pages(l, o, i - 1), b);
        let k = block_pages(o);
        assert(i * k == (i - 1) * k + k) by (nonlinear_arith);
    }
}

proof fn lemma_low_pages(s: BuddyState, o: int)
    requires
        s.wf(),
        0 <= o <= MAX_ORDER + 1,
    ensures
        low_pages(s.lists, o).finite(),
        low_pages(s.lists, o).len() == free_total(s.lists, o),
    decreases o,
{
    let all = s.free_blocks() + s.used_blocks() + Set::empty();
    if o == 0 {
        assert(low_pages(s.lists, 0) =~= Set::empty());
    } else {
        let k0 = o - 1;
        let l = s.lists[k0];
        lemma_low_pages(s, k0);
        lemma_list_pages(s, k0, l.len() as int);
        let a = low_pages(s.lists, k0);
        let b = list_pages(l, k0, l.len() as int);
        assert(low_pages(s.lists, o) =~= a + b) by {
            assert forall|p: int| low_pages(s.lists, o).contains(p) implies (a + b).contains(p) by {
                let (k, i) = choose|k: int, i: int|
                    0 <= k < o && 0 <= i < s.lists[k].len() && in_block(
                        (#[trigger] s.lists[k][i] as int, k),
                        p,
                    );
                if k == k0 {
                    assert(in_block((l[i] as int, k0), p));
                    assert(b.contains(p));
                } else {
                    assert(a.contains(p));
                }
            }
            assert forall|p: int| (a + b).contains(p) implies low_pages(s.lists, o).contains(p) by {
                if b.contains(p) {
                    let i = choose|i: int|
                        0 <= i < l.len() && in_block((#[trigger] l[i] as int, k0), p);
                    assert(in_block((s.lists[k0][i] as int, k0), p));
                } else {
                    let (k, i) = choose|k: int, i: int|
                        0 <= k < k0 && 0 <= i < s.lists[k].len() && in_block(
                            (#[trigger] s.lists[k][i] as int, k),
                            p,
                        );
                    assert(in_block((s.lists[k][i] as int, k), p));
                }
            }
        }
        assert(a.disjoint(b)) by {
            assert forall|p: int| a.contains(p) implies !b.contains(p) by {
                let (k, i) = choose|k: int, i: int|
                    0 <= k < k0 && 0 <= i < s.lists[k].len() && in_block(
                        (#[trigger] s.lists[k][i] as int, k),
                        p,
                    );
                if b.contains(p) {
                    let j = choose|j: int|
                        0 <= j < l.len() && in_block((#[trigger] l[j] as int, k0), p);
                    let x = (s.lists[k][i] as int, k);
                    let y = (l[j] as int, k0);
                    assert(in_list(s.lists[k], x.0) && in_list(l, y.0));
                    assert(s.free_blocks().contains(x) && s.free_blocks().contains(y));
                    assert(all.contains(x) && all.contains(y));
                }
            }
        }
        vstd::set_lib::lemma_set_disjoint_lens(a, b);
    }
}

proof fn lemma_free_total_bound(s: BuddyState, o: int)
    requires
        s.wf(),
        0 <= o <= MAX_ORDER + 1,
    ensures
        free_total(s.lists, o) <= s.pages,
{
    let all = s.free_blocks() + s.used_blocks() + Set::empty();
    lemma_low_pages(s, o);
    let region = Set::new(|p: int| 0 <= p < 0 + s.pages);
    lemma_page_range(0, s.pages);
    let a = low_pages(s.lists, o);
    assert(a.subset_of(region)) by {
        assert forall|p: int| a.contains(p) implies region.contains(p) by {
            let (k, i) = choose|k: int, i: int|
                0 <= k < o && 0 <= i < s.lists[k].len() && in_block(
                    (#[trigger] s.lists[k][i] as int, k),
                    p,
                );
            let x = (s.lists[k][i] as int, k);
            assert(in_list(s.lists[k], x.0));
            assert(s.free_blocks().contains(x));
            assert(all.contains(x));
            assert(fits(x, s.pages));
        }
    }
    vstd::set_lib::lemma_len_subset(a, region);
}

/// Law: two allocated blocks never share a byte.
pub proof fn law_no_overlap(s: BuddyState, a: int, oa: int, b: int, ob: int)
    requires
        s.wf(),
        s.allocated(a, oa),
        s.allocated(b, ob),
        a != b,
    ensures
        a + block_pages(oa) * PAGE_SIZE <= b || b + block_pages(ob) * PAGE_SIZE <= a,
{
    let x = (s.index(a), oa);
    let y = (s.index(b), ob);
    let all = s.free_blocks() + s.used_blocks() + Set::empty();
    assert(s.used_blocks().contains(x) && s.used_blocks().contains(y));
    assert(all.contains(x) && all.contains(y));
    assert(disjoint(x, y));
}

/// Law: an allocated block lies inside the region, holds no reserved page, and is aligned to its
/// own size when the region starts on a boundary of the largest block.
pub proof fn law_block_placement(s: BuddyState, a: int, o: int)
    requires
        s.wf(),
        s.allocated(a, o),
    ensures
        s.base <= a,
        a + block_pages(o) * PAGE_SIZE <= s.addr(s.pages),
        0 <= o <= MAX_ORDER,
        forall|p: int| in_block((s.index(a), o), p) ==> !#[trigger] s.reserved.contains(p),
        s.base % (MAX_BLOCK as int) == 0 ==> a % (block_pages(o) * PAGE_SIZE) == 0,
{
    let h = s.index(a);
    let x = (h, o);
    let all = s.free_blocks() + s.used_blocks() + Set::empty();
    assert(s.used_blocks().contains(x));
    assert(all.contains(x));
    assert(fits(x, s.pages));
    if s.base % (MAX_BLOCK as int) == 0 {
        let n = block_pages(o);
        let k = block_pages(MAX_ORDER - o);
        lemma_block_pages_pos(o);
        lemma_block_pages_split(o, MAX_ORDER as int);
        lemma_block_pages_values();
        vstd::arithmetic::div_mod::lemma_fundamental_div_mod(h, n);
        vstd::arithmetic::div_mod::lemma_fundamental_div_mod(s.base, MAX_BLOCK as int);
        let q = h / n;
        let r = s.base / (MAX_BLOCK as int);
        assert(a == (r * k + q) * (n * 4096)) by (nonlinear_arith)
            requires
                a == s.base + h * 4096,
                h == n * q,
                s.base == 0x100_0000 * r,
                n * k == 4096,
        ;
        vstd::arithmetic::div_mod::lemma_mod_multiples_basic(r * k + q, n * 4096);
    }
}

/// Law: a block that was given back cannot be given back again.
pub proof fn law_double_free_rejected(s: BuddyState, addr: int)
    requires
        s.wf(),
        s.can_free(addr),
    ensures
        !s.after_free(s.index(addr)).can_free(addr),
{
}

/// Law: the address of a page inside an allocated block, other than its head, is rejected.
pub proof fn law_interior_free_rejected(s: BuddyState, a: int, o: int, p: int)
    requires
        s.wf(),
        s.allocated(a, o),
        in_block((s.index(a), o), p),
        p != s.index(a),
    ensures
        !s.can_free(s.addr(p)),
{
    let h = s.index(a);
    let all = s.free_blocks() + s.used_blocks() + Set::empty();
    assert(s.index(s.addr(p)) == p);
    if s.used.dom().contains(p) {
        let x = (h, o);
        let y = (p, s.used[p]);
        assert(s.used_blocks().contains(x) && s.used_blocks().contains(y));
        assert(all.contains(x) && all.contains(y));
        assert(fits(y, s.pages));
        lemma_block_pages_pos(y.1);
        assert(disjoint(x, y));
    }
}

pub proof fn lemma_first_fit(lists: Seq<Seq<usize>>, o: int)
    requires
        0 <= o,
    ensures
        o <= first_fit(lists, o) || o > MAX_ORDER + 1,
        first_fit(lists, o) <= MAX_ORDER + 1,
        forall|k: int| o <= k < first_fit(lists, o) ==> (#[trigger] lists[k]).len() == 0,
        first_fit(lists, o) <= MAX_ORDER ==> lists[first_fit(lists, o)].len() > 0,
    decreases MAX_ORDER + 1 - o,
{
    if o <= MAX_ORDER && lists[o].len() == 0 {
        lemma_first_fit(lists, o + 1);
    }
}

proof fn lemma_join_undoes_split(s: BuddyState, h: int, from: int, k: int)
    requires
        s.wf(),
        0 <= k <= from <= MAX_ORDER,
        s.lists[from].len() > 0,
        h == s.lists[from].last(),
        forall|j: int| k <= j < from ==> (#[trigger] s.lists[j]).len() == 0,
    ensures
        join_lists(split_lists(s.lists, h, from, k), h, k) == s.lists,
    decreases from - k,
{
    let t = split_lists(s.lists, h, from, k);
    let all = s.free_blocks() + s.used_blocks() + Set::empty();
    assert(s.lists[from][s.lists[from].len() - 1] == h);
    assert(in_list(s.lists[from], h));
    assert(s.free_blocks().contains((h, from)));
    assert(all.contains((h, from)));
    assert(fits((h, from), s.pages));
    lemma_block_pages_pos(k);
    if k == from {
        assert(distinct(s.lists[from]));
        lemma_dropped(s.lists[from]);
        if k < MAX_ORDER {
            assert(!in_list(s.lists[from], buddy(h, from)));
            assert(!in_list(t[from], buddy(h, from)));
        }
        assert(t[from].push(h as usize) =~= s.lists[from]);
        assert(t.update(from, t[from].push(h as usize)) =~= s.lists);
    } else {
        lemma_block_pages_split(k + 1, from);
        lemma_block_pages_pos(from - (k + 1));
        assert(aligned(h, k + 1)) by {
            let n = block_pages(k + 1);
            let c = block_pages(from - (k + 1));
            let m = block_pages(from);
            vstd::arithmetic::div_mod::lemma_fundamental_div_mod(h, m);
            let q = h / m;
            assert(h == (c * q) * n) by (nonlinear_arith)
                requires
                    h == m * q,
                    m == n * c,
            ;
            vstd::arithmetic::div_mod::lemma_mod_multiples_basic(c * q, n);
        }
        lemma_halves(h, k);
        let u = h + block_pages(k);
        assert(block_pages(k) < block_pages(from)) by {
            lemma_block_pages_split(k, from - 1);
            lemma_block_pages_pos(from - 1);
        }
        let l = t[k];
        assert(l =~= seq![u as usize]);
        assert(l[0] == u);
        assert(in_list(l, u));
        assert(unlinked(l, u) =~= s.lists[k]);
        let t2 = split_lists(s.lists, h, from, k + 1);
        assert(t.update(k, unlinked(l, u)) =~= t2);
        lemma_join_undoes_split(s, h, from, k + 1);
    }
}

/// Law: giving a block back right after it was handed out restores the allocator, so the next
/// request of the same order gets the same block again.
pub proof fn law_free_undoes_alloc(s: BuddyState, order: int)
    requires
        s.wf(),
        0 <= order <= MAX_ORDER,
        first_fit(s.lists, order) <= MAX_ORDER,
    ensures
        s.after_alloc(order).after_free(s.lists[first_fit(s.lists, order)].last() as int) == s,
{
    let from = first_fit(s.lists, order);
    let h = s.lists[from].last() as int;
    lemma_first_fit(s.lists, order);
    let all = s.free_blocks() + s.used_blocks() + Set::empty();
    assert(s.lists[from][s.lists[from].len() - 1] == h);
    assert(in_list(s.lists[from], h));
    let b = (h, from);
    assert(s.free_blocks().contains(b));
    assert(all.contains(b));
    assert(fits(b, s.pages));
    lemma_block_pages_pos(from);
    assert(!s.used.dom().contains(h)) by {
        if s.used.dom().contains(h) {
            let c = (h, s.used[h]);
            assert(s.used_blocks().contains(c));
            assert(all.contains(c));
            assert(fits(c, s.pages));
            lemma_block_pages_pos(c.1);
            assert(c != b);
            assert(disjoint(c, b));
        }
    }
    lemma_join_undoes_split(s, h, from, order);
    assert(s.used.insert(h, order).remove(h) =~= s.used);
}

/// Law: an aligned run of pages that are all free lies in one free block. What was given back is
/// joined as far as it can be.
pub proof fn law_fully_joined(s: BuddyState, h: int, o: int) -> (b: Block)
    requires
        s.wf(),
        fits((h, o), s.pages),
        forall|p: int| #![trigger s.reserved.contains(p)] in_block((h, o), p) ==> !s.reserved.contains(p) && covered(s.free_blocks(), p),
    ensures
        s.free_blocks().contains(b),
        b.1 >= o,
        forall|p: int| in_block((h, o), p) ==> in_block(b, p),
    decreases o,
{
    let all = s.free_blocks() + s.used_blocks() + Set::empty();
    lemma_block_pages_pos(o);
    assert(in_block((h, o), h));
    assert(!s.reserved.contains(h));
    assert(covered(s.free_blocks(), h));
    if o == 0 {
        let b = choose|b: Block| #[trigger] s.free_blocks().contains(b) && in_block(b, h);
        assert(all.contains(b));
        assert(fits(b, s.pages));
        b
    } else {
        let k = o - 1;
        lemma_block_pages_pos(k);
        lemma_halves(h, k);
        let u = h + block_pages(k);
        assert(block_pages(o) == 2 * block_pages(k));
        assert forall|p: int| #![trigger s.reserved.contains(p)] in_block((h, k), p) implies !s.reserved.contains(p) && covered(s.free_blocks(), p) by {
            assert(in_block((h, o), p));
            assert(!s.reserved.contains(p));
        }
        let x = law_fully_joined(s, h, k);
        assert forall|p: int| #![trigger s.reserved.contains(p)] in_block((u, k), p) implies !s.reserved.contains(p) && covered(s.free_blocks(), p) by {
            assert(in_block((h, o), p));
            assert(!s.reserved.contains(p));
        }
        let y = law_fully_joined(s, u, k);
        assert(all.contains(x) && all.contains(y));
        assert(fits(x, s.pages) && fits(y, s.pages));
        assert(in_block((h, k), h));
        assert(in_block((u, k), u));
        assert(in_block(x, h) && in_block(y, u));
        if x.1 >= o {
            lemma_nest((h, o), x);
            x
        } else if y.1 >= o {
            lemma_nest((h, o), y);
            y
        } else {
            lemma_nest((h, k), x);
            lemma_nest((u, k), y);
            assert(x == (h, k));
            assert(y == (u, k));
            assert(in_list(s.lists[k], u));
            assert(buddy(x.0, x.1) == u);
            assert(false);
            x
        }
    }
}

proof fn lemma_split_total(lists: Seq<Seq<usize>>, h: int, from: int, to: int)
    requires
        lists.len() == MAX_ORDER + 1,
        0 <= to <= from <= MAX_ORDER,
        lists[from].len() > 0,
    ensures
        free_total(split_lists(lists, h, from, to), MAX_ORDER + 1) == free_total(
            lists,
            MAX_ORDER + 1,
        ) - block_pages(to),
    decreases from - to,
{
    let t = split_lists(lists, h, from, to);
    lemma_block_pages_pos(to);
    if to == from {
        let l = lists[from].drop_last();
        assert(t =~= lists.update(from, l));
        lemma_free_total_update(lists, from, l, MAX_ORDER + 1);
        let k = block_pages(from);
        assert((-1) * k == -k) by (nonlinear_arith);
    } else {
        let t1 = split_lists(lists, h, from, to + 1);
        lemma_split_total(lists, h, from, to + 1);
        let l = lists[to].push((h + block_pages(to)) as usize);
        assert(t =~= t1.update(to, l));
        lemma_free_total_update(t1, to, l, MAX_ORDER + 1);
        let k = block_pages(to);
        assert(1 * k == k) by (nonlinear_arith);
    }
}

pub proof fn lemma_join_total(lists: Seq<Seq<usize>>, h: int, o: int)
    requires
        lists.len() == MAX_ORDER + 1,
        0 <= o <= MAX_ORDER,
    ensures
        free_total(join_lists(lists, h, o), MAX_ORDER + 1) == free_total(lists, MAX_ORDER + 1)
            + block_pages(o),
    decreases MAX_ORDER - o,
{
    let k = block_pages(o);
    lemma_block_pages_pos(o);
    if o < MAX_ORDER && in_list(lists[o], buddy(h, o)) {
        let l = unlinked(lists[o], buddy(h, o));
        lemma_free_total_update(lists, o, l, MAX_ORDER + 1);
        assert((-1) * k == -k) by (nonlinear_arith);
        lemma_join_total(lists.update(o, l), parent(h, o), o + 1);
    } else {
        lemma_free_total_update(lists, o, lists[o].push(h as usize), MAX_ORDER + 1);
        assert(1 * k == k) by (nonlinear_arith);
    }
}

/// Law: handing out a block takes exactly its pages from the free pages.
pub proof fn law_alloc_takes_pages(s: BuddyState, order: int)
    requires
        s.wf(),
        0 <= order <= MAX_ORDER,
        first_fit(s.lists, order) <= MAX_ORDER,
    ensures
        s.after_alloc(order).free_pages() == s.free_pages() - block_pages(order),
{
    lemma_first_fit(s.lists, order);
    let from = first_fit(s.lists, order);
    lemma_split_total(s.lists, s.lists[from].last() as int, from, order);
}

impl BuddyState {
    /// Single pages were handed out since `other`, as many as are free no longer, and nothing else
    /// was done.
    #[verifier::opaque]
    pub open spec fn drawn_from(self, other: BuddyState) -> bool {
        self == other.after_pages(other.free_pages() - self.free_pages())
    }

    proof fn lemma_after_pages(self, a: int, b: int)
        requires
            0 <= a,
            0 <= b,
        ensures
            self.after_pages(a).after_pages(b) == self.after_pages(a + b),
        decreases b,
    {
        if b > 0 {
            self.lemma_after_pages(a, b - 1);
        }
    }

    pub proof fn lemma_drawn_none(self)
        ensures
            self.drawn_from(self),
    {
        reveal(BuddyState::drawn_from);
    }

    /// One page was handed out.
    pub proof fn lemma_drawn_one(self)
        requires
            self.wf(),
            first_fit(self.lists, 0) <= MAX_ORDER,
        ensures
            self.after_alloc(0).drawn_from(self),
            self.after_alloc(0) == self.after_pages(1),
    {
        reveal(BuddyState::drawn_from);
        law_alloc_takes_pages(self, 0);
        lemma_block_pages_values();
        assert(self.after_pages(0) == self);
        assert(self.after_pages(1) == self.after_alloc(0));
    }

    pub proof fn lemma_drawn_more(self, a: BuddyState, b: BuddyState)
        requires
            self.drawn_from(a),
            b.drawn_from(self),
        ensures
            b.drawn_from(a),
    {
        reveal(BuddyState::drawn_from);
        let m = a.free_pages() - self.free_pages();
        let n = self.free_pages() - b.free_pages();
        if m > 0 && n > 0 {
            a.lemma_after_pages(m, n);
        }
    }
}

/// Law: where single pages were handed out and nothing else was done, the pages that are free no
/// longer tell how many, and so the state.
pub proof fn law_drawn_pages(s: BuddyState, t: BuddyState)
    requires
        t.drawn_from(s),
    ensures
        t == s.after_pages(s.free_pages() - t.free_pages()),
{
    reveal(BuddyState::drawn_from);
}

/// Law: giving a block back adds exactly its pages to the free pages.
pub proof fn law_free_returns_pages(s: BuddyState, h: int)
    requires
        s.wf(),
        s.used.dom().contains(h),
    ensures
        s.after_free(h).free_pages() == s.free_pages() + block_pages(s.used[h]),
{
    s.lemma_unmark(h);
    lemma_join_total(s.lists, h, s.used[h]);
}

/// Some byte of the page at `page` lies in one of the first `n` ranges (address, size).
pub open spec fn page_touched(ranges: Seq<(u64, u64)>, n: int, page: int) -> bool {
    exists|i: int|
        0 <= i < n && i < ranges.len() && range_touches(#[trigger] ranges[i], page)
}

/// Some byte of the page at `page` lies in the range (address, size).
pub open spec fn range_touches(r: (u64, u64), page: int) -> bool {
    r.1 > 0 && r.0 < page + PAGE_SIZE && r.0 + r.1 > page
}

/// Page ranges, relative to `base` and cut at `count` pages, of the reserved memory.
fn reserved_ranges(params: &BoardParams, base: u64, ram_end: u64, count: usize) -> (r: Vec<
    (usize, usize),
>)
    requires
        params.wf(),
        base % PAGE_SIZE == 0,
        base < ram_end,
        count == (ram_end - base) / 4096,
        count <= MAX_PAGES,
    ensures
        forall|p: int|
            0 <= p < count ==> (#[trigger] in_ranges(r@, p) <==> page_touched(
                params@.reserved,
                params.reserved_count as int,
                base + p * PAGE_SIZE,
            )),
{
    let mut out: Vec<(usize, usize)> = Vec::new();
    let mut i: usize = 0;
    while i < params.reserved_count
        invariant
            params.wf(),
            base % PAGE_SIZE == 0,
            base < ram_end,
            count == (ram_end - base) / 4096,
            count <= MAX_PAGES,
            i <= params.reserved_count,
            params.reserved@.len() == 8,
            forall|p: int|
                0 <= p < count ==> (#[trigger] in_ranges(out@, p) <==> page_touched(
                    params@.reserved,
                    i as int,
                    base + p * PAGE_SIZE,
                )),
        decreases params.reserved_count - i,
    {
        let (r_addr, r_size): (u64, u64) = params.reserved[i];
        let ghost before = out@;
        assert(params@.reserved[i as int] == (r_addr, r_size));
        let r_end: u64 = if r_size > u64::MAX - r_addr || r_addr + r_size > ram_end {
            ram_end
        } else {
            r_addr + r_size
        };
        if r_size != 0 && r_end > base && r_addr < ram_end {
            let first: u64 = if r_addr > base {
                (r_addr - base) / PAGE_SIZE
            } else {
                0
            };
            let behind: u64 = (r_end - base - 1) / PAGE_SIZE + 1;
            if first < behind {
                let a: usize = if first < count as u64 {
                    first as usize
                } else {
                    count
                };
                let b: usize = if behind < count as u64 {
                    behind as usize
                } else {
                    count
                };
                out.push((a, b));
                proof {
                    assert forall|p: int| 0 <= p < count implies (#[trigger] in_ranges(out@, p)
                        <==> in_ranges(before, p) || range_touches(
                        (r_addr, r_size),
                        base + p * PAGE_SIZE,
                    )) by {
                        lemma_in_ranges_push(before, (a, b), p);
                    }
                }
            }
        }
        proof {
            assert forall|p: int| 0 <= p < count implies (#[trigger] in_ranges(out@, p)
                <==> page_touched(params@.reserved, i + 1, base + p * PAGE_SIZE)) by {
                let page = base + p * PAGE_SIZE;
                let l = params@.reserved;
                assert(in_ranges(out@, p) <==> in_ranges(before, p) || range_touches(
                    l[i as int],
                    page,
                ));
                if page_touched(l, i + 1, page) {
                    let k = choose|k: int|
                        0 <= k < i + 1 && k < l.len() && range_touches(#[trigger] l[k], page);
                    if k < i {
                        assert(range_touches(l[k], page));
                        assert(page_touched(l, i as int, page));
                    }
                }
                if page_touched(l, i as int, page) {
                    let k = choose|k: int|
                        0 <= k < i && k < l.len() && range_touches(#[trigger] l[k], page);
                    assert(range_touches(l[k], page));
                }
                if range_touches(l[i as int], page) {
                    assert(page_touched(l, i + 1, page));
                }
            }
        }
        i += 1;
    }
    out
}

proof fn lemma_in_ranges_push(l: Seq<(usize, usize)>, r: (usize, usize), p: int)
    ensures
        in_ranges(l.push(r), p) <==> in_ranges(l, p) || r.0 <= p < r.1,
{
    let m = l.push(r);
    if in_ranges(l, p) {
        let k = choose|k: int| 0 <= k < l.len() && #[trigger] l[k].0 <= p < l[k].1;
        assert(m[k].0 <= p < m[k].1);
    }
    if r.0 <= p < r.1 {
        assert(m[l.len() as int].0 <= p < m[l.len() as int].1);
    }
    if in_ranges(m, p) {
        let k = choose|k: int| 0 <= k < m.len() && #[trigger] m[k].0 <= p < m[k].1;
        if k < l.len() {
            assert(l[k].0 <= p < l[k].1);
        }
    }
}

/// Set up the allocator over the RAM behind `alloc_start`, up to `ram_end`.
///
/// The region starts on a boundary of the largest block, so that every block is aligned to its
/// size. Pages that touch reserved memory are never handed out.
pub fn init(params: &BoardParams, alloc_start: u64, ram_end: u64) -> (a: BuddyAllocator)
    requires
        params.wf(),
        round_up(alloc_start as int, MAX_BLOCK as int) < ram_end,
        (ram_end - round_up(alloc_start as int, MAX_BLOCK as int)) / 4096 <= MAX_PAGES,
    ensures
        a.wf(),
        a@.base == round_up(alloc_start as int, MAX_BLOCK as int),
        a@.pages == (ram_end - a@.base) / 4096,
        a@.used == Map::<int, int>::empty(),
        forall|p: int| #[trigger]
            a@.reserved.contains(p) <==> 0 <= p < a@.pages && page_touched(
                params@.reserved,
                params.reserved_count as int,
                a@.addr(p),
            ),
        forall|o: int| 0 <= o <= MAX_ORDER ==> ascending(#[trigger] a@.lists[o]),
{
    let (base, count): (u64, usize) = region(alloc_start, ram_end);
    let ranges: Vec<(usize, usize)> = reserved_ranges(params, base, ram_end, count);
    let mut a = BuddyAllocator {
        base: 0,
        real_count: 0,
        page_count: 0,
        meta: Vec::new(),
        free_lists: Vec::new(),
    };
    a.init(base, count, ranges.as_slice());
    proof {
        assert forall|p: int| #[trigger]
            a@.reserved.contains(p) <==> 0 <= p < a@.pages && page_touched(
                params@.reserved,
                params.reserved_count as int,
                a@.addr(p),
            ) by {
            assert(a@.reserved.contains(p) <==> 0 <= p < count && in_ranges(ranges@, p));
        }
    }
    a
}

/// Start and number of the pages between `alloc_start`, rounded up to a boundary of the largest
/// block, and `ram_end`.
#[verifier::spinoff_prover]
fn region(alloc_start: u64, ram_end: u64) -> (r: (u64, usize))
    requires
        round_up(alloc_start as int, MAX_BLOCK as int) < ram_end,
        (ram_end - round_up(alloc_start as int, MAX_BLOCK as int)) / 4096 <= MAX_PAGES,
    ensures
        r.0 == round_up(alloc_start as int, MAX_BLOCK as int),
        r.1 == (ram_end - r.0) / 4096,
        r.0 % PAGE_SIZE == 0,
        r.0 + r.1 * PAGE_SIZE <= ram_end,
{
    proof {
        crate::bytes::lemma_round_up(alloc_start as int, MAX_BLOCK as int);
    }
    let over: u64 = alloc_start % MAX_BLOCK;
    let base: u64 = if over == 0 {
        alloc_start
    } else {
        alloc_start - over + MAX_BLOCK
    };
    (base, ((ram_end - base) / PAGE_SIZE) as usize)
}

/// Number of pages that the allocator manages.
pub fn page_count(a: &BuddyAllocator) -> (r: usize)
    ensures
        r == a@.pages,
{
    a.real_count
}

/// Address of the first page that the allocator manages.
pub fn base(a: &BuddyAllocator) -> (r: u64)
    ensures
        r == a@.base,
{
    a.base
}

/// Hand out `2^order` pages.
pub fn alloc_pages(a: &mut BuddyAllocator, order: usize) -> (r: Option<u64>)
    requires
        old(a).wf(),
    ensures
        final(a).wf(),
        r is Some <==> order <= MAX_ORDER && first_fit(old(a)@.lists, order as int) <= MAX_ORDER,
        r is None ==> final(a)@ == old(a)@,
        r matches Some(addr) ==> {
            let h = old(a)@.lists[first_fit(old(a)@.lists, order as int)].last() as int;
            &&& addr == old(a)@.addr(h)
            &&& final(a)@ == old(a)@.after_alloc(order as int)
            &&& final(a)@.allocated(addr as int, order as int)
            &&& !old(a)@.used.dom().contains(h)
        },
{
    let r = a.alloc_block(order);
    proof {
        if r is Some {
            let h = old(a)@.lists[first_fit(old(a)@.lists, order as int)].last() as int;
            assert(a@.index(a@.addr(h)) == h);
        }
    }
    r
}

/// Give back the block at `addr`.
pub fn free_pages(a: &mut BuddyAllocator, addr: u64) -> (r: Result<(), ()>)
    requires
        old(a).wf(),
    ensures
        final(a).wf(),
        r is Ok <==> old(a)@.can_free(addr as int),
        r is Ok ==> final(a)@ == old(a)@.after_free(old(a)@.index(addr as int)),
        r is Err ==> final(a)@ == old(a)@,
{
    a.free(addr)
}

/// Whether `addr` lies in a page that the allocator manages.
pub fn page_in_range(a: &BuddyAllocator, addr: u64) -> (r: bool)
    requires
        a.wf(),
    ensures
        r == (a@.base <= addr < a@.addr(a@.pages)),
{
    let end: u64 = a.base + a.real_count as u64 * PAGE_SIZE;
    a.base <= addr && addr < end
}

/// Law: a single page can be handed out exactly while there are free pages.
pub proof fn law_page_available(s: BuddyState)
    requires
        s.wf(),
    ensures
        first_fit(s.lists, 0) <= MAX_ORDER <==> s.free_pages() > 0,
        s.free_pages() >= 0,
{
    lemma_first_fit(s.lists, 0);
    lemma_total_zero(s.lists, MAX_ORDER + 1);
    let o = first_fit(s.lists, 0);
    if o <= MAX_ORDER {
        lemma_free_total_mono(s.lists, 0, o);
        lemma_free_total_mono(s.lists, o + 1, MAX_ORDER + 1);
        lemma_block_pages_pos(o);
        let n = s.lists[o].len() as int;
        let k = block_pages(o);
        assert(n * k >= 1) by (nonlinear_arith)
            requires
                n >= 1,
                k >= 1,
        ;
    }
}

pub proof fn lemma_total_zero(lists: Seq<Seq<usize>>, o: int)
    ensures
        (forall|k: int| 0 <= k < o ==> (#[trigger] lists[k]).len() == 0) ==> free_total(lists, o)
            == 0,
        free_total(lists, o) >= 0,
    decreases o,
{
    if o > 0 {
        lemma_total_zero(lists, o - 1);
        lemma_block_pages_pos(o - 1);
        let n = lists[o - 1].len() as int;
        let k = block_pages(o - 1);
        assert(n * k >= 0 && (n == 0 ==> n * k == 0)) by (nonlinear_arith)
            requires
                n >= 0,
                k >= 1,
        ;
    }
}

/// Law: a page that is free is not allocated, and stays apart from all allocated pages.
pub proof fn law_alloc_is_new(s: BuddyState, order: int, a: int, o: int)
    requires
        s.wf(),
        0 <= order <= MAX_ORDER,
        first_fit(s.lists, order) <= MAX_ORDER,
        s.allocated(a, o),
    ensures
        a != s.addr(s.lists[first_fit(s.lists, order)].last() as int),
        s.after_alloc(order).allocated(a, o),
{
    let from = first_fit(s.lists, order);
    let h = s.lists[from].last() as int;
    lemma_first_fit(s.lists, order);
    let all = s.free_blocks() + s.used_blocks() + Set::empty();
    assert(s.lists[from][s.lists[from].len() - 1] == h);
    assert(in_list(s.lists[from], h));
    assert(s.free_blocks().contains((h, from)));
    let b = (s.index(a), o);
    assert(s.used_blocks().contains(b));
    assert(all.contains((h, from)) && all.contains(b));
    assert(fits(b, s.pages) && fits((h, from), s.pages));
    lemma_block_pages_pos(o);
    lemma_block_pages_pos(from);
    assert(b != (h, from));
    assert(disjoint(b, (h, from)));
}

/// Law: giving a block back ends its allocation and no other.
pub proof fn law_free_ends_one(s: BuddyState, addr: int, p: int, o: int)
    requires
        s.wf(),
        s.can_free(addr),
    ensures
        s.after_free(s.index(addr)).allocated(p, o) <==> s.allocated(p, o) && p != addr,
{
}

/// Law: an allocated block can be given back.
pub proof fn law_allocated_can_free(s: BuddyState, addr: int, o: int)
    requires
        s.wf(),
        s.allocated(addr, o),
        s.base % (PAGE_SIZE as int) == 0,
    ensures
        s.can_free(addr),
{
}

impl BuddyState {
    /// Address `a` lies in a page that is free: in the region, not reserved and in no allocated
    /// block.
    #[verifier::opaque]
    pub open spec fn free_page(self, a: int) -> bool {
        &&& self.base <= a < self.addr(self.pages)
        &&& !self.reserved.contains(self.index(a))
        &&& forall|p: int, o: int| #[trigger]
            self.allocated(p, o) ==> !(p <= a < p + block_pages(o) * PAGE_SIZE)
    }
}

/// Law: where more is allocated, less is free.
pub proof fn law_free_shrinks(s: BuddyState, t: BuddyState, a: int)
    requires
        s.base == t.base,
        s.pages == t.pages,
        s.reserved == t.reserved,
        forall|p: int, o: int| s.allocated(p, o) ==> #[trigger] t.allocated(p, o),
        t.free_page(a),
    ensures
        s.free_page(a),
{
    reveal(BuddyState::free_page);
    assert forall|p: int, o: int| #[trigger] s.allocated(p, o) implies !(p <= a < p + block_pages(o)
        * PAGE_SIZE) by {
        assert(t.allocated(p, o));
    }
}

/// Law: an allocated block is not free.
pub proof fn law_allocated_not_free(s: BuddyState, p: int, o: int)
    requires
        s.wf(),
        s.allocated(p, o),
    ensures
        !s.free_page(p),
{
    reveal(BuddyState::free_page);
    law_block_placement(s, p, o);
    lemma_block_pages_pos(o);
    let n = block_pages(o);
    assert(n * PAGE_SIZE >= 4096) by (nonlinear_arith)
        requires
            n >= 1,
            PAGE_SIZE == 4096,
    ;
}

/// Law: a page that is handed out was free.
pub proof fn law_alloc_was_free(s: BuddyState)
    requires
        s.wf(),
        s.after_alloc(0).wf(),
        first_fit(s.lists, 0) <= MAX_ORDER,
    ensures
        s.free_page(s.next_page()),
{
    reveal(BuddyState::free_page);
    let h = s.lists[first_fit(s.lists, 0)].last() as int;
    let pa = s.addr(h);
    let t = s.after_alloc(0);
    assert(t.index(pa) == h);
    assert(t.allocated(pa, 0));
    law_block_placement(t, pa, 0);
    lemma_block_pages_values();
    assert(in_block((h, 0), h));
    assert(!t.reserved.contains(h));
    assert forall|p: int, o: int| #[trigger] s.allocated(p, o) implies !(p <= pa < p
        + block_pages(o) * PAGE_SIZE) by {
        law_alloc_is_new(s, 0, p, o);
        law_no_overlap(t, p, o, pa, 0);
    }
}

/// Law: after a page was given back, that page is free, and else what was free before.
pub proof fn law_free_frees(s: BuddyState, pa: int, a: int)
    requires
        s.wf(),
        s.allocated(pa, 0),
        s.can_free(pa),
    ensures
        s.after_free(s.index(pa)).free_page(a) ==> s.free_page(a) || pa <= a < pa + PAGE_SIZE,
{
    reveal(BuddyState::free_page);
    lemma_block_pages_values();
    let t = s.after_free(s.index(pa));
    if t.free_page(a) && !(pa <= a < pa + PAGE_SIZE) {
        assert forall|p: int, o: int| #[trigger] s.allocated(p, o) implies !(p <= a < p
            + block_pages(o) * PAGE_SIZE) by {
            law_free_ends_one(s, pa, p, o);
            if p != pa {
                assert(t.allocated(p, o));
            } else {
                assert(o == 0);
            }
        }
    }
}

} // verus!
