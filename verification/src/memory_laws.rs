//! What the page allocator and the kernel heap are for.

use vstd::prelude::*;
use crate::heap::{
    capacity, class_of, class_size, fresh, is_alignment, lemma_capacity, lemma_order_for,
    lemma_placed, lemma_sizes, open_page, order_for, pages_for, slab_class, slot_of,
    swept, unused, HeapError, HeapView, SlabView,
};
use crate::mem::{
    first_fit, join_lists, lemma_first_fit, lemma_join_total, lemma_total_zero, page_touched,
    range_touches, BuddyState,
};
use crate::tiling::{block_pages, lemma_block_pages_pos, lemma_block_pages_values};

verus! {

/// Law: a block comes from the free blocks of the least order that is high enough; there is none
/// exactly where no such order has a free block.
pub proof fn law_least_order_is_taken(lists: Seq<Seq<usize>>, order: int)
    requires
        0 <= order <= 12,
    ensures
        ({
            let from = first_fit(lists, order);
            &&& order <= from <= 13
            &&& from <= 12 ==> lists[from].len() > 0
            &&& forall|k: int| order <= k < from ==> (#[trigger] lists[k]).len() == 0
        }),
{
    lemma_first_fit(lists, order);
}

/// Law: a block is cut in halves until it has the size that was asked for. What is handed out is its
/// start, and all that lies behind it becomes one free block of each order in between; other blocks
/// stay as they are.
pub proof fn law_block_is_halved(s: BuddyState, order: int, from: int)
    requires
        0 <= order <= from <= 12,
        s.lists.len() == 13,
        s.lists[from].len() > 0,
        forall|k: int| order <= k < from ==> (#[trigger] s.lists[k]).len() == 0,
        s.lists[from].last() + 4096 <= usize::MAX,
    ensures
        ({
            let t = s.after_alloc(order);
            let h = s.lists[from].last();
            &&& t.used == s.used.insert(h as int, order)
            &&& t.base == s.base && t.pages == s.pages && t.reserved == s.reserved
            &&& t.lists[from] == s.lists[from].drop_last()
            &&& forall|k: int|
                0 <= k <= 12 && !(order <= k <= from) ==> #[trigger] t.lists[k] == s.lists[k]
            &&& forall|k: int|
                order <= k < from ==> (#[trigger] t.lists[k]).len() == 1 && t.lists[k][0] == h
                    + block_pages(k)
        }),
        block_pages(0) == 1,
        forall|k: int| 0 <= k ==> #[trigger] block_pages(k + 1) == 2 * block_pages(k),
{
    lemma_first_fit(s.lists, order);
    let f = first_fit(s.lists, order);
    if f < from {
        assert(s.lists[f].len() == 0);
    }
    if f > from {
        assert(s.lists[from].len() == 0);
    }
    let t = s.after_alloc(order);
    lemma_block_pages_values();
    assert forall|k: int| order <= k < from implies (#[trigger] t.lists[k]).len() == 1
        && t.lists[k][0] == s.lists[from].last() + block_pages(k) by {
        assert(s.lists[k].len() == 0);
        assert(1 <= block_pages(k) <= 4096);
    }
}

/// Law: a block that was given back, and that cannot be joined with the other half of the block that
/// it was cut from, is the first of its order to be handed out again.
pub proof fn law_block_comes_again(s: BuddyState, h: int, o: int)
    requires
        s.lists.len() == 13,
        0 <= h <= usize::MAX,
        0 <= o <= 12,
        s.used.dom().contains(h),
        s.used[h] == o,
        o < 12 ==> (forall|i: int|
            0 <= i < s.lists[o].len() ==> #[trigger] s.lists[o][i] != h + block_pages(o)
                && s.lists[o][i] != h - block_pages(o)),
    ensures
        ({
            let t = s.after_free(h);
            &&& t.lists[o].last() == h
            &&& t.lists[o].drop_last() == s.lists[o]
            &&& forall|k: int| 0 <= k <= 12 && k != o ==> #[trigger] t.lists[k] == s.lists[k]
            &&& t.used == s.used.remove(h)
            &&& first_fit(t.lists, o) == o
            &&& o == 0 ==> t.next_page() == s.addr(h)
        }),
{
    let t = s.after_free(h);
    assert(t.lists[o] == s.lists[o].push(h as usize));
    assert(t.lists[o].drop_last() =~= s.lists[o]);
}

/// Law: what can be given back is the address of a block that is handed out.
pub proof fn law_blocks_can_be_freed(s: BuddyState, addr: int)
    requires
        s.base % 4096 == 0,
    ensures
        s.can_free(addr) <==> exists|o: int| #[trigger] s.allocated(addr, o),
{
    if s.can_free(addr) {
        assert(s.allocated(addr, s.used[s.index(addr)]));
    }
}

/// Law: a page is kept back exactly where one of its bytes is reserved.
pub proof fn law_reserved_bytes(ranges: Seq<(u64, u64)>, n: int, page: int)
    requires
        0 <= n <= ranges.len(),
    ensures
        page_touched(ranges, n, page) <==> exists|i: int, b: int|
            #![trigger ranges[i], byte_of(page, b)]
            0 <= i < n && byte_of(page, b) && ranges[i].0 <= b < ranges[i].0 + ranges[i].1,
{
    if page_touched(ranges, n, page) {
        let i = choose|i: int|
            0 <= i < n && i < ranges.len() && range_touches(#[trigger] ranges[i], page);
        let b = if ranges[i].0 < page {
            page
        } else {
            ranges[i].0 as int
        };
        assert(byte_of(page, b));
    }
    if exists|i: int, b: int|
        #![trigger ranges[i], byte_of(page, b)]
        0 <= i < n && byte_of(page, b) && ranges[i].0 <= b < ranges[i].0 + ranges[i].1 {
        let (i, b) = choose|i: int, b: int|
            #![trigger ranges[i], byte_of(page, b)]
            0 <= i < n && byte_of(page, b) && ranges[i].0 <= b < ranges[i].0 + ranges[i].1;
        assert(range_touches(ranges[i], page));
    }
}

/// Byte `b` lies in the page at `page`.
pub open spec fn byte_of(page: int, b: int) -> bool {
    page <= b < page + 4096
}

/// Law: an object goes to the smallest slots that hold it and whose size is a multiple of its
/// alignment; slots have 16 bytes, and twice as many from class to class, up to 2048. What does not
/// fit gets pages of its own.
pub proof fn law_smallest_slot(size: int, align: int, c: int)
    requires
        size > 0,
        0 <= c < 8,
    ensures
        class_size(0) == 16,
        c > 0 ==> class_size(c) == 2 * class_size(c - 1),
        class_size(7) == 2048,
        class_of(size) is None <==> size > 2048,
        class_of(size) == Some(c) <==> size <= class_size(c) && (c == 0 || size > class_size(c
            - 1)),
        slab_class(size, align) == Some(c) <==> class_of(size) == Some(c) && align <= class_size(c),
        slab_class(size, align) is None <==> class_of(size) is None || (
        class_of(size) matches Some(d) && align > class_size(d)),
{
    lemma_sizes();
}

/// Law: a new page is cut into slots that fill it, but for the place of the first, which is left
/// out; the lowest slot is handed out first.
pub proof fn law_page_is_cut(c: int, page: u64)
    requires
        0 <= c < 8,
        page + 4096 <= u64::MAX,
    ensures
        ({
            let s = fresh(c, page);
            let z = class_size(c);
            let n = s.free.len();
            &&& s.page == page
            &&& n == capacity(c)
            &&& (n + 1) * z == 4096
            &&& s.free.last() == page + z
            &&& s.free[0] + z == page + 4096
            &&& forall|k: int| 0 < k < n ==> s.free[k - 1] == #[trigger] s.free[k] + z
        }),
{
    lemma_capacity(c);
    let s = fresh(c, page);
    let z = class_size(c);
    let n = capacity(c);
    assert forall|k: int| 0 <= k < n implies #[trigger] s.free[k] == page + (n - k) * z by {
        assert(0 <= (n - k) * z <= 4096) by (nonlinear_arith)
            requires
                0 <= k < n,
                (n + 1) * z == 4096,
                z > 0,
        ;
    }
    assert((n - (n - 1)) * z == z) by (nonlinear_arith);
    assert((n - 0) * z == (n + 1) * z - z) by (nonlinear_arith);
    assert(s.free[n - 1] == page + (n - (n - 1)) * z);
    assert forall|k: int| 0 < k < n implies s.free[k - 1] == #[trigger] s.free[k] + z by {
        assert((n - (k - 1)) * z == (n - k) * z + z) by (nonlinear_arith);
        assert(s.free[k - 1] == page + (n - (k - 1)) * z);
    }
}

/// Law: an object of no bytes takes nothing and is given back without more.
pub proof fn law_nothing_is_free(h: HeapView, f: BuddyState, align: u64, p: u64)
    ensures
        h.allocated(f, 0, align) == (h, f, Ok::<u64, HeapError>(align)),
        h.given_back(f, p, 0) == (h, f, Ok::<(), HeapError>(())),
{
}

/// The page nearest to the front that has a free slot.
proof fn lemma_open_page(pages: Seq<SlabView>, n: int)
    requires
        0 <= n <= pages.len(),
    ensures
        -1 <= open_page(pages, n) < n,
        open_page(pages, n) >= 0 ==> pages[open_page(pages, n)].free.len() > 0,
        forall|j: int|
            open_page(pages, n) < j < n ==> (#[trigger] pages[j]).free.len() == 0,
    decreases n,
{
    if n > 0 && pages[n - 1].free.len() == 0 {
        lemma_open_page(pages, n - 1);
    }
}

/// Law: a small object gets the next slot of the page nearest to the front of its class that has
/// one. No page is taken, and no other page of slots changes.
pub proof fn law_slot_is_used(h: HeapView, f: BuddyState, size: int, align: u64, c: int, i: int)
    requires
        h.classes.len() == 8,
        size > 0,
        slab_class(size, align as int) == Some(c),
        0 <= c < 8,
        0 <= i < h.classes[c].len(),
        h.classes[c][i].free.len() > 0,
        forall|j: int| i < j < h.classes[c].len() ==> (#[trigger] h.classes[c][j]).free.len() == 0,
    ensures
        ({
            let (w, g, r) = h.allocated(f, size, align);
            &&& r == Ok::<u64, HeapError>(h.classes[c][i].free.last())
            &&& g == f
            &&& w.large == h.large
            &&& w.classes.len() == 8
            &&& w.classes[c].len() == h.classes[c].len()
            &&& w.classes[c][i].page == h.classes[c][i].page
            &&& w.classes[c][i].free == h.classes[c][i].free.drop_last()
            &&& forall|j: int|
                0 <= j < h.classes[c].len() && j != i ==> #[trigger] w.classes[c][j]
                    == h.classes[c][j]
            &&& forall|d: int| 0 <= d < 8 && d != c ==> #[trigger] w.classes[d] == h.classes[d]
        }),
{
    lemma_open_page(h.classes[c], h.classes[c].len() as int);
    let k = open_page(h.classes[c], h.classes[c].len() as int);
    if k < i {
        assert(h.classes[c][i].free.len() == 0);
    }
    if k > i {
        assert(h.classes[c][k].free.len() == 0);
    }
}

/// Law: a slot that was given back is the next to be handed out, where its page is the one that
/// slots are taken from.
pub proof fn law_slot_comes_again(h: HeapView, f: BuddyState, p: u64, size: int, c: int, i: int)
    requires
        h.classes.len() == 8,
        size > 0,
        f.base <= p - p % 4096 < f.addr(f.pages),
        h.slab_at(p - p % 4096, 0) == Some((c, i)),
        slot_of(c, p - p % 4096, p as int),
        forall|j: int| i < j < h.classes[c].len() ==> (#[trigger] h.classes[c][j]).free.len() == 0,
    ensures
        ({
            let (w, g, r) = h.given_back(f, p, size);
            let (v, k, q) = w.slab_alloc(g, c);
            &&& r == Ok::<(), HeapError>(())
            &&& q == Ok::<u64, HeapError>(p)
            &&& g == f && k == f
            &&& v == h
        }),
{
    h.lemma_slab_at(p - p % 4096, 0);
    let (w, g, r) = h.given_back(f, p, size);
    lemma_open_page(w.classes[c], w.classes[c].len() as int);
    let k = open_page(w.classes[c], w.classes[c].len() as int);
    if k < i {
        assert(w.classes[c][i].free.len() == 0);
    }
    if k > i {
        assert(w.classes[c][k] == h.classes[c][k]);
    }
    let v = w.slab_alloc(g, c).0;
    assert(v.classes[c][i].free =~= h.classes[c][i].free);
    assert(v.classes[c] =~= h.classes[c]);
    assert(v.classes =~= h.classes);
}

/// Law: what was not handed out cannot be given back, and the attempt changes nothing.
pub proof fn law_unknown_is_refused(h: HeapView, f: BuddyState, p: u64, size: int)
    requires
        h.wf(f),
        size > 0,
        !h.is_free_slot(p),
        forall|hi: int| !#[trigger] h.owns(f, p as int, hi),
    ensures
        h.given_back(f, p, size) == (h, f, Err::<(), HeapError>(HeapError::InvalidPointer)),
{
    let page = p - p % 4096;
    h.lemma_slab_at(page, 0);
    h.lemma_large_at(p, 0);
    match h.slab_at(page, 0) {
        Some((c, i)) => {
            if slot_of(c, page, p as int) {
                assert(h.slot_live(c, i, p as int));
                assert(h.owns(f, p as int, p + class_size(c)));
            }
        },
        None => {
            let k = h.large_at(p, 0);
            if k < h.large.len() {
                assert(crate::heap::large_ok(f, h.large[k]));
                let e = h.large[k];
                let o = choose|o: int| #[trigger]
                    f.allocated(e.1 as int, o) && e.1 + 8 <= e.0 < e.1 + block_pages(o) * 4096;
                assert(h.large_live(f, k, o, p as int));
                assert(h.owns(f, p as int, h.large[k].1 + block_pages(o) * 4096));
            }
        },
    }
}

/// Law: an object that no slot holds gets the smallest block that has room for it, for the note in
/// front of it and for its alignment. It is too large where that is more than 16 MiB, and there is no
/// memory where no free block is large enough. It is put at the first place of the block that is
/// aligned and leaves room for the note, and the block is noted.
pub proof fn law_large_object(h: HeapView, f: BuddyState, size: int, align: u64)
    requires
        f.base >= 0,
        size > 0,
        is_alignment(align as int),
        slab_class(size, align as int) is None,
    ensures
        ({
            let (w, g, r) = h.allocated(f, size, align);
            let room = size + 8 + align - 1;
            let o = order_for((room + 4095) / 4096, 0);
            let start = f.addr(f.lists[first_fit(f.lists, o)].last() as int);
            &&& r == Err::<u64, HeapError>(HeapError::TooLarge) <==> room > 0x100_0000
            &&& r is Err ==> w == h && g == f
            &&& room <= 0x100_0000 ==> {
                &&& 0 <= o <= 12
                &&& room <= block_pages(o) * 4096
                &&& o > 0 ==> room > block_pages(o - 1) * 4096
                &&& r is Ok <==> exists|k: int| o <= k <= 12 && (#[trigger] f.lists[k]).len() > 0
                &&& r is Err ==> r == Err::<u64, HeapError>(HeapError::OutOfMemory)
            }
            &&& r matches Ok(p) ==> {
                let (q, block) = w.large.last();
                &&& w.classes == h.classes
                &&& w.large.drop_last() == h.large
                &&& g == f.after_alloc(o)
                &&& start + block_pages(o) * 4096 <= u64::MAX ==> {
                    &&& block == start
                    &&& q == p
                    &&& p as int % align as int == 0
                    &&& start + 8 <= p < start + 8 + align
                    &&& p + size <= start + block_pages(o) * 4096
                }
            }
        }),
{
    let (w, g, r) = h.allocated(f, size, align);
    let room = size + 8 + align - 1;
    let n = pages_for(size, align as int);
    let o = order_for(n, 0);
    let from = first_fit(f.lists, o);
    let j = choose|j: int| 0 <= j < 64 && align as int == #[trigger] block_pages(j);
    lemma_block_pages_pos(j);
    lemma_block_pages_values();
    lemma_order_for(n, 0);
    assert(n == (room + 4095) / 4096);
    if o > 12 {
        assert(n > block_pages(12));
    }
    if room <= 0x100_0000 {
        assert(n <= 4096);
        assert(o <= 12) by {
            if o > 12 {
                assert(n > block_pages(12));
            }
        }
        if o > 0 {
            assert(n > block_pages(o - 1));
        }
        lemma_first_fit(f.lists, o);
        if exists|k: int| o <= k <= 12 && (#[trigger] f.lists[k]).len() > 0 {
            let k = choose|k: int| o <= k <= 12 && (#[trigger] f.lists[k]).len() > 0;
            assert(from <= k);
        }
        if from <= 12 {
            assert(f.lists[from].len() > 0);
        }
    } else if o <= 12 {
        assert(block_pages(o) <= 4096);
        assert(n > 4096);
    }
    if r is Ok {
        assert(w.large.drop_last() =~= h.large);
        let b = f.addr(f.lists[from].last() as int);
        lemma_placed(b, size, align as int, o);
        lemma_first_aligned(b + 8, align as int);
    }
}

/// Rounding up gives the first multiple.
proof fn lemma_first_aligned(x: int, a: int)
    requires
        x >= 0,
        a > 0,
    ensures
        x <= (x + a - 1) / a * a < x + a,
{
    let q = (x + a - 1) / a;
    assert(q * a <= x + a - 1 < q * a + a) by (nonlinear_arith)
        requires
            q == (x + a - 1) / a,
            a > 0,
            x >= 0,
    ;
}

/// Law: pages of a class that hold no object go back, but for those that are to be kept; the others
/// stay, in their order.
pub proof fn law_sweep_keeps_objects(c: int, pages: Seq<SlabView>, f: BuddyState, i: int)
    requires
        -1 <= i < pages.len(),
    ensures
        swept(c, pages, f, i).0 == pages.take(i + 1).filter(
            |s: SlabView| s.free.len() != capacity(c),
        ) + pages.skip(i + 1),
    decreases i + 1,
{
    let keep = |s: SlabView| s.free.len() != capacity(c);
    reveal(Seq::filter);
    if i < 0 {
        assert(pages.take(0).filter(keep) =~= Seq::<SlabView>::empty());
        assert(pages.skip(0) =~= pages);
    } else {
        assert(pages.take(i + 1).drop_last() =~= pages.take(i));
        if unused(c, pages[i]) {
            let rest = pages.remove(i);
            law_sweep_keeps_objects(c, rest, f.after_free(f.index(pages[i].page as int)), i - 1);
            assert(rest.take(i) =~= pages.take(i));
            assert(rest.skip(i) =~= pages.skip(i + 1));
        } else {
            law_sweep_keeps_objects(c, pages, f, i - 1);
            assert(pages.take(i).filter(keep).push(pages[i]) + pages.skip(i + 1) =~= pages.take(
                i,
            ).filter(keep) + pages.skip(i));
        }
    }
}

/// The pages of a list that go back when memory is short: those without objects, but for the front.
pub open spec fn idle(h: HeapView, c: int, j: int) -> bool {
    0 <= j < h.classes[c].len() - 1 && h.classes[c][j].free.len() == capacity(c)
}

/// Law: when memory is short, each class keeps the pages that hold objects, in their order, and the
/// page at its front; large objects stay.
pub proof fn law_sweep_keeps_fronts(h: HeapView, f: BuddyState, c: int, d: int)
    requires
        0 <= c <= 8,
        0 <= d < 8,
        h.classes.len() == 8,
    ensures
        ({
            let w = h.swept_from(f, c).0;
            let n = h.classes[d].len() as int;
            &&& w.large == h.large
            &&& w.classes.len() == 8
            &&& d < c || n == 0 ==> w.classes[d] == h.classes[d]
            &&& d >= c && n > 0 ==> w.classes[d] == h.classes[d].drop_last().filter(
                |s: SlabView| s.free.len() != capacity(d),
            ).push(h.classes[d].last())
        }),
    decreases 8 - c,
{
    if c < 8 {
        let pages = h.classes[c];
        let n = pages.len() as int;
        let (kept, g) = swept(c, pages, f, n - 2);
        let v = h.with_class(c, kept);
        law_sweep_keeps_fronts(v, g, c + 1, d);
        if d == c && n > 0 {
            law_sweep_keeps_objects(c, pages, f, n - 2);
            let keep = |s: SlabView| s.free.len() != capacity(c);
            assert(pages.take(n - 1) =~= pages.drop_last());
            assert(pages.drop_last().filter(keep) + pages.skip(n - 1)
                =~= pages.drop_last().filter(keep).push(pages.last()));
            let same = |s: SlabView| s.free.len() != capacity(d);
            assert(keep =~= same);
        }
    }
}

/// Giving back keeps the number of lists.
proof fn lemma_join_len(lists: Seq<Seq<usize>>, h: int, o: int)
    requires
        lists.len() == 13,
        0 <= o <= 12,
    ensures
        join_lists(lists, h, o).len() == lists.len(),
    decreases 12 - o,
{
    if o < 12 && crate::mem::in_list(lists[o], crate::tiling::buddy(h, o)) {
        lemma_join_len(
            lists.update(o, crate::mem::unlinked(lists[o], crate::tiling::buddy(h, o))),
            crate::tiling::parent(h, o),
            o + 1,
        );
    }
}

/// Pages that go back become free.
proof fn lemma_swept_free(c: int, pages: Seq<SlabView>, f: BuddyState, i: int)
    requires
        -1 <= i < pages.len(),
        f.lists.len() == 13,
        forall|j: int| 0 <= j <= i ==> f.allocated((#[trigger] pages[j]).page as int, 0),
        forall|j: int, k: int|
            #![trigger pages[j], pages[k]]
            0 <= j < k <= i ==> pages[j].page != pages[k].page,
    ensures
        ({
            let g = swept(c, pages, f, i).1;
            &&& g.lists.len() == 13
            &&& g.free_pages() >= f.free_pages()
            &&& g.free_pages() > f.free_pages() <==> exists|j: int|
                0 <= j <= i && (#[trigger] pages[j]).free.len() == capacity(c)
            &&& forall|p: int, o: int|
                #![trigger g.allocated(p, o)]
                f.allocated(p, o) && (forall|j: int|
                    0 <= j <= i ==> (#[trigger] pages[j]).page != p) ==> g.allocated(p, o)
        }),
    decreases i + 1,
{
    if i >= 0 {
        if unused(c, pages[i]) {
            let h = f.index(pages[i].page as int);
            let t = f.after_free(h);
            let rest = pages.remove(i);
            assert(f.allocated(pages[i].page as int, 0));
            lemma_join_total(f.lists, h, 0);
            lemma_join_len(f.lists, h, 0);
            lemma_block_pages_values();
            assert forall|j: int| 0 <= j <= i - 1 implies t.allocated(
                (#[trigger] rest[j]).page as int,
                0,
            ) by {
                assert(rest[j] == pages[j]);
                assert(f.allocated(pages[j].page as int, 0));
                assert(pages[j].page != pages[i].page);
            }
            assert forall|j: int, k: int|
                #![trigger rest[j], rest[k]]
                0 <= j < k <= i - 1 implies rest[j].page != rest[k].page by {
                assert(rest[j] == pages[j] && rest[k] == pages[k]);
            }
            lemma_swept_free(c, rest, t, i - 1);
            let g = swept(c, pages, f, i).1;
            assert forall|p: int, o: int|
                #![trigger g.allocated(p, o)]
                f.allocated(p, o) && (forall|j: int|
                    0 <= j <= i ==> (#[trigger] pages[j]).page != p) implies g.allocated(p, o) by {
                assert(pages[i].page != p);
                assert(t.allocated(p, o));
                assert forall|j: int| 0 <= j <= i - 1 implies (#[trigger] rest[j]).page != p by {
                    assert(rest[j] == pages[j]);
                }
            }
        } else {
            lemma_swept_free(c, pages, f, i - 1);
            let g = swept(c, pages, f, i).1;
            if exists|j: int| 0 <= j <= i && (#[trigger] pages[j]).free.len() == capacity(c) {
                let j = choose|j: int|
                    0 <= j <= i && (#[trigger] pages[j]).free.len() == capacity(c);
                assert(j <= i - 1);
            }
        }
    }
}

/// The pages of the classes from `c` on are allocated, and no two are the same.
spec fn apart(h: HeapView, f: BuddyState, c: int) -> bool {
    &&& h.classes.len() == 8
    &&& f.lists.len() == 13
    &&& forall|d: int, j: int|
        #![trigger h.classes[d][j]]
        c <= d < 8 && 0 <= j < h.classes[d].len() ==> f.allocated(h.classes[d][j].page as int, 0)
    &&& forall|d: int, j: int, e: int, k: int|
        #![trigger h.classes[d][j], h.classes[e][k]]
        c <= d < 8 && 0 <= j < h.classes[d].len() && c <= e < 8 && 0 <= k < h.classes[e].len()
            && h.classes[d][j].page == h.classes[e][k].page ==> d == e && j == k
}

/// What sweeping all classes frees.
proof fn lemma_swept_from_free(h: HeapView, f: BuddyState, c: int)
    requires
        0 <= c <= 8,
        apart(h, f, c),
    ensures
        ({
            let g = h.swept_from(f, c).1;
            &&& g.lists.len() == 13
            &&& g.free_pages() >= f.free_pages()
            &&& g.free_pages() > f.free_pages() <==> exists|d: int, j: int|
                c <= d < 8 && #[trigger] idle(h, d, j)
        }),
    decreases 8 - c,
{
    if c < 8 {
        let pages = h.classes[c];
        let n = pages.len() as int;
        let (kept, g) = swept(c, pages, f, n - 2);
        let v = h.with_class(c, kept);
        assert forall|j: int| 0 <= j <= n - 2 implies f.allocated(
            (#[trigger] pages[j]).page as int,
            0,
        ) by {
            assert(h.classes[c][j] == pages[j]);
        }
        assert forall|j: int, k: int|
            #![trigger pages[j], pages[k]]
            0 <= j < k <= n - 2 implies pages[j].page != pages[k].page by {
            assert(h.classes[c][j] == pages[j] && h.classes[c][k] == pages[k]);
        }
        if n >= 1 {
            lemma_swept_free(c, pages, f, n - 2);
        }
        assert(apart(v, g, c + 1)) by {
            assert forall|d: int, j: int|
                #![trigger v.classes[d][j]]
                c + 1 <= d < 8 && 0 <= j < v.classes[d].len() implies g.allocated(
                v.classes[d][j].page as int,
                0,
            ) by {
                assert(v.classes[d] == h.classes[d]);
                let p = h.classes[d][j].page as int;
                assert(f.allocated(p, 0));
                assert forall|k: int| 0 <= k <= n - 2 implies (#[trigger] pages[k]).page != p by {
                    assert(h.classes[c][k] == pages[k]);
                }
            }
            assert forall|d: int, j: int, e: int, k: int|
                #![trigger v.classes[d][j], v.classes[e][k]]
                c + 1 <= d < 8 && 0 <= j < v.classes[d].len() && c + 1 <= e < 8 && 0 <= k
                    < v.classes[e].len() && v.classes[d][j].page == v.classes[e][k].page implies d
                == e && j == k by {
                assert(v.classes[d][j] == h.classes[d][j] && v.classes[e][k] == h.classes[e][k]);
            }
        }
        lemma_swept_from_free(v, g, c + 1);
        let r = v.swept_from(g, c + 1).1;
        if exists|d: int, j: int| c <= d < 8 && #[trigger] idle(h, d, j) {
            let (d, j) = choose|d: int, j: int| c <= d < 8 && #[trigger] idle(h, d, j);
            if d == c {
                assert(pages[j].free.len() == capacity(c));
            } else {
                assert(idle(v, d, j));
            }
        }
        if g.free_pages() > f.free_pages() {
            let j = choose|j: int|
                0 <= j <= n - 2 && (#[trigger] pages[j]).free.len() == capacity(c);
            assert(idle(h, c, j));
        }
        if r.free_pages() > g.free_pages() {
            let (d, j) = choose|d: int, j: int| c + 1 <= d < 8 && #[trigger] idle(v, d, j);
            assert(idle(h, d, j));
        }
    }
}

/// Some list has a block exactly where some page is free.
proof fn lemma_any_free(f: BuddyState)
    ensures
        first_fit(f.lists, 0) <= 12 <==> f.free_pages() > 0,
{
    lemma_first_fit(f.lists, 0);
    lemma_total_zero(f.lists, 13);
    let o = first_fit(f.lists, 0);
    if o <= 12 {
        lemma_total_pos(f.lists, 13, o);
    } else {
        assert forall|k: int| 0 <= k < 13 implies (#[trigger] f.lists[k]).len() == 0 by {}
    }
}

proof fn lemma_total_pos(lists: Seq<Seq<usize>>, n: int, o: int)
    requires
        0 <= o < n,
        lists[o].len() > 0,
    ensures
        crate::mem::free_total(lists, n) > 0,
    decreases n,
{
    let a = lists[n - 1].len() as int;
    let b = block_pages(n - 1);
    lemma_block_pages_pos(n - 1);
    lemma_total_zero(lists, n - 1);
    assert(a * b >= 0 && (a > 0 ==> a * b > 0)) by (nonlinear_arith)
        requires
            a >= 0,
            b >= 1,
    ;
    if o < n - 1 {
        lemma_total_pos(lists, n - 1, o);
    }
}

/// Law: there is no memory for a small object exactly where no page of its class has a free slot, no
/// page is free, and no page of any class goes back.
pub proof fn law_no_memory_is_wasted(h: HeapView, f: BuddyState, size: int, align: u64, c: int)
    requires
        h.wf(f),
        f.lists.len() == 13,
        size > 0,
        0 <= c < 8,
        slab_class(size, align as int) == Some(c),
    ensures
        ({
            let r = h.allocated(f, size, align).2;
            &&& r is Err <==> {
                &&& forall|i: int|
                    0 <= i < h.classes[c].len() ==> (#[trigger] h.classes[c][i]).free.len() == 0
                &&& f.free_pages() <= 0
                &&& forall|d: int, j: int| 0 <= d < 8 ==> !#[trigger] idle(h, d, j)
            }
            &&& r is Err ==> r == Err::<u64, HeapError>(HeapError::OutOfMemory)
        }),
{
    let n = h.classes[c].len() as int;
    lemma_open_page(h.classes[c], n);
    let i = open_page(h.classes[c], n);
    if i >= 0 {
        assert(h.classes[c][i].free.len() > 0);
    } else {
        let g = h.swept_from(f, 0).1;
        assert(apart(h, f, 0)) by {
            assert forall|d: int, j: int|
                #![trigger h.classes[d][j]]
                0 <= d < 8 && 0 <= j < h.classes[d].len() implies f.allocated(
                h.classes[d][j].page as int,
                0,
            ) by {
                assert(crate::heap::slab_ok(f, d, h.classes[d][j]));
            }
        }
        lemma_swept_from_free(h, f, 0);
        lemma_any_free(g);
        lemma_total_zero(f.lists, 13);
    }
}

} // verus!
