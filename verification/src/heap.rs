//! The kernel heap.
//!
//! Small objects come from pages that are cut into slots of one size. Each size has a list of such
//! pages; a slot comes from the first page of the list that has one to spare, and goes back to the
//! page that it came from. Large objects get whole blocks of pages. Pages that hold no object any
//! more go back before a new page is taken, but for the first page of each list.

use vstd::prelude::*;
use crate::mem::{
    alloc_pages, base, first_fit, free_pages, law_alloc_is_new, law_allocated_can_free,
    law_block_placement, law_free_ends_one, law_no_overlap, BuddyAllocator, BuddyState,
    PAGE_SIZE,
};
use crate::tiling::{block_pages, lemma_block_pages_pos, lemma_block_pages_values, MAX_ORDER};

verus! {

/// Sizes of slots.
pub const CLASSES: usize = 8;

/// Bytes in front of a large object, where its block is noted.
pub const NOTE: u64 = 8;

/// Why there is no object.
#[derive(Debug, Clone, Copy, PartialEq, Eq, Structural)]
pub enum HeapError {
    /// Larger than any block.
    TooLarge,
    OutOfMemory,
    /// Not the address of an object.
    InvalidPointer,
}

/// Size of the slots of a class: 16 bytes to 2 KiB.
pub open spec fn class_size(c: int) -> int {
    16 * block_pages(c)
}

/// Slots of a page. The first slot's worth of the page is not handed out.
pub open spec fn capacity(c: int) -> int {
    (4096 - class_size(c)) / class_size(c)
}

/// The class with the smallest slots that are large enough.
pub open spec fn class_of(size: int) -> Option<int> {
    if size <= 16 {
        Some(0)
    } else if size <= 32 {
        Some(1)
    } else if size <= 64 {
        Some(2)
    } else if size <= 128 {
        Some(3)
    } else if size <= 256 {
        Some(4)
    } else if size <= 512 {
        Some(5)
    } else if size <= 1024 {
        Some(6)
    } else if size <= 2048 {
        Some(7)
    } else {
        None
    }
}

/// The class that an object goes to: its slots are large enough, and aligned well enough.
pub open spec fn slab_class(size: int, align: int) -> Option<int> {
    match class_of(size) {
        Some(c) => if align <= class_size(c) {
            Some(c)
        } else {
            None
        },
        None => None,
    }
}

/// A page that is cut into slots: those that are free, the next one to hand out last.
#[verifier::ext_equal]
pub struct SlabView {
    pub page: u64,
    pub free: Seq<u64>,
}

/// The heap: the pages of each class, the first of the list last, and the large objects with
/// their blocks.
#[verifier::ext_equal]
pub struct HeapView {
    pub classes: Seq<Seq<SlabView>>,
    pub large: Seq<(u64, u64)>,
}

/// `s` is the address of a slot of a page.
pub open spec fn slot_of(c: int, page: int, s: int) -> bool {
    &&& page + class_size(c) <= s
    &&& s + class_size(c) <= page + 4096
    &&& (s - page) % class_size(c) == 0
}

/// `s` is the address of a slot of some page.
pub open spec fn is_slot(c: int, s: int) -> bool {
    exists|page: int| page % 4096 == 0 && #[trigger] slot_of(c, page, s)
}

/// A page with all its slots free, the lowest to be handed out first.
pub open spec fn fresh(c: int, page: u64) -> SlabView {
    SlabView {
        page,
        free: Seq::new(
            capacity(c) as nat,
            |k: int| (page + (capacity(c) - k) * class_size(c)) as u64,
        ),
    }
}

/// A page without objects.
pub open spec fn unused(c: int, s: SlabView) -> bool {
    s.free.len() == capacity(c)
}

/// Position of the first page of a list, before position `n`, that has a free slot; -1 when there
/// is none.
pub open spec fn open_page(pages: Seq<SlabView>, n: int) -> int
    decreases n,
{
    if n <= 0 {
        -1
    } else if pages[n - 1].free.len() > 0 {
        n - 1
    } else {
        open_page(pages, n - 1)
    }
}

/// A list without the pages up to position `i` that hold no object, which go back.
pub open spec fn swept(c: int, pages: Seq<SlabView>, f: BuddyState, i: int) -> (
    Seq<SlabView>,
    BuddyState,
)
    decreases i + 1,
{
    if i < 0 {
        (pages, f)
    } else if unused(c, pages[i]) {
        swept(c, pages.remove(i), f.after_free(f.index(pages[i].page as int)), i - 1)
    } else {
        swept(c, pages, f, i - 1)
    }
}

impl HeapView {
    /// With another list for a class.
    pub open spec fn with_class(self, c: int, pages: Seq<SlabView>) -> HeapView {
        HeapView { classes: self.classes.update(c, pages), ..self }
    }

    /// All lists, from class `c` on, without pages that hold no object; each keeps its first
    /// page.
    pub open spec fn swept_from(self, f: BuddyState, c: int) -> (HeapView, BuddyState)
        decreases CLASSES - c,
    {
        if c >= CLASSES {
            (self, f)
        } else {
            let (pages, g) = swept(c, self.classes[c], f, self.classes[c].len() - 2);
            self.with_class(c, pages).swept_from(g, c + 1)
        }
    }

    /// A slot is taken from page `i` of a class.
    pub open spec fn taken(self, c: int, i: int) -> (HeapView, u64) {
        let s = self.classes[c][i];
        (
            self.with_class(
                c,
                self.classes[c].update(i, SlabView { free: s.free.drop_last(), ..s }),
            ),
            s.free.last(),
        )
    }

    /// A new page is put in front of a list.
    pub open spec fn grown(self, c: int, page: u64) -> HeapView {
        self.with_class(c, self.classes[c].push(fresh(c, page)))
    }

    /// A slot of a class is handed out.
    pub open spec fn slab_alloc(self, f: BuddyState, c: int) -> (
        HeapView,
        BuddyState,
        Result<u64, HeapError>,
    ) {
        let i = open_page(self.classes[c], self.classes[c].len() as int);
        if i >= 0 {
            (self.taken(c, i).0, f, Ok(self.taken(c, i).1))
        } else {
            let (h, g) = self.swept_from(f, 0);
            if first_fit(g.lists, 0) > MAX_ORDER {
                (h, g, Err(HeapError::OutOfMemory))
            } else {
                let page = g.addr(g.lists[first_fit(g.lists, 0)].last() as int) as u64;
                let z = h.grown(c, page);
                let n = h.classes[c].len() as int;
                (z.taken(c, n).0, g.after_alloc(0), Ok(z.taken(c, n).1))
            }
        }
    }
}

/// Smallest order whose blocks have `n` pages; one more than the largest when there is none.
pub open spec fn order_for(n: int, o: int) -> int
    decreases MAX_ORDER + 1 - o,
{
    if o > MAX_ORDER || n <= block_pages(o) {
        o
    } else {
        order_for(n, o + 1)
    }
}

/// Address of a large object in a block: the first that is aligned, behind the note.
pub open spec fn placed_at(block: int, align: int) -> int {
    (block + NOTE + align - 1) / align * align
}

/// Pages that a large object needs, with its note and with room to align it.
pub open spec fn pages_for(size: int, align: int) -> int {
    (size + NOTE + align - 1 + 4095) / 4096
}

impl HeapView {
    /// A large object is handed out.
    pub open spec fn page_alloc(self, f: BuddyState, size: int, align: int) -> (
        HeapView,
        BuddyState,
        Result<u64, HeapError>,
    ) {
        let o = order_for(pages_for(size, align), 0);
        if size + NOTE + align - 1 > u64::MAX || o > MAX_ORDER {
            (self, f, Err(HeapError::TooLarge))
        } else if first_fit(f.lists, o) > MAX_ORDER {
            (self, f, Err(HeapError::OutOfMemory))
        } else {
            let block = f.addr(f.lists[first_fit(f.lists, o)].last() as int) as u64;
            let p = placed_at(block as int, align) as u64;
            (
                HeapView { large: self.large.push((p, block)), ..self },
                f.after_alloc(o),
                Ok(p),
            )
        }
    }

    /// An object is handed out. An object of no bytes is an address and nothing more.
    pub open spec fn allocated(self, f: BuddyState, size: int, align: u64) -> (
        HeapView,
        BuddyState,
        Result<u64, HeapError>,
    ) {
        if size == 0 {
            (self, f, Ok(align))
        } else {
            match slab_class(size, align as int) {
                Some(c) => self.slab_alloc(f, c),
                None => self.page_alloc(f, size, align as int),
            }
        }
    }


    /// Consistent: the pages of the lists and the blocks of large objects are allocated, and no
    /// two of them are the same; free slots are slots, each once.
    pub open spec fn wf(self, f: BuddyState) -> bool {
        &&& self.classes.len() == CLASSES
        &&& forall|c: int, i: int|
            #![trigger self.classes[c][i]]
            0 <= c < CLASSES && 0 <= i < self.classes[c].len() ==> slab_ok(
                f,
                c,
                self.classes[c][i],
            )
        &&& forall|c: int, i: int, d: int, j: int|
            #![trigger self.classes[c][i], self.classes[d][j]]
            0 <= c < CLASSES && 0 <= i < self.classes[c].len() && 0 <= d < CLASSES && 0 <= j
                < self.classes[d].len() && self.classes[c][i].page == self.classes[d][j].page
                ==> c == d && i == j
        &&& forall|k: int| 0 <= k < self.large.len() ==> large_ok(f, #[trigger] self.large[k])
        &&& forall|k: int, j: int|
            #![trigger self.large[k], self.large[j]]
            0 <= k < j < self.large.len() ==> self.large[k].1 != self.large[j].1
        &&& forall|k: int, c: int, i: int|
            #![trigger self.large[k], self.classes[c][i]]
            0 <= k < self.large.len() && 0 <= c < CLASSES && 0 <= i < self.classes[c].len()
                ==> self.large[k].1 != self.classes[c][i].page
    }
}

/// A page of a class is consistent.
pub open spec fn slab_ok(f: BuddyState, c: int, s: SlabView) -> bool {
    &&& f.allocated(s.page as int, 0)
    &&& s.free.no_duplicates()
    &&& forall|k: int| 0 <= k < s.free.len() ==> slot_of(c, s.page as int, #[trigger] s.free[k] as int)
    &&& s.free.len() <= capacity(c)
}

/// A large object lies in its block, which is allocated.
pub open spec fn large_ok(f: BuddyState, e: (u64, u64)) -> bool {
    exists|o: int| #[trigger]
        f.allocated(e.1 as int, o) && e.1 + NOTE <= e.0 < e.1 + block_pages(o) * 4096
}

/// Sizes of the classes.
pub proof fn lemma_sizes()
    ensures
        class_size(0) == 16,
        class_size(1) == 32,
        class_size(2) == 64,
        class_size(3) == 128,
        class_size(4) == 256,
        class_size(5) == 512,
        class_size(6) == 1024,
        class_size(7) == 2048,
        capacity(0) == 255,
        capacity(1) == 127,
        capacity(2) == 63,
        capacity(3) == 31,
        capacity(4) == 15,
        capacity(5) == 7,
        capacity(6) == 3,
        capacity(7) == 1,
{
    lemma_block_pages_values();
    lemma_division(class_size(0), 16, 255);
    lemma_division(class_size(1), 32, 127);
    lemma_division(class_size(2), 64, 63);
    lemma_division(class_size(3), 128, 31);
    lemma_division(class_size(4), 256, 15);
    lemma_division(class_size(5), 512, 7);
    lemma_division(class_size(6), 1024, 3);
    lemma_division(class_size(7), 2048, 1);
}

/// A page has room for `n` slots of size `z`, besides the first.
proof fn lemma_division(x: int, z: int, n: int)
    requires
        x == z,
        z > 0,
        (n + 1) * z == 4096,
    ensures
        (4096 - x) / x == n,
{
    assert((4096 - x) / x == n) by (nonlinear_arith)
        requires
            x == z,
            z > 0,
            (n + 1) * z == 4096,
    ;
}

/// Number of slots and their size fill a page.
pub proof fn lemma_capacity(c: int)
    requires
        0 <= c < CLASSES,
    ensures
        16 <= class_size(c) <= 2048,
        1 <= capacity(c) <= 255,
        (capacity(c) + 1) * class_size(c) == 4096,
        4096int % class_size(c) == 0,
{
    lemma_sizes();
    let n = capacity(c);
    let z = class_size(c);
    assert(4096int % z == 0) by (nonlinear_arith)
        requires
            z == 16 || z == 32 || z == 64 || z == 128 || z == 256 || z == 512 || z == 1024 || z == 2048,
    ;
    assert((n + 1) * z == 4096) by (nonlinear_arith)
        requires
            (n == 255 && z == 16) || (n == 127 && z == 32) || (n == 63 && z == 64) || (n == 31 && z == 128) || (n == 15 && z == 256) || (n == 7 && z == 512) || (n == 3 && z == 1024) || (n == 1 && z == 2048),
    ;
}

/// The slots of a fresh page are slots, each once.
proof fn lemma_fresh(f: BuddyState, c: int, page: u64)
    requires
        0 <= c < CLASSES,
        f.allocated(page as int, 0),
        page + 4096 <= u64::MAX,
    ensures
        slab_ok(f, c, fresh(c, page)),
        fresh(c, page).free.len() > 0,
        fresh(c, page).free.last() == page + class_size(c),
{
    lemma_capacity(c);
    let s = fresh(c, page);
    let z = class_size(c);
    let n = capacity(c);
    assert forall|k: int| 0 <= k < s.free.len() implies #[trigger] s.free[k] == page + (n - k) * z
        && slot_of(c, page as int, s.free[k] as int) by {
        let m = n - k;
        assert(1 <= m <= n);
        assert(z <= m * z <= n * z) by (nonlinear_arith)
            requires
                1 <= m <= n,
                z >= 16,
        ;
        assert((n + 1) * z == n * z + z) by (nonlinear_arith);
        assert((m * z) % z == 0) by (nonlinear_arith)
            requires
                z >= 16,
        ;
    }
    assert forall|i: int, j: int| 0 <= i < s.free.len() && 0 <= j < s.free.len() && i
        != j implies s.free[i] != s.free[j] by {
        assert((n - i) * z != (n - j) * z) by (nonlinear_arith)
            requires
                i != j,
                z >= 16,
        ;
    }
    assert(s.free[n - 1] == page + (n - (n - 1)) * z);
    assert((n - (n - 1)) * z == z) by (nonlinear_arith);
}

impl HeapView {
    /// Consistency does not depend on more than what is allocated.
    proof fn lemma_same_frames(self, f: BuddyState, g: BuddyState)
        requires
            self.wf(f),
            forall|p: int, o: int| f.allocated(p, o) ==> #[trigger] g.allocated(p, o),
        ensures
            self.wf(g),
    {
        assert forall|c: int, i: int|
            #![trigger self.classes[c][i]]
            0 <= c < CLASSES && 0 <= i < self.classes[c].len() implies slab_ok(
            g,
            c,
            self.classes[c][i],
        ) by {
            assert(slab_ok(f, c, self.classes[c][i]));
        }
        assert forall|k: int| 0 <= k < self.large.len() implies large_ok(g, #[trigger] self.large[k]) by {
            assert(large_ok(f, self.large[k]));
            let e = self.large[k];
            let o = choose|o: int| #[trigger]
                f.allocated(e.1 as int, o) && e.1 + NOTE <= e.0 < e.1 + block_pages(o) * 4096;
            assert(g.allocated(e.1 as int, o));
        }
    }

    /// The slots of one page changed.
    proof fn lemma_slab_changed(self, f: BuddyState, c: int, i: int, s: SlabView)
        requires
            self.wf(f),
            0 <= c < CLASSES,
            0 <= i < self.classes[c].len(),
            slab_ok(f, c, s),
            s.page == self.classes[c][i].page,
        ensures
            self.with_class(c, self.classes[c].update(i, s)).wf(f),
    {
        let v = self.with_class(c, self.classes[c].update(i, s));
        assert forall|d: int, j: int|
            #![trigger v.classes[d][j]]
            0 <= d < CLASSES && 0 <= j < v.classes[d].len() implies slab_ok(f, d, v.classes[d][j])
            && v.classes[d][j].page == self.classes[d][j].page by {
            assert(slab_ok(f, d, self.classes[d][j]));
        }
        assert forall|a: int, k: int, d: int, j: int|
            #![trigger v.classes[a][k], v.classes[d][j]]
            0 <= a < CLASSES && 0 <= k < v.classes[a].len() && 0 <= d < CLASSES && 0 <= j
                < v.classes[d].len() && v.classes[a][k].page == v.classes[d][j].page implies a == d
            && k == j by {
            let x = self.classes[a][k];
            let y = self.classes[d][j];
        }
        assert forall|k: int, d: int, j: int|
            #![trigger v.large[k], v.classes[d][j]]
            0 <= k < v.large.len() && 0 <= d < CLASSES && 0 <= j < v.classes[d].len() implies v.large[k].1
            != v.classes[d][j].page by {
            let x = self.large[k];
            let y = self.classes[d][j];
        }
    }

    /// A slot was taken.
    proof fn lemma_taken(self, f: BuddyState, c: int, i: int)
        requires
            self.wf(f),
            0 <= c < CLASSES,
            0 <= i < self.classes[c].len(),
            self.classes[c][i].free.len() > 0,
        ensures
            self.taken(c, i).0.wf(f),
    {
        let s = self.classes[c][i];
        assert(slab_ok(f, c, self.classes[c][i]));
        let t = SlabView { free: s.free.drop_last(), ..s };
        assert(slab_ok(f, c, t)) by {
            assert forall|k: int| 0 <= k < t.free.len() implies slot_of(
                c,
                t.page as int,
                #[trigger] t.free[k] as int,
            ) by {
                assert(t.free[k] == s.free[k]);
            }
            assert forall|a: int, b: int| 0 <= a < t.free.len() && 0 <= b < t.free.len() && a
                != b implies t.free[a] != t.free[b] by {
                assert(s.free[a] != s.free[b]);
            }
        }
        self.lemma_slab_changed(f, c, i, t);
    }

    /// A page without objects left its list and went back.
    proof fn lemma_page_dropped(self, f: BuddyState, c: int, i: int)
        requires
            self.wf(f),
            f.wf(),
            f.base % 4096 == 0,
            0 <= c < CLASSES,
            0 <= i < self.classes[c].len(),
        ensures
            f.can_free(self.classes[c][i].page as int),
            self.with_class(c, self.classes[c].remove(i)).wf(
                f.after_free(f.index(self.classes[c][i].page as int)),
            ),
    {
        let page = self.classes[c][i].page as int;
        let g = f.after_free(f.index(page));
        let v = self.with_class(c, self.classes[c].remove(i));
        assert(slab_ok(f, c, self.classes[c][i]));
        law_allocated_can_free(f, page, 0);
        assert forall|p: int, o: int| f.allocated(p, o) && p != page implies #[trigger] g.allocated(
            p,
            o,
        ) by {
            law_free_ends_one(f, page, p, o);
        }
        assert forall|d: int, j: int|
            #![trigger v.classes[d][j]]
            0 <= d < CLASSES && 0 <= j < v.classes[d].len() implies slab_ok(g, d, v.classes[d][j])
            && v.classes[d][j] == self.classes[d][if d == c && j >= i {
            j + 1
        } else {
            j
        }] by {
            let m = if d == c && j >= i {
                j + 1
            } else {
                j
            };
            let x = self.classes[d][m];
            assert(slab_ok(f, d, self.classes[d][m]));
            assert(x.page != self.classes[c][i].page);
        }
        assert forall|a: int, k: int, d: int, j: int|
            #![trigger v.classes[a][k], v.classes[d][j]]
            0 <= a < CLASSES && 0 <= k < v.classes[a].len() && 0 <= d < CLASSES && 0 <= j
                < v.classes[d].len() && v.classes[a][k].page == v.classes[d][j].page implies a == d
            && k == j by {
            let x = self.classes[a][if a == c && k >= i {
                k + 1
            } else {
                k
            }];
            let y = self.classes[d][if d == c && j >= i {
                j + 1
            } else {
                j
            }];
        }
        assert forall|k: int| 0 <= k < v.large.len() implies large_ok(g, #[trigger] v.large[k]) by {
            assert(large_ok(f, self.large[k]));
            let e = self.large[k];
            let o = choose|o: int| #[trigger]
                f.allocated(e.1 as int, o) && e.1 + NOTE <= e.0 < e.1 + block_pages(o) * 4096;
            let y = self.classes[c][i];
            assert(e.1 != page);
            assert(g.allocated(e.1 as int, o));
        }
        assert forall|k: int, d: int, j: int|
            #![trigger v.large[k], v.classes[d][j]]
            0 <= k < v.large.len() && 0 <= d < CLASSES && 0 <= j < v.classes[d].len() implies v.large[k].1
            != v.classes[d][j].page by {
            let x = self.large[k];
            let y = self.classes[d][if d == c && j >= i {
                j + 1
            } else {
                j
            }];
        }
    }

    /// A new page joined a list.
    proof fn lemma_grown(self, f: BuddyState, g: BuddyState, c: int, page: u64)
        requires
            self.wf(f),
            0 <= c < CLASSES,
            g.allocated(page as int, 0),
            page + 4096 <= u64::MAX,
            forall|o: int| !#[trigger] f.allocated(page as int, o),
            forall|p: int, o: int| f.allocated(p, o) ==> #[trigger] g.allocated(p, o),
        ensures
            self.grown(c, page).wf(g),
    {
        self.lemma_same_frames(f, g);
        lemma_fresh(g, c, page);
        let v = self.grown(c, page);
        let n = self.classes[c].len() as int;
        assert forall|d: int, j: int|
            #![trigger v.classes[d][j]]
            0 <= d < CLASSES && 0 <= j < v.classes[d].len() implies slab_ok(g, d, v.classes[d][j]) && (d
            == c && j == n || v.classes[d][j] == self.classes[d][j] && v.classes[d][j].page != page) by {
            if !(d == c && j == n) {
                assert(slab_ok(f, d, self.classes[d][j]));
            }
        }
        assert forall|a: int, k: int, d: int, j: int|
            #![trigger v.classes[a][k], v.classes[d][j]]
            0 <= a < CLASSES && 0 <= k < v.classes[a].len() && 0 <= d < CLASSES && 0 <= j
                < v.classes[d].len() && v.classes[a][k].page == v.classes[d][j].page implies a == d
            && k == j by {
            if !(a == c && k == n) && !(d == c && j == n) {
                let x = self.classes[a][k];
                let y = self.classes[d][j];
            }
        }
        assert forall|k: int, d: int, j: int|
            #![trigger v.large[k], v.classes[d][j]]
            0 <= k < v.large.len() && 0 <= d < CLASSES && 0 <= j < v.classes[d].len() implies v.large[k].1
            != v.classes[d][j].page by {
            let x = self.large[k];
            assert(large_ok(f, self.large[k]));
            if !(d == c && j == n) {
                let y = self.classes[d][j];
            }
        }
    }
}

/// A page that is cut into slots.
pub struct Slab {
    page: u64,
    free: Vec<u64>,
}

impl Slab {
    pub closed spec fn view(&self) -> SlabView {
        SlabView { page: self.page, free: self.free@ }
    }
}

/// The heap.
pub struct KernelHeap {
    classes: Vec<Vec<Slab>>,
    large: Vec<(u64, u64)>,
}

impl KernelHeap {
    pub closed spec fn view(&self) -> HeapView {
        HeapView {
            classes: Seq::new(
                self.classes@.len(),
                |c: int| Seq::new(self.classes@[c]@.len(), |i: int| self.classes@[c]@[i]@),
            ),
            large: self.large@,
        }
    }

    /// Nothing is handed out.
    pub fn new() -> (r: KernelHeap)
        ensures
            r@.classes.len() == CLASSES,
            forall|c: int| 0 <= c < CLASSES ==> (#[trigger] r@.classes[c]).len() == 0,
            r@.large.len() == 0,
            forall|f: BuddyState| #[trigger] r@.wf(f),
    {
        let mut classes: Vec<Vec<Slab>> = Vec::new();
        let mut c: usize = 0;
        while c < CLASSES
            invariant
                c <= CLASSES,
                classes@.len() == c,
                forall|k: int| 0 <= k < c ==> (#[trigger] classes@[k])@.len() == 0,
            decreases CLASSES - c,
        {
            classes.push(Vec::new());
            c += 1;
        }
        let r = KernelHeap { classes, large: Vec::new() };
        proof {
            assert forall|k: int| 0 <= k < CLASSES implies (#[trigger] r@.classes[k]).len() == 0 by {
                assert(r.classes@[k]@.len() == 0);
            }
        }
        r
    }

    /// Size of the slots of a class.
    fn size_of_class(c: usize) -> (r: u64)
        requires
            c < CLASSES,
        ensures
            r == class_size(c as int),
            16 <= r <= 2048,
    {
        proof {
            lemma_sizes();
        }
        match c {
            0 => 16,
            1 => 32,
            2 => 64,
            3 => 128,
            4 => 256,
            5 => 512,
            6 => 1024,
            _ => 2048,
        }
    }

    /// The class with the smallest slots that are large enough.
    pub fn class_index(size: u64) -> (r: Option<usize>)
        ensures
            match r {
                Some(c) => class_of(size as int) == Some(c as int) && c < CLASSES,
                None => class_of(size as int) is None,
            },
    {
        if size <= 16 {
            Some(0)
        } else if size <= 32 {
            Some(1)
        } else if size <= 64 {
            Some(2)
        } else if size <= 128 {
            Some(3)
        } else if size <= 256 {
            Some(4)
        } else if size <= 512 {
            Some(5)
        } else if size <= 1024 {
            Some(6)
        } else if size <= 2048 {
            Some(7)
        } else {
            None
        }
    }

    /// Replace the free slots of a page.
    fn put_free(&mut self, c: usize, i: usize, free: Vec<u64>)
        requires
            c < old(self)@.classes.len(),
            i < old(self)@.classes[c as int].len(),
        ensures
            final(self)@ == old(self)@.with_class(
                c as int,
                old(self)@.classes[c as int].update(
                    i as int,
                    SlabView { free: free@, ..old(self)@.classes[c as int][i as int] },
                ),
            ),
    {
        let ghost before = self@;
        let ghost raw = self.classes@;
        let page: u64 = self.classes[c][i].page;
        let mut list: Vec<Slab> = self.take_list(c);
        let ghost l0 = list@;
        list.set(i, Slab { page, free });
        self.put_list(c, list);
        proof {
            assert(self@.classes[c as int] =~= before.classes[c as int].update(
                i as int,
                SlabView { free: free@, ..before.classes[c as int][i as int] },
            ));
            assert(self@.classes =~= before.with_class(
                c as int,
                before.classes[c as int].update(
                    i as int,
                    SlabView { free: free@, ..before.classes[c as int][i as int] },
                ),
            ).classes);
        }
    }

    /// Take a list out; an empty one is left.
    fn take_list(&mut self, c: usize) -> (r: Vec<Slab>)
        requires
            c < old(self)@.classes.len(),
        ensures
            final(self)@ == old(self)@.with_class(c as int, Seq::empty()),
            r@.len() == old(self)@.classes[c as int].len(),
            forall|i: int|
                0 <= i < r@.len() ==> (#[trigger] r@[i])@ == old(self)@.classes[c as int][i],
    {
        let ghost before = self@;
        let ghost raw = self.classes@;
        let mut list: Vec<Slab> = Vec::new();
        std::mem::swap(&mut list, &mut self.classes[c]);
        proof {
            assert(list@ == raw[c as int]@);
            assert forall|i: int| 0 <= i < list@.len() implies (#[trigger] list@[i])@
                == before.classes[c as int][i] by {
                assert(raw[c as int]@[i]@ == before.classes[c as int][i]);
            }
            assert forall|k: int| 0 <= k < raw.len() && k != c implies #[trigger] self@.classes[k]
                == before.classes[k] by {
                assert(self.classes@[k] == raw[k]);
            }
            assert(self@.classes[c as int] =~= Seq::empty());
            assert(self@.classes =~= before.with_class(c as int, Seq::empty()).classes);
        }
        list
    }

    /// Put a list back.
    fn put_list(&mut self, c: usize, list: Vec<Slab>)
        requires
            c < old(self)@.classes.len(),
        ensures
            final(self)@ == old(self)@.with_class(
                c as int,
                Seq::new(list@.len(), |i: int| list@[i]@),
            ),
    {
        let ghost before = self@;
        let ghost raw = self.classes@;
        self.classes.set(c, list);
        proof {
            assert forall|k: int| 0 <= k < raw.len() && k != c implies #[trigger] self@.classes[k]
                == before.classes[k] by {
                assert(self.classes@[k] == raw[k]);
            }
            assert(self@.classes[c as int] =~= Seq::new(list@.len(), |i: int| list@[i]@));
            assert(self@.classes =~= before.with_class(
                c as int,
                Seq::new(list@.len(), |i: int| list@[i]@),
            ).classes);
        }
    }
}

impl KernelHeap {
    /// Take the pages of a class that hold no object out of its list, but for the first, and give
    /// them back.
    fn sweep_class(&mut self, f: &mut BuddyAllocator, c: usize)
        requires
            c < CLASSES,
            old(f).wf(),
            old(self)@.wf(old(f)@),
        ensures
            final(f).wf(),
            final(self)@.wf(final(f)@),
            ({
                let (pages, g) = swept(
                    c as int,
                    old(self)@.classes[c as int],
                    old(f)@,
                    old(self)@.classes[c as int].len() - 2,
                );
                &&& final(self)@ == old(self)@.with_class(c as int, pages)
                &&& final(f)@ == g
            }),
            keeps(old(self)@, old(f)@, final(self)@, final(f)@),
    {
        let ghost before = self@;
        let ghost f0 = f@;
        let size: u64 = Self::size_of_class(c);
        let cap: usize = ((PAGE_SIZE - size) / size) as usize;
        assert(self.classes@[c as int]@.len() == before.classes[c as int].len());
        let mut i: usize = self.classes[c].len();
        if i < 2 {
            assert(self@.with_class(c as int, before.classes[c as int]).classes =~= self@.classes);
            return;
        }
        i = i - 1;
        proof {
            assert(self@.with_class(c as int, before.classes[c as int]).classes =~= self@.classes);
        }
        while i > 0
            invariant
                c < CLASSES,
                f.wf(),
                self@.wf(f@),
                before.classes.len() == CLASSES,
                cap == capacity(c as int),
                i <= self@.classes[c as int].len(),
                self@ == before.with_class(c as int, self@.classes[c as int]),
                keeps(before, f0, self@, f@),
                swept(c as int, self@.classes[c as int], f@, i - 1) == swept(
                    c as int,
                    before.classes[c as int],
                    f0,
                    before.classes[c as int].len() - 2,
                ),
            decreases i,
        {
            i = i - 1;
            let ghost now = self@;
            let ghost g = f@;
            proof {
                assert(self.classes@[c as int]@.len() == now.classes[c as int].len());
                assert(self.classes@[c as int]@[i as int]@ == now.classes[c as int][i as int]);
            }
            if self.classes[c][i].free.len() == cap {
                let page: u64 = self.classes[c][i].page;
                proof {
                    f.lemma_wf();
                    now.lemma_page_dropped(g, c as int, i as int);
                    let w = now.with_class(c as int, now.classes[c as int].remove(i as int));
                    let y = g.after_free(g.index(now.classes[c as int][i as int].page as int));
                    assert forall|lo: int, hi: int| #[trigger] before.owns(f0, lo, hi) implies w.owns(
                        y,
                        lo,
                        hi,
                    ) by {
                        now.lemma_drop_keeps(g, c as int, i as int, lo, hi);
                    }
                }
                let mut list: Vec<Slab> = self.take_list(c);
                let ghost l0 = list@;
                let _ = list.remove(i);
                self.put_list(c, list);
                let _ = free_pages(f, page);
                proof {
                    assert(self@.classes[c as int] =~= now.classes[c as int].remove(i as int)) by {
                        assert forall|k: int| 0 <= k < list@.len() implies (#[trigger] list@[k])@
                            == now.classes[c as int].remove(i as int)[k] by {
                            assert(list@[k] == l0[if k < i {
                                k
                            } else {
                                k + 1
                            }]);
                        }
                    }
                    assert(self@ =~= now.with_class(
                        c as int,
                        now.classes[c as int].remove(i as int),
                    ));
                    assert(self@ =~= before.with_class(c as int, self@.classes[c as int]));
                }
            }
        }
    }

    /// Give pages that hold no object back; each class keeps its first page.
    fn sweep_empty_pages(&mut self, f: &mut BuddyAllocator)
        requires
            old(f).wf(),
            old(self)@.wf(old(f)@),
        ensures
            final(f).wf(),
            final(self)@.wf(final(f)@),
            (final(self)@, final(f)@) == old(self)@.swept_from(old(f)@, 0),
            keeps(old(self)@, old(f)@, final(self)@, final(f)@),
    {
        let ghost goal = self@.swept_from(f@, 0);
        let ghost before = self@;
        let ghost f0 = f@;
        let mut c: usize = 0;
        while c < CLASSES
            invariant
                c <= CLASSES,
                f.wf(),
                self@.wf(f@),
                self@.swept_from(f@, c as int) == goal,
                keeps(before, f0, self@, f@),
                before == old(self)@,
                f0 == old(f)@,
            decreases CLASSES - c,
        {
            self.sweep_class(f, c);
            c += 1;
        }
    }

    /// Take the next free slot of a page.
    fn take_slot(&mut self, c: usize, i: usize) -> (r: u64)
        requires
            c < old(self)@.classes.len(),
            i < old(self)@.classes[c as int].len(),
            old(self)@.classes[c as int][i as int].free.len() > 0,
        ensures
            (final(self)@, r) == old(self)@.taken(c as int, i as int),
    {
        let ghost before = self@;
        proof {
            assert(self.classes@[c as int]@.len() == before.classes[c as int].len());
            assert(self.classes@[c as int]@[i as int]@ == before.classes[c as int][i as int]);
        }
        let n: usize = self.classes[c][i].free.len();
        let slot: u64 = self.classes[c][i].free[n - 1];
        let mut free: Vec<u64> = Vec::new();
        let mut k: usize = 0;
        let ghost s = before.classes[c as int][i as int].free;
        while k + 1 < n
            invariant
                n == s.len(),
                n > 0,
                k < n,
                c < self.classes@.len(),
                i < self.classes@[c as int]@.len(),
                self.classes@[c as int]@[i as int].free@ == s,
                free@ == s.subrange(0, k as int),
                self@ == before,
            decreases n - k,
        {
            free.push(self.classes[c][i].free[k]);
            k += 1;
            assert(free@ =~= s.subrange(0, k as int));
        }
        assert(free@ =~= s.drop_last());
        self.put_free(c, i, free);
        slot
    }

    /// Hand a slot of a class out.
    fn slab_alloc(&mut self, f: &mut BuddyAllocator, c: usize) -> (r: Result<u64, HeapError>)
        requires
            c < CLASSES,
            old(f).wf(),
            old(self)@.wf(old(f)@),
        ensures
            final(f).wf(),
            final(self)@.wf(final(f)@),
            (final(self)@, final(f)@, r) == old(self)@.slab_alloc(old(f)@, c as int),
            keeps(old(self)@, old(f)@, final(self)@, final(f)@),
            r matches Ok(p) ==> is_new(
                old(self)@,
                old(f)@,
                final(self)@,
                final(f)@,
                p as int,
                class_size(c as int),
            ) && is_slot(c as int, p as int),
    {
        let ghost before = self@;
        let ghost f0 = f@;
        let ghost ci = c as int;
        proof {
            assert(self.classes@[ci]@.len() == before.classes[ci].len());
        }
        let mut i: usize = self.classes[c].len();
        while i > 0
            invariant
                c < CLASSES,
                ci == c as int,
                f.wf(),
                f@ == f0,
                self@ == before,
                before.wf(f0),
                before == old(self)@,
                f0 == old(f)@,
                self.classes@.len() == CLASSES,
                self.classes@[ci]@.len() == before.classes[ci].len(),
                i <= before.classes[ci].len(),
                open_page(before.classes[ci], i as int) == open_page(
                    before.classes[ci],
                    before.classes[ci].len() as int,
                ),
            decreases i,
        {
            i = i - 1;
            proof {
                assert(self.classes@[ci]@[i as int]@ == before.classes[ci][i as int]);
            }
            if self.classes[c][i].free.len() > 0 {
                proof {
                    f.lemma_wf();
                    before.lemma_taken(f0, ci, i as int);
                    lemma_slot_new(before, f0, ci, i as int);
                    lemma_page_aligned(f0, ci, before.classes[ci][i as int]);
                }
                let slot: u64 = self.take_slot(c, i);
                assert(slot_of(ci, before.classes[ci][i as int].page as int, slot as int));
                assert(is_slot(ci, slot as int));
                return Ok(slot);
            }
        }
        self.sweep_empty_pages(f);
        let ghost h = self@;
        let ghost g = f@;
        proof {
            f.lemma_wf();
        }
        let page: u64 = match alloc_pages(f, 0) {
            Some(p) => p,
            None => {
                return Err(HeapError::OutOfMemory);
            },
        };
        proof {
            f.lemma_wf();
            law_block_placement(f@, page as int, 0);
            lemma_block_pages_values();
            let n = first_fit(g.lists, 0);
            assert forall|p: int, o: int| g.allocated(p, o) implies #[trigger] f@.allocated(p, o) by {
                law_alloc_is_new(g, 0, p, o);
            }
            assert forall|o: int| !#[trigger] g.allocated(page as int, o) by {
                if g.allocated(page as int, o) {
                    law_alloc_is_new(g, 0, page as int, o);
                }
            }
            h.lemma_grown(g, f@, ci, page);
            lemma_fresh(f@, ci, page);
        }
        self.new_slab(c, page);
        let ghost z = self@;
        let ghost last = h.classes[ci].len() as int;
        proof {
            assert(z.classes[ci][last] == fresh(ci, page));
            z.lemma_taken(f@, ci, last);
            lemma_slot_new(z, f@, ci, last);
            lemma_page_aligned(f@, ci, z.classes[ci][last]);
            lemma_grown_keeps(h, g, f@, ci, page);
            let w = z.taken(ci, last).0;
            assert(keeps(before, f0, w, f@));
            assert(is_new(before, f0, w, f@, z.taken(ci, last).1 as int, class_size(ci))) by {
                let p = z.taken(ci, last).1 as int;
                assert forall|hi: int| !#[trigger] before.owns(f0, p, hi) by {
                    if before.owns(f0, p, hi) {
                        assert(h.owns(g, p, hi));
                        assert(z.owns(f@, p, hi));
                    }
                }
            }
            assert(self.classes@[ci]@.len() == z.classes[ci].len());
        }
        let n: usize = self.classes[c].len();
        let slot: u64 = self.take_slot(c, n - 1);
        assert(slot_of(ci, z.classes[ci][last].page as int, slot as int));
        assert(is_slot(ci, slot as int));
        Ok(slot)
    }

    /// Put a fresh page in front of a list.
    fn new_slab(&mut self, c: usize, page: u64)
        requires
            c < CLASSES,
            old(self)@.classes.len() == CLASSES,
            page + 4096 <= u64::MAX,
        ensures
            final(self)@ == old(self)@.grown(c as int, page),
    {
        let ghost before = self@;
        let ghost ci = c as int;
        proof {
            lemma_capacity(ci);
        }
        let size: u64 = Self::size_of_class(c);
        let cap: u64 = (PAGE_SIZE - size) / size;
        let mut free: Vec<u64> = Vec::new();
        let mut k: u64 = 0;
        while k < cap
            invariant
                k <= cap,
                cap == capacity(ci),
                size == class_size(ci),
                (cap + 1) * size == 4096,
                16 <= size <= 2048,
                1 <= cap <= 255,
                page + 4096 <= u64::MAX,
                free@ == fresh(ci, page).free.subrange(0, k as int),
            decreases cap - k,
        {
            proof {
                let m = (cap - k) as int;
                assert(0 <= m * size <= cap * size) by (nonlinear_arith)
                    requires
                        0 <= m <= cap,
                        size >= 16,
                ;
                assert((cap + 1) * size == cap * size + size) by (nonlinear_arith);
            }
            let slot: u64 = page + (cap - k) * size;
            free.push(slot);
            k += 1;
            assert(free@ =~= fresh(ci, page).free.subrange(0, k as int));
        }
        assert(free@ =~= fresh(ci, page).free);
        let mut list: Vec<Slab> = self.take_list(c);
        let ghost l0 = list@;
        list.push(Slab { page, free });
        self.put_list(c, list);
        proof {
            assert(self@.classes[ci] =~= before.classes[ci].push(fresh(ci, page))) by {
                assert forall|i: int| 0 <= i < list@.len() implies (#[trigger] list@[i])@
                    == before.classes[ci].push(fresh(ci, page))[i] by {
                    if i < l0.len() {
                        assert(list@[i] == l0[i]);
                    }
                }
            }
            assert(self@ =~= before.grown(ci, page));
        }
    }
}

/// The alignment is a power of two.
pub open spec fn is_alignment(a: int) -> bool {
    exists|k: int| 0 <= k < 64 && a == #[trigger] block_pages(k)
}

/// An order that is found is the first that is large enough.
pub proof fn lemma_order_for(n: int, o: int)
    requires
        0 <= o <= MAX_ORDER + 1,
    ensures
        o <= order_for(n, o) <= MAX_ORDER + 1,
        order_for(n, o) <= MAX_ORDER ==> n <= block_pages(order_for(n, o)),
        forall|p: int| o <= p < order_for(n, o) ==> n > #[trigger] block_pages(p),
    decreases MAX_ORDER + 1 - o,
{
    if o <= MAX_ORDER && n > block_pages(o) {
        lemma_order_for(n, o + 1);
    }
}

/// A large object fits into its block, behind the note.
pub proof fn lemma_placed(block: int, size: int, align: int, o: int)
    requires
        block >= 0,
        size > 0,
        align > 0,
        0 <= o <= MAX_ORDER,
        pages_for(size, align) <= block_pages(o),
    ensures
        block + NOTE <= placed_at(block, align),
        placed_at(block, align) + size <= block + block_pages(o) * 4096,
        placed_at(block, align) % align == 0,
{
    let x = block + NOTE + align - 1;
    let q = x / align;
    assert(q * align <= x < q * align + align) by (nonlinear_arith)
        requires
            q == x / align,
            align > 0,
            x >= 0,
    ;
    assert((q * align) % align == 0) by (nonlinear_arith)
        requires
            align > 0,
    ;
    let n = pages_for(size, align);
    assert(size + NOTE + align - 1 <= n * 4096);
    assert(n * 4096 <= block_pages(o) * 4096);
}

impl KernelHeap {
    /// Hand a block of pages out for a large object.
    fn page_alloc(&mut self, f: &mut BuddyAllocator, size: u64, align: u64) -> (r: Result<
        u64,
        HeapError,
    >)
        requires
            old(f).wf(),
            old(self)@.wf(old(f)@),
            size > 0,
            align > 0,
        ensures
            final(f).wf(),
            final(self)@.wf(final(f)@),
            (final(self)@, final(f)@, r) == old(self)@.page_alloc(
                old(f)@,
                size as int,
                align as int,
            ),
            keeps(old(self)@, old(f)@, final(self)@, final(f)@),
            r matches Ok(p) ==> is_new(
                old(self)@,
                old(f)@,
                final(self)@,
                final(f)@,
                p as int,
                size as int,
            ) && p as int % align as int == 0,
    {
        let ghost before = self@;
        let ghost g = f@;
        proof {
            f.lemma_wf();
        }
        if size > u64::MAX - NOTE || size + NOTE > u64::MAX - (align - 1) {
            return Err(HeapError::TooLarge);
        }
        let needed: u64 = size + NOTE + (align - 1);
        let whole: u64 = needed / PAGE_SIZE;
        let pages: u64 = if needed % PAGE_SIZE == 0 {
            whole
        } else {
            whole + 1
        };
        assert(pages == pages_for(size as int, align as int));
        let mut order: usize = 0;
        let mut have: u64 = 1;
        while order <= MAX_ORDER && have < pages
            invariant
                order <= MAX_ORDER + 1,
                have == block_pages(order as int),
                have <= 8192,
                order_for(pages as int, 0) == order_for(pages as int, order as int),
            decreases MAX_ORDER + 1 - order,
        {
            proof {
                lemma_block_pages_values();
                assert(block_pages(order + 1) == 2 * block_pages(order as int));
                lemma_small_order(order as int);
            }
            have = have * 2;
            order += 1;
        }
        if order > MAX_ORDER {
            return Err(HeapError::TooLarge);
        }
        let block: u64 = match alloc_pages(f, order) {
            Some(b) => b,
            None => {
                return Err(HeapError::OutOfMemory);
            },
        };
        proof {
            f.lemma_wf();
            law_block_placement(f@, block as int, order as int);
            lemma_order_for(pages as int, 0);
            lemma_placed(block as int, size as int, align as int, order as int);
        }
        let x: u64 = block + NOTE + (align - 1);
        let p: u64 = x / align * align;
        assert(p == placed_at(block as int, align as int)) by {
            assert(x as int / align as int * align as int == placed_at(block as int, align as int));
        }
        self.large.push((p, block));
        proof {
            assert(self@.classes =~= before.classes) by {
                assert forall|c: int| 0 <= c < before.classes.len() implies #[trigger] self@.classes[c]
                    == before.classes[c] by {}
            }
            assert(self@ =~= (HeapView { large: before.large.push((p, block)), ..before }));
            before.lemma_large_added(g, f@, p, block, order as int);
            assert forall|q: int, r: int| g.allocated(q, r) implies #[trigger] f@.allocated(q, r) && q
                != block by {
                law_alloc_is_new(g, order as int, q, r);
            }
            lemma_large_new(before, g, f@, p, block, order as int, size as int);
        }
        Ok(p)
    }

    /// Hand an object out: at least `size` bytes, at a multiple of `align`.
    pub fn alloc_object(&mut self, f: &mut BuddyAllocator, size: u64, align: u64) -> (r: Result<
        u64,
        HeapError,
    >)
        requires
            old(f).wf(),
            old(self)@.wf(old(f)@),
            is_alignment(align as int),
        ensures
            final(f).wf(),
            final(self)@.wf(final(f)@),
            (final(self)@, final(f)@, r) == old(self)@.allocated(old(f)@, size as int, align),
            keeps(old(self)@, old(f)@, final(self)@, final(f)@),
            size > 0 ==> (r matches Ok(p) ==> p as int % align as int == 0 && is_new(
                old(self)@,
                old(f)@,
                final(self)@,
                final(f)@,
                p as int,
                size as int,
            )),
    {
        proof {
            let k = choose|k: int| 0 <= k < 64 && align == #[trigger] block_pages(k);
            lemma_block_pages_pos(k);
        }
        if size == 0 {
            return Ok(align);
        }
        match Self::class_index(size) {
            Some(c) => {
                if align <= Self::size_of_class(c) {
                    let r: Result<u64, HeapError> = self.slab_alloc(f, c);
                    proof {
                        if let Ok(p) = r {
                            let page = choose|page: int|
                                page % 4096 == 0 && #[trigger] slot_of(c as int, page, p as int);
                            lemma_slot_aligned(c as int, page, p as int, align as int);
                            lemma_sizes();
                            let hi = choose|hi: int| #[trigger]
                                self@.owns(f@, p as int, hi) && p + class_size(c as int) <= hi;
                            assert(self@.owns(f@, p as int, hi) && p + size <= hi);
                        }
                    }
                    return r;
                }
            },
            None => {},
        }
        self.page_alloc(f, size, align)
    }
}

proof fn lemma_small_order(o: int)
    requires
        0 <= o <= MAX_ORDER,
    ensures
        1 <= block_pages(o) <= 4096,
{
    lemma_block_pages_values();
    if o == 0 {
    } else if o == 1 {
    } else if o == 2 {
    } else if o == 3 {
    } else if o == 4 {
    } else if o == 5 {
    } else if o == 6 {
    } else if o == 7 {
    } else if o == 8 {
    } else if o == 9 {
    } else if o == 10 {
    } else if o == 11 {
    } else {
        assert(o == 12);
    }
}

impl HeapView {
    /// A large object was handed out.
    proof fn lemma_large_added(self, f: BuddyState, g: BuddyState, p: u64, block: u64, o: int)
        requires
            self.wf(f),
            f.wf(),
            0 <= o <= MAX_ORDER,
            first_fit(f.lists, o) <= MAX_ORDER,
            g == f.after_alloc(o),
            block == f.addr(f.lists[first_fit(f.lists, o)].last() as int),
            g.allocated(block as int, o),
            block + NOTE <= p < block + block_pages(o) * 4096,
        ensures
            (HeapView { large: self.large.push((p, block)), ..self }).wf(g),
    {
        let v = HeapView { large: self.large.push((p, block)), ..self };
        let n = self.large.len() as int;
        assert forall|q: int, r: int| f.allocated(q, r) implies #[trigger] g.allocated(q, r) && q
            != block by {
            law_alloc_is_new(f, o, q, r);
        }
        self.lemma_same_frames(f, g);
        assert forall|k: int| 0 <= k < v.large.len() implies large_ok(g, #[trigger] v.large[k]) && (k
            < n ==> v.large[k] == self.large[k] && v.large[k].1 != block) by {
            if k < n {
                assert(large_ok(f, self.large[k]));
                assert(large_ok(g, self.large[k]));
                let e = self.large[k];
                let r = choose|r: int| #[trigger]
                    f.allocated(e.1 as int, r) && e.1 + NOTE <= e.0 < e.1 + block_pages(r) * 4096;
                assert(g.allocated(e.1 as int, r));
            } else {
                assert(g.allocated(v.large[k].1 as int, o));
            }
        }
        assert forall|k: int, j: int|
            #![trigger v.large[k], v.large[j]]
            0 <= k < j < v.large.len() implies v.large[k].1 != v.large[j].1 by {
            if j < n {
                let x = self.large[k];
                let y = self.large[j];
            }
        }
        assert forall|k: int, c: int, i: int|
            #![trigger v.large[k], v.classes[c][i]]
            0 <= k < v.large.len() && 0 <= c < CLASSES && 0 <= i < v.classes[c].len() implies v.large[k].1
            != v.classes[c][i].page by {
            let y = self.classes[c][i];
            assert(slab_ok(f, c, self.classes[c][i]));
            if k < n {
                let x = self.large[k];
            }
        }
    }
}

impl HeapView {
    /// Position of a page in a list, from position `i` on; the length when it is not there.
    pub open spec fn page_at(pages: Seq<SlabView>, page: int, i: int) -> int
        decreases pages.len() - i,
    {
        if i >= pages.len() {
            pages.len() as int
        } else if pages[i].page == page {
            i
        } else {
            Self::page_at(pages, page, i + 1)
        }
    }

    /// The class, from class `c` on, that a page belongs to, and its position there.
    pub open spec fn slab_at(self, page: int, c: int) -> Option<(int, int)>
        decreases CLASSES - c,
    {
        if c >= CLASSES {
            None
        } else {
            let i = Self::page_at(self.classes[c], page, 0);
            if i < self.classes[c].len() {
                Some((c, i))
            } else {
                self.slab_at(page, c + 1)
            }
        }
    }

    /// Position of a large object, from position `k` on; the length when it is not there.
    pub open spec fn large_at(self, p: u64, k: int) -> int
        decreases self.large.len() - k,
    {
        if k >= self.large.len() {
            self.large.len() as int
        } else if self.large[k].0 == p {
            k
        } else {
            self.large_at(p, k + 1)
        }
    }

    /// The slot at `p` is free.
    pub open spec fn is_free_slot(self, p: u64) -> bool {
        self.slab_at(p - p % 4096, 0) matches Some((c, i)) && self.classes[c][i].free.contains(p)
    }

    /// An object is given back.
    pub open spec fn given_back(self, f: BuddyState, p: u64, size: int) -> (
        HeapView,
        BuddyState,
        Result<(), HeapError>,
    ) {
        let page = p - p % 4096;
        if size == 0 {
            (self, f, Ok(()))
        } else if page < f.base || page >= f.addr(f.pages) {
            (self, f, Err(HeapError::InvalidPointer))
        } else {
            match self.slab_at(page, 0) {
                Some((c, i)) => if slot_of(c, page, p as int) {
                    let s = self.classes[c][i];
                    (
                        self.with_class(
                            c,
                            self.classes[c].update(i, SlabView { free: s.free.push(p), ..s }),
                        ),
                        f,
                        Ok(()),
                    )
                } else {
                    (self, f, Err(HeapError::InvalidPointer))
                },
                None => {
                    let k = self.large_at(p, 0);
                    if k < self.large.len() {
                        (
                            HeapView { large: self.large.remove(k), ..self },
                            f.after_free(f.index(self.large[k].1 as int)),
                            Ok(()),
                        )
                    } else {
                        (self, f, Err(HeapError::InvalidPointer))
                    }
                },
            }
        }
    }

    proof fn lemma_page_at(pages: Seq<SlabView>, page: int, i: int)
        requires
            0 <= i <= pages.len(),
        ensures
            i <= Self::page_at(pages, page, i) <= pages.len(),
            Self::page_at(pages, page, i) < pages.len() ==> pages[Self::page_at(
                pages,
                page,
                i,
            )].page == page,
            Self::page_at(pages, page, i) == pages.len() ==> forall|j: int|
                i <= j < pages.len() ==> (#[trigger] pages[j]).page != page,
        decreases pages.len() - i,
    {
        if i < pages.len() && pages[i].page != page {
            Self::lemma_page_at(pages, page, i + 1);
        }
    }

    pub proof fn lemma_slab_at(self, page: int, c: int)
        requires
            0 <= c <= CLASSES,
            self.classes.len() == CLASSES,
        ensures
            self.slab_at(page, c) matches Some((d, i)) ==> c <= d < CLASSES && 0 <= i
                < self.classes[d].len() && self.classes[d][i].page == page,
            self.slab_at(page, c) is None ==> forall|d: int, i: int|
                #![trigger self.classes[d][i]]
                c <= d < CLASSES && 0 <= i < self.classes[d].len() ==> self.classes[d][i].page
                    != page,
        decreases CLASSES - c,
    {
        if c < CLASSES {
            Self::lemma_page_at(self.classes[c], page, 0);
            self.lemma_slab_at(page, c + 1);
        }
    }

    pub proof fn lemma_large_at(self, p: u64, k: int)
        requires
            0 <= k <= self.large.len(),
        ensures
            k <= self.large_at(p, k) <= self.large.len(),
            self.large_at(p, k) < self.large.len() ==> self.large[self.large_at(p, k)].0 == p,
            self.large_at(p, k) == self.large.len() ==> forall|j: int|
                k <= j < self.large.len() ==> (#[trigger] self.large[j]).0 != p,
        decreases self.large.len() - k,
    {
        if k < self.large.len() && self.large[k].0 != p {
            self.lemma_large_at(p, k + 1);
        }
    }

    /// Slots of a page fit: one that is not free leaves room.
    proof fn lemma_room(f: BuddyState, c: int, s: SlabView, p: u64)
        requires
            0 <= c < CLASSES,
            slab_ok(f, c, s),
            slot_of(c, s.page as int, p as int),
            !s.free.contains(p),
        ensures
            slab_ok(f, c, SlabView { free: s.free.push(p), ..s }),
    {
        let t = s.free.push(p);
        let z = class_size(c);
        let n = capacity(c);
        lemma_capacity(c);
        assert(t.no_duplicates()) by {
            assert forall|a: int, b: int| 0 <= a < t.len() && 0 <= b < t.len() && a != b implies t[a]
                != t[b] by {
                if a < s.free.len() {
                    assert(s.free.contains(s.free[a]));
                }
                if b < s.free.len() {
                    assert(s.free.contains(s.free[b]));
                }
            }
        }
        // Every slot has a number from 1 to the capacity.
        let num = |x: u64| ((x - s.page) / z) as int;
        let all = vstd::set_lib::set_int_range(1, n + 1);
        vstd::set_lib::lemma_int_range(1, n + 1);
        let nums = t.map_values(num);
        assert forall|k: int| 0 <= k < t.len() implies slot_of(c, s.page as int, #[trigger] t[k] as int) by {
            if k < s.free.len() {
                assert(t[k] == s.free[k]);
            }
        }
        assert forall|k: int| 0 <= k < nums.len() implies 1 <= #[trigger] nums[k] <= n && t[k]
            == s.page + nums[k] * z by {
            assert(slot_of(c, s.page as int, t[k] as int));
            let d = t[k] - s.page;
            let q = d / z;
            assert(d == q * z) by (nonlinear_arith)
                requires
                    q == d / z,
                    d % z == 0,
                    z >= 16,
            ;
            assert(1 <= q <= n) by (nonlinear_arith)
                requires
                    d == q * z,
                    z <= d,
                    d + z <= 4096,
                    (n + 1) * z == 4096,
                    z >= 16,
            ;
        }
        assert(nums.no_duplicates()) by {
            assert forall|a: int, b: int| 0 <= a < nums.len() && 0 <= b < nums.len() && a
                != b implies nums[a] != nums[b] by {
                assert(t[a] != t[b]);
                assert(t[a] == s.page + nums[a] * z && t[b] == s.page + nums[b] * z);
            }
        }
        nums.unique_seq_to_set();
        assert(nums.to_set().subset_of(all)) by {
            assert forall|x: int| nums.to_set().contains(x) implies all.contains(x) by {
                let k = choose|k: int| 0 <= k < nums.len() && nums[k] == x;
                assert(1 <= nums[k] <= n);
            }
        }
        vstd::set_lib::lemma_len_subset(nums.to_set(), all);
        assert(t.len() <= n);
    }

    /// A large object was given back.
    proof fn lemma_large_gone(self, f: BuddyState, k: int)
        requires
            self.wf(f),
            f.wf(),
            f.base % 4096 == 0,
            0 <= k < self.large.len(),
        ensures
            f.can_free(self.large[k].1 as int),
            (HeapView { large: self.large.remove(k), ..self }).wf(
                f.after_free(f.index(self.large[k].1 as int)),
            ),
    {
        let block = self.large[k].1 as int;
        let g = f.after_free(f.index(block));
        let v = HeapView { large: self.large.remove(k), ..self };
        assert(large_ok(f, self.large[k]));
        let e = self.large[k];
        let o = choose|o: int| #[trigger]
            f.allocated(e.1 as int, o) && e.1 + NOTE <= e.0 < e.1 + block_pages(o) * 4096;
        law_allocated_can_free(f, block, o);
        assert forall|p: int, r: int| f.allocated(p, r) && p != block implies #[trigger] g.allocated(
            p,
            r,
        ) by {
            law_free_ends_one(f, block, p, r);
        }
        assert forall|c: int, i: int|
            #![trigger v.classes[c][i]]
            0 <= c < CLASSES && 0 <= i < v.classes[c].len() implies slab_ok(g, c, v.classes[c][i]) by {
            assert(slab_ok(f, c, self.classes[c][i]));
            assert(self.large[k].1 != self.classes[c][i].page);
        }
        assert forall|j: int| 0 <= j < v.large.len() implies large_ok(g, #[trigger] v.large[j]) && v.large[j]
            == self.large[if j < k {
            j
        } else {
            j + 1
        }] by {
            let m = if j < k {
                j
            } else {
                j + 1
            };
            let x = self.large[m];
            assert(large_ok(f, self.large[m]));
            let r = choose|r: int| #[trigger]
                f.allocated(x.1 as int, r) && x.1 + NOTE <= x.0 < x.1 + block_pages(r) * 4096;
            if m < k {
                assert(self.large[m].1 != self.large[k].1);
            } else {
                assert(self.large[k].1 != self.large[m].1);
            }
            assert(g.allocated(x.1 as int, r));
        }
        assert forall|a: int, j: int|
            #![trigger v.large[a], v.large[j]]
            0 <= a < j < v.large.len() implies v.large[a].1 != v.large[j].1 by {
            let x = self.large[if a < k {
                a
            } else {
                a + 1
            }];
            let y = self.large[if j < k {
                j
            } else {
                j + 1
            }];
        }
        assert forall|j: int, c: int, i: int|
            #![trigger v.large[j], v.classes[c][i]]
            0 <= j < v.large.len() && 0 <= c < CLASSES && 0 <= i < v.classes[c].len() implies v.large[j].1
            != v.classes[c][i].page by {
            let x = self.large[if j < k {
                j
            } else {
                j + 1
            }];
            let y = self.classes[c][i];
        }
    }
}

impl KernelHeap {
    /// The class that a page belongs to, and its position there.
    fn find_slab(&self, page: u64) -> (r: Option<(usize, usize)>)
        requires
            self@.classes.len() == CLASSES,
        ensures
            match r {
                Some((c, i)) => self@.slab_at(page as int, 0) == Some((c as int, i as int)),
                None => self@.slab_at(page as int, 0) is None,
            },
    {
        let mut c: usize = 0;
        while c < CLASSES
            invariant
                c <= CLASSES,
                self@.classes.len() == CLASSES,
                self.classes@.len() == CLASSES,
                self@.slab_at(page as int, 0) == self@.slab_at(page as int, c as int),
            decreases CLASSES - c,
        {
            let ghost l = self@.classes[c as int];
            assert(self.classes@[c as int]@.len() == l.len());
            let n: usize = self.classes[c].len();
            let mut i: usize = 0;
            while i < n
                invariant
                    c < CLASSES,
                    self.classes@.len() == CLASSES,
                    l == self@.classes[c as int],
                    self.classes@[c as int]@.len() == l.len(),
                    n == l.len(),
                    i <= n,
                    self@.slab_at(page as int, 0) == self@.slab_at(page as int, c as int),
                    HeapView::page_at(l, page as int, 0) == HeapView::page_at(
                        l,
                        page as int,
                        i as int,
                    ),
                decreases n - i,
            {
                assert(self.classes@[c as int]@[i as int]@ == l[i as int]);
                if self.classes[c][i].page == page {
                    return Some((c, i));
                }
                i += 1;
            }
            c += 1;
        }
        None
    }

    fn find_large(&self, p: u64) -> (r: usize)
        ensures
            r as int == self@.large_at(p, 0),
    {
        let n: usize = self.large.len();
        let mut k: usize = 0;
        while k < n
            invariant
                k <= n,
                n == self@.large.len(),
                self@.large == self.large@,
                self@.large_at(p, 0) == self@.large_at(p, k as int),
            decreases n - k,
        {
            if self.large[k].0 == p {
                return k;
            }
            k += 1;
        }
        n
    }

    /// Take an object back. An address outside the memory of the heap, within a page of slots but
    /// of no slot, or of no large object, is refused. A slot must not be given back twice.
    pub fn dealloc(&mut self, f: &mut BuddyAllocator, ptr: u64, size: u64) -> (r: Result<
        (),
        HeapError,
    >)
        requires
            old(f).wf(),
            old(self)@.wf(old(f)@),
            size > 0 ==> !old(self)@.is_free_slot(ptr),
        ensures
            final(f).wf(),
            final(self)@.wf(final(f)@),
            (final(self)@, final(f)@, r) == old(self)@.given_back(old(f)@, ptr, size as int),
    {
        let ghost before = self@;
        let ghost g = f@;
        if size == 0 {
            return Ok(());
        }
        proof {
            f.lemma_wf();
        }
        let page: u64 = ptr - ptr % PAGE_SIZE;
        if !crate::mem::page_in_range(f, page) {
            return Err(HeapError::InvalidPointer);
        }
        match self.find_slab(page) {
            Some((c, i)) => {
                proof {
                    before.lemma_slab_at(page as int, 0);
                    assert(slab_ok(g, c as int, before.classes[c as int][i as int]));
                    assert(self.classes@[c as int]@.len() == before.classes[c as int].len());
                    assert(self.classes@[c as int]@[i as int]@
                        == before.classes[c as int][i as int]);
                }
                let z: u64 = Self::size_of_class(c);
                let offset: u64 = ptr - page;
                if offset < z || offset % z != 0 || offset + z > PAGE_SIZE {
                    return Err(HeapError::InvalidPointer);
                }
                let ghost s = before.classes[c as int][i as int];
                let n: usize = self.classes[c][i].free.len();
                let mut free: Vec<u64> = Vec::new();
                let mut k: usize = 0;
                while k < n
                    invariant
                        n == s.free.len(),
                        k <= n,
                        c < self.classes@.len(),
                        i < self.classes@[c as int]@.len(),
                        self.classes@[c as int]@[i as int].free@ == s.free,
                        free@ == s.free.subrange(0, k as int),
                        self@ == before,
                    decreases n - k,
                {
                    free.push(self.classes[c][i].free[k]);
                    k += 1;
                    assert(free@ =~= s.free.subrange(0, k as int));
                }
                assert(free@ =~= s.free);
                free.push(ptr);
                self.put_free(c, i, free);
                proof {
                    HeapView::lemma_room(g, c as int, s, ptr);
                    before.lemma_slab_changed(
                        g,
                        c as int,
                        i as int,
                        SlabView { free: s.free.push(ptr), ..s },
                    );
                }
                Ok(())
            },
            None => {
                let k: usize = self.find_large(ptr);
                if k < self.large.len() {
                    let block: u64 = self.large[k].1;
                    proof {
                        before.lemma_large_gone(g, k as int);
                    }
                    let _ = self.large.remove(k);
                    let _ = free_pages(f, block);
                    proof {
                        assert(self@.classes =~= before.classes) by {
                            assert forall|c: int| 0 <= c < before.classes.len() implies #[trigger] self@.classes[c]
                                == before.classes[c] by {}
                        }
                        assert(self@ =~= (HeapView {
                            large: before.large.remove(k as int),
                            ..before
                        }));
                    }
                    Ok(())
                } else {
                    Err(HeapError::InvalidPointer)
                }
            },
        }
    }
}

/// The heap together with the pages that it takes from.
pub struct KernelAllocator {
    pub heap: KernelHeap,
    pub frames: BuddyAllocator,
}

impl KernelAllocator {
    pub open spec fn wf(&self) -> bool {
        self.frames.wf() && self.heap@.wf(self.frames@)
    }

    /// Hand an object out: at least `size` bytes, at a multiple of `align`.
    pub fn alloc_object(&mut self, size: u64, align: u64) -> (r: Result<u64, HeapError>)
        requires
            old(self).wf(),
            is_alignment(align as int),
        ensures
            final(self).wf(),
            (final(self).heap@, final(self).frames@, r) == old(self).heap@.allocated(
                old(self).frames@,
                size as int,
                align,
            ),
            keeps(old(self).heap@, old(self).frames@, final(self).heap@, final(self).frames@),
            size > 0 ==> (r matches Ok(p) ==> p as int % align as int == 0 && is_new(
                old(self).heap@,
                old(self).frames@,
                final(self).heap@,
                final(self).frames@,
                p as int,
                size as int,
            )),
    {
        self.heap.alloc_object(&mut self.frames, size, align)
    }

    /// Take an object back.
    pub fn dealloc(&mut self, ptr: u64, size: u64) -> (r: Result<(), HeapError>)
        requires
            old(self).wf(),
            size > 0 ==> !old(self).heap@.is_free_slot(ptr),
        ensures
            final(self).wf(),
            (final(self).heap@, final(self).frames@, r) == old(self).heap@.given_back(
                old(self).frames@,
                ptr,
                size as int,
            ),
    {
        self.heap.dealloc(&mut self.frames, ptr, size)
    }
}

/// A heap over the pages of an allocator. Nothing is handed out.
pub fn init(frames: BuddyAllocator) -> (r: KernelAllocator)
    requires
        frames.wf(),
    ensures
        r.wf(),
        r.frames == frames,
        r.heap@.large.len() == 0,
        forall|c: int| 0 <= c < CLASSES ==> (#[trigger] r.heap@.classes[c]).len() == 0,
{
    KernelAllocator { heap: KernelHeap::new(), frames }
}

/// Nanoseconds that an object costs, where `n` of them took `dt` ticks of a clock of `freq` ticks a
/// second. A time that is too long counts as the longest.
pub fn bench(dt: u64, freq: u64, n: u64) -> (r: u64)
    requires
        freq > 0,
        n > 0,
    ensures
        r == (if dt * (1_000_000_000int / freq as int) > u64::MAX {
            u64::MAX as int
        } else {
            dt * (1_000_000_000int / freq as int)
        }) / n as int,
{
    let ns: u64 = 1_000_000_000u64 / freq;
    let total: u64 = match dt.checked_mul(ns) {
        Some(t) => t,
        None => u64::MAX,
    };
    total / n
}

impl HeapView {
    /// A slot of page `i` of a class that is handed out.
    pub open spec fn slot_live(self, c: int, i: int, s: int) -> bool {
        &&& 0 <= c < CLASSES
        &&& 0 <= i < self.classes[c].len()
        &&& slot_of(c, self.classes[c][i].page as int, s)
        &&& s <= u64::MAX
        &&& !self.classes[c][i].free.contains(s as u64)
    }

    /// A large object that is handed out.
    pub open spec fn large_live(self, f: BuddyState, k: int, o: int, p: int) -> bool {
        &&& 0 <= k < self.large.len()
        &&& self.large[k].0 == p
        &&& f.allocated(self.large[k].1 as int, o)
    }

    /// The bytes from `lo` to `hi` are an object that is handed out.
    pub open spec fn owns(self, f: BuddyState, lo: int, hi: int) -> bool {
        ||| exists|c: int, i: int| #[trigger] self.slot_live(c, i, lo) && hi == lo + class_size(c)
        ||| exists|k: int, o: int| #[trigger]
            self.large_live(f, k, o, lo) && hi == self.large[k].1 + block_pages(o) * 4096
    }
}

/// A slot and its page.
proof fn lemma_slot_apart(c: int, p: int, s: int, d: int, q: int, t: int)
    requires
        0 <= c < CLASSES,
        0 <= d < CLASSES,
        slot_of(c, p, s),
        slot_of(d, q, t),
        p == q && c == d || p + 4096 <= q || q + 4096 <= p,
        s != t,
    ensures
        s + class_size(c) <= t || t + class_size(d) <= s,
{
    lemma_capacity(c);
    lemma_capacity(d);
    if p == q && c == d {
        let z = class_size(c);
        let a = (s - p) / z;
        let b = (t - p) / z;
        assert(s - p == a * z) by (nonlinear_arith)
            requires
                a == (s - p) / z,
                (s - p) % z == 0,
                z >= 16,
        ;
        assert(t - p == b * z) by (nonlinear_arith)
            requires
                b == (t - p) / z,
                (t - p) % z == 0,
                z >= 16,
        ;
        assert(a * z + z <= b * z || b * z + z <= a * z) by (nonlinear_arith)
            requires
                a != b,
                z >= 16,
        ;
    }
}

/// Law: two objects that are handed out have no byte in common.
pub proof fn law_objects_apart(h: HeapView, f: BuddyState, lo: int, hi: int, lo2: int, hi2: int)
    requires
        f.wf(),
        h.wf(f),
        h.owns(f, lo, hi),
        h.owns(f, lo2, hi2),
        lo != lo2,
    ensures
        hi <= lo2 || hi2 <= lo,
{
    lemma_block_pages_values();
    if exists|c: int, i: int| #[trigger] h.slot_live(c, i, lo) && hi == lo + class_size(c) {
        let (c, i) = choose|c: int, i: int| #[trigger]
            h.slot_live(c, i, lo) && hi == lo + class_size(c);
        let x = h.classes[c][i];
        assert(slab_ok(f, c, h.classes[c][i]));
        if exists|d: int, j: int| #[trigger] h.slot_live(d, j, lo2) && hi2 == lo2 + class_size(d) {
            let (d, j) = choose|d: int, j: int| #[trigger]
                h.slot_live(d, j, lo2) && hi2 == lo2 + class_size(d);
            let y = h.classes[d][j];
            assert(slab_ok(f, d, h.classes[d][j]));
            if x.page != y.page {
                law_no_overlap(f, x.page as int, 0, y.page as int, 0);
            }
            lemma_slot_apart(c, x.page as int, lo, d, y.page as int, lo2);
        } else {
            let (k, o) = choose|k: int, o: int| #[trigger]
                h.large_live(f, k, o, lo2) && hi2 == h.large[k].1 + block_pages(o) * 4096;
            lemma_slot_large(h, f, c, i, k, o, lo);
        }
    } else {
        let (k, o) = choose|k: int, o: int| #[trigger]
            h.large_live(f, k, o, lo) && hi == h.large[k].1 + block_pages(o) * 4096;
        assert(large_ok(f, h.large[k]));
        if exists|d: int, j: int| #[trigger] h.slot_live(d, j, lo2) && hi2 == lo2 + class_size(d) {
            let (d, j) = choose|d: int, j: int| #[trigger]
                h.slot_live(d, j, lo2) && hi2 == lo2 + class_size(d);
            lemma_slot_large(h, f, d, j, k, o, lo2);
        } else {
            let (m, r) = choose|m: int, r: int| #[trigger]
                h.large_live(f, m, r, lo2) && hi2 == h.large[m].1 + block_pages(r) * 4096;
            assert(large_ok(f, h.large[m]));
            if k < m {
                assert(h.large[k].1 != h.large[m].1);
            } else {
                assert(h.large[m].1 != h.large[k].1);
            }
            law_no_overlap(f, h.large[k].1 as int, o, h.large[m].1 as int, r);
        }
    }
}

/// A slot and a large object have no byte in common.
proof fn lemma_slot_large(h: HeapView, f: BuddyState, c: int, i: int, k: int, o: int, s: int)
    requires
        f.wf(),
        h.wf(f),
        0 <= c < CLASSES,
        0 <= i < h.classes[c].len(),
        slot_of(c, h.classes[c][i].page as int, s),
        0 <= k < h.large.len(),
        f.allocated(h.large[k].1 as int, o),
    ensures
        s + class_size(c) <= h.large[k].1 || h.large[k].1 + block_pages(o) * 4096 <= s,
        h.large[k].1 + NOTE <= h.large[k].0 < h.large[k].1 + block_pages(o) * 4096,
{
    lemma_block_pages_values();
    lemma_capacity(c);
    let x = h.classes[c][i];
    assert(slab_ok(f, c, h.classes[c][i]));
    assert(large_ok(f, h.large[k]));
    assert(h.large[k].1 != h.classes[c][i].page);
    law_no_overlap(f, x.page as int, 0, h.large[k].1 as int, o);
}

/// All slots of a page without objects are free.
proof fn lemma_unused(f: BuddyState, c: int, s: SlabView, p: int)
    requires
        0 <= c < CLASSES,
        slab_ok(f, c, s),
        unused(c, s),
        slot_of(c, s.page as int, p),
        p <= u64::MAX,
    ensures
        s.free.contains(p as u64),
{
    lemma_capacity(c);
    if !s.free.contains(p as u64) {
        HeapView::lemma_room(f, c, s, p as u64);
    }
}

impl HeapView {
    /// Giving back a page that holds no object leaves every object alone.
    proof fn lemma_drop_keeps(self, f: BuddyState, c: int, i: int, lo: int, hi: int)
        requires
            self.wf(f),
            f.wf(),
            f.base % 4096 == 0,
            0 <= c < CLASSES,
            0 <= i < self.classes[c].len(),
            unused(c, self.classes[c][i]),
            self.owns(f, lo, hi),
        ensures
            self.with_class(c, self.classes[c].remove(i)).owns(
                f.after_free(f.index(self.classes[c][i].page as int)),
                lo,
                hi,
            ),
    {
        let page = self.classes[c][i].page as int;
        let g = f.after_free(f.index(page));
        let v = self.with_class(c, self.classes[c].remove(i));
        assert(slab_ok(f, c, self.classes[c][i]));
        law_allocated_can_free(f, page, 0);
        if exists|d: int, j: int| #[trigger] self.slot_live(d, j, lo) && hi == lo + class_size(d) {
            let (d, j) = choose|d: int, j: int| #[trigger]
                self.slot_live(d, j, lo) && hi == lo + class_size(d);
            if d == c && j == i {
                lemma_unused(f, c, self.classes[c][i], lo);
            }
            let m = if d == c && j > i {
                j - 1
            } else {
                j
            };
            assert(v.classes[d][m] == self.classes[d][j]);
            assert(v.slot_live(d, m, lo));
        } else {
            let (k, o) = choose|k: int, o: int| #[trigger]
                self.large_live(f, k, o, lo) && hi == self.large[k].1 + block_pages(o) * 4096;
            assert(self.large[k].1 != self.classes[c][i].page);
            law_free_ends_one(f, page, self.large[k].1 as int, o);
            assert(v.large_live(g, k, o, lo));
        }
    }
}

/// Every object stays handed out.
pub open spec fn keeps(h: HeapView, f: BuddyState, w: HeapView, g: BuddyState) -> bool {
    forall|lo: int, hi: int| #[trigger] h.owns(f, lo, hi) ==> w.owns(g, lo, hi)
}

/// The address is that of an object that was not handed out before, and that has room for `size`
/// bytes.
pub open spec fn is_new(
    h: HeapView,
    f: BuddyState,
    w: HeapView,
    g: BuddyState,
    p: int,
    size: int,
) -> bool {
    &&& exists|hi: int| #[trigger] w.owns(g, p, hi) && p + size <= hi
    &&& forall|hi: int| !#[trigger] h.owns(f, p, hi)
}

/// A slot that was free is handed out.
proof fn lemma_slot_new(h: HeapView, f: BuddyState, c: int, i: int)
    requires
        f.wf(),
        h.wf(f),
        0 <= c < CLASSES,
        0 <= i < h.classes[c].len(),
        h.classes[c][i].free.len() > 0,
    ensures
        keeps(h, f, h.taken(c, i).0, f),
        is_new(h, f, h.taken(c, i).0, f, h.taken(c, i).1 as int, class_size(c)),
        slot_of(c, h.classes[c][i].page as int, h.taken(c, i).1 as int),
{
    let (w, p) = h.taken(c, i);
    let s = h.classes[c][i];
    let t = w.classes[c][i];
    lemma_block_pages_values();
    lemma_capacity(c);
    assert(slab_ok(f, c, h.classes[c][i]));
    assert(s.free[s.free.len() - 1] == p);
    assert(s.free.contains(p));
    assert(!t.free.contains(p)) by {
        if t.free.contains(p) {
            let k = choose|k: int| 0 <= k < t.free.len() && t.free[k] == p;
            assert(s.free[k] != s.free[s.free.len() - 1]);
        }
    }
    assert(w.slot_live(c, i, p as int));
    assert(w.owns(f, p as int, p + class_size(c)));
    assert forall|lo: int, hi: int| #[trigger] h.owns(f, lo, hi) implies w.owns(f, lo, hi) by {
        if exists|d: int, j: int| #[trigger] h.slot_live(d, j, lo) && hi == lo + class_size(d) {
            let (d, j) = choose|d: int, j: int| #[trigger]
                h.slot_live(d, j, lo) && hi == lo + class_size(d);
            lemma_capacity(d);
            if d == c && j == i {
                assert(0 <= lo <= u64::MAX);
                if t.free.contains(lo as u64) {
                    let k = choose|k: int| 0 <= k < t.free.len() && t.free[k] == lo as u64;
                    assert(s.free[k] == lo as u64);
                }
            }
            assert(w.slot_live(d, j, lo));
        } else {
            let (k, o) = choose|k: int, o: int| #[trigger]
                h.large_live(f, k, o, lo) && hi == h.large[k].1 + block_pages(o) * 4096;
            assert(w.large_live(f, k, o, lo));
        }
    }
    assert forall|hi: int| !#[trigger] h.owns(f, p as int, hi) by {
        if h.owns(f, p as int, hi) {
            if exists|d: int, j: int| #[trigger]
                h.slot_live(d, j, p as int) && hi == p + class_size(d) {
                let (d, j) = choose|d: int, j: int| #[trigger]
                    h.slot_live(d, j, p as int) && hi == p + class_size(d);
                let y = h.classes[d][j];
                assert(slab_ok(f, d, h.classes[d][j]));
                lemma_capacity(d);
                if y.page != s.page {
                    law_no_overlap(f, s.page as int, 0, y.page as int, 0);
                }
            } else {
                let (k, o) = choose|k: int, o: int| #[trigger]
                    h.large_live(f, k, o, p as int) && hi == h.large[k].1 + block_pages(o) * 4096;
                lemma_slot_large(h, f, c, i, k, o, p as int);
            }
        }
    }
}

/// A list got another page.
proof fn lemma_grown_keeps(h: HeapView, f: BuddyState, g: BuddyState, c: int, page: u64)
    requires
        h.wf(f),
        0 <= c < CLASSES,
        forall|p: int, o: int| f.allocated(p, o) ==> #[trigger] g.allocated(p, o),
    ensures
        keeps(h, f, h.grown(c, page), g),
{
    let w = h.grown(c, page);
    assert forall|lo: int, hi: int| #[trigger] h.owns(f, lo, hi) implies w.owns(g, lo, hi) by {
        if exists|d: int, j: int| #[trigger] h.slot_live(d, j, lo) && hi == lo + class_size(d) {
            let (d, j) = choose|d: int, j: int| #[trigger]
                h.slot_live(d, j, lo) && hi == lo + class_size(d);
            assert(w.classes[d][j] == h.classes[d][j]);
            assert(w.slot_live(d, j, lo));
        } else {
            let (k, o) = choose|k: int, o: int| #[trigger]
                h.large_live(f, k, o, lo) && hi == h.large[k].1 + block_pages(o) * 4096;
            assert(g.allocated(h.large[k].1 as int, o));
            assert(w.large_live(g, k, o, lo));
        }
    }
}

/// A large object is handed out.
proof fn lemma_large_new(h: HeapView, f: BuddyState, g: BuddyState, p: u64, block: u64, o: int, size: int)
    requires
        f.wf(),
        g.wf(),
        h.wf(f),
        0 <= o <= MAX_ORDER,
        g.allocated(block as int, o),
        block + NOTE <= p,
        p + size <= block + block_pages(o) * 4096,
        size > 0,
        forall|q: int, r: int| f.allocated(q, r) ==> #[trigger] g.allocated(q, r) && q != block,
    ensures
        keeps(h, f, HeapView { large: h.large.push((p, block)), ..h }, g),
        is_new(h, f, HeapView { large: h.large.push((p, block)), ..h }, g, p as int, size),
{
    let w = HeapView { large: h.large.push((p, block)), ..h };
    let n = h.large.len() as int;
    lemma_block_pages_values();
    assert forall|lo: int, hi: int| #[trigger] h.owns(f, lo, hi) implies w.owns(g, lo, hi) by {
        if exists|d: int, j: int| #[trigger] h.slot_live(d, j, lo) && hi == lo + class_size(d) {
            let (d, j) = choose|d: int, j: int| #[trigger]
                h.slot_live(d, j, lo) && hi == lo + class_size(d);
            assert(w.slot_live(d, j, lo));
        } else {
            let (k, r) = choose|k: int, r: int| #[trigger]
                h.large_live(f, k, r, lo) && hi == h.large[k].1 + block_pages(r) * 4096;
            assert(w.large[k] == h.large[k]);
            assert(g.allocated(h.large[k].1 as int, r));
            assert(w.large_live(g, k, r, lo));
        }
    }
    assert(w.large_live(g, n, o, p as int));
    assert(w.owns(g, p as int, block + block_pages(o) * 4096));
    assert forall|hi: int| !#[trigger] h.owns(f, p as int, hi) by {
        if h.owns(f, p as int, hi) {
            if exists|d: int, j: int| #[trigger]
                h.slot_live(d, j, p as int) && hi == p + class_size(d) {
                let (d, j) = choose|d: int, j: int| #[trigger]
                    h.slot_live(d, j, p as int) && hi == p + class_size(d);
                let y = h.classes[d][j];
                assert(slab_ok(f, d, h.classes[d][j]));
                lemma_capacity(d);
                assert(g.allocated(y.page as int, 0));
                law_no_overlap(g, block as int, o, y.page as int, 0);
            } else {
                let (k, r) = choose|k: int, r: int| #[trigger]
                    h.large_live(f, k, r, p as int) && hi == h.large[k].1 + block_pages(r) * 4096;
                assert(large_ok(f, h.large[k]));
                let e = h.large[k];
                let q = choose|q: int| #[trigger]
                    f.allocated(e.1 as int, q) && e.1 + NOTE <= e.0 < e.1 + block_pages(q) * 4096;
                assert(q == r);
                assert(g.allocated(e.1 as int, r));
                law_no_overlap(g, block as int, o, e.1 as int, r);
            }
        }
    }
}

/// Pages begin at multiples of their size.
proof fn lemma_page_aligned(f: BuddyState, c: int, s: SlabView)
    requires
        slab_ok(f, c, s),
        f.base % 4096 == 0,
    ensures
        s.page as int % 4096 == 0,
{
    let i = f.index(s.page as int);
    assert((f.base + i * 4096) % 4096 == f.base % 4096);
}

/// A slot of a class is aligned as objects of the class have to be.
proof fn lemma_slot_aligned(c: int, page: int, s: int, align: int)
    requires
        0 <= c < CLASSES,
        page % 4096 == 0,
        slot_of(c, page, s),
        is_alignment(align),
        align <= class_size(c),
    ensures
        s % align == 0,
{
    let k = choose|k: int| 0 <= k < 64 && align == #[trigger] block_pages(k);
    lemma_capacity(c);
    lemma_sizes();
    lemma_block_pages_pos(k);
    let z = class_size(c);
    assert(class_size(c) == block_pages(c + 4)) by {
        crate::tiling::lemma_block_pages_split(4, c + 4);
        lemma_block_pages_values();
    }
    if k > c + 4 {
        crate::tiling::lemma_block_pages_split(c + 4, k);
        lemma_block_pages_pos(k - (c + 4) - 1);
        lemma_block_pages_pos(c + 4);
        let m = block_pages(k - (c + 4));
        assert(m >= 2);
        assert(z * m >= 2 * z) by (nonlinear_arith)
            requires
                m >= 2,
                z >= 16,
        ;
        assert(false);
    }
    crate::tiling::lemma_block_pages_split(k, c + 4);
    let m = block_pages(c + 4 - k);
    // z == align * m
    let a = (s - page) / z;
    let b = page / 4096;
    let n = capacity(c) + 1;
    assert(s - page == a * z) by (nonlinear_arith)
        requires
            a == (s - page) / z,
            (s - page) % z == 0,
            z >= 16,
    ;
    assert(s == (b * n * m + a * m) * align) by (nonlinear_arith)
        requires
            s - page == a * z,
            page == b * 4096,
            n * z == 4096,
            z == align * m,
    {
        assert(s - page == a * z);
    }
    assert(((b * n * m + a * m) * align) % align == 0) by (nonlinear_arith)
        requires
            align > 0,
    ;
}

/// A slot that is handed out is found by its address.
proof fn lemma_slot_found(h: HeapView, f: BuddyState, c: int, i: int, p: u64)
    requires
        f.wf(),
        f.base % 4096 == 0,
        h.wf(f),
        h.slot_live(c, i, p as int),
    ensures
        h.classes[c][i].page == p - p % 4096,
        h.slab_at(p - p % 4096, 0) == Some((c, i)),
        f.base <= p - p % 4096 < f.addr(f.pages),
{
    lemma_capacity(c);
    lemma_block_pages_values();
    let x = h.classes[c][i];
    assert(slab_ok(f, c, h.classes[c][i]));
    lemma_page_aligned(f, c, x);
    law_block_placement(f, x.page as int, 0);
    assert(x.page == p - p % 4096);
    h.lemma_slab_at(x.page as int, 0);
    let (d, j) = h.slab_at(x.page as int, 0)->0;
    assert(h.classes[d][j].page == h.classes[c][i].page);
}

/// A large object is found by its address.
proof fn lemma_large_found(h: HeapView, f: BuddyState, k: int, o: int, p: u64)
    requires
        f.wf(),
        f.base % 4096 == 0,
        h.wf(f),
        h.large_live(f, k, o, p as int),
    ensures
        h.slab_at(p - p % 4096, 0) is None,
        h.large_at(p, 0) == k,
        f.base <= p - p % 4096 < f.addr(f.pages),
        h.large[k].1 <= p - p % 4096 < h.large[k].1 + block_pages(o) * 4096,
{
    lemma_block_pages_values();
    let b = h.large[k].1 as int;
    let page = p - p % 4096;
    assert(large_ok(f, h.large[k]));
    law_block_placement(f, b, o);
    assert((f.base + f.index(b) * 4096) % 4096 == f.base % 4096);
    assert(b % 4096 == 0);
    assert(b <= page < b + block_pages(o) * 4096);
    h.lemma_slab_at(page, 0);
    if let Some((c, i)) = h.slab_at(page, 0) {
        assert(slab_ok(f, c, h.classes[c][i]));
        assert(h.large[k].1 != h.classes[c][i].page);
        law_no_overlap(f, page, 0, b, o);
    }
    h.lemma_large_at(p, 0);
    let m = h.large_at(p, 0);
    assert(m < h.large.len());
    assert(large_ok(f, h.large[m]));
    let e = h.large[m];
    let r = choose|r: int| #[trigger]
        f.allocated(e.1 as int, r) && e.1 + NOTE <= e.0 < e.1 + block_pages(r) * 4096;
    if m != k {
        if m < k {
            assert(h.large[m].1 != h.large[k].1);
        } else {
            assert(h.large[k].1 != h.large[m].1);
        }
        law_no_overlap(f, e.1 as int, r, b, o);
    }
}

/// Law: an object that is handed out can be given back. It is no longer handed out then, and every
/// other object still is.
pub proof fn law_free_ends_one_object(h: HeapView, f: BuddyState, p: u64, end: int, size: int)
    requires
        f.wf(),
        f.base % 4096 == 0,
        h.wf(f),
        h.owns(f, p as int, end),
        size > 0,
    ensures
        h.given_back(f, p, size).2 == Ok::<(), HeapError>(()),
        forall|hi: int|
            !#[trigger] h.given_back(f, p, size).0.owns(h.given_back(f, p, size).1, p as int, hi),
        forall|lo: int, hi: int| #[trigger]
            h.owns(f, lo, hi) && lo != p ==> h.given_back(f, p, size).0.owns(
                h.given_back(f, p, size).1,
                lo,
                hi,
            ),
{
    let (w, g, r) = h.given_back(f, p, size);
    if exists|c: int, i: int| #[trigger] h.slot_live(c, i, p as int) && end == p + class_size(c) {
        let (c, i) = choose|c: int, i: int| #[trigger]
            h.slot_live(c, i, p as int) && end == p + class_size(c);
        lemma_slot_found(h, f, c, i, p);
        lemma_slot_back(h, f, c, i, p, size);
    } else {
        let (k, o) = choose|k: int, o: int| #[trigger]
            h.large_live(f, k, o, p as int) && end == h.large[k].1 + block_pages(o) * 4096;
        lemma_large_found(h, f, k, o, p);
        lemma_large_back(h, f, k, o, p, size);
    }
}

/// A slot that was given back is free, and the other objects are not.
proof fn lemma_slot_back(h: HeapView, f: BuddyState, c: int, i: int, p: u64, size: int)
    requires
        f.wf(),
        f.base % 4096 == 0,
        h.wf(f),
        h.slot_live(c, i, p as int),
        h.slab_at(p - p % 4096, 0) == Some((c, i)),
        h.classes[c][i].page == p - p % 4096,
        f.base <= p - p % 4096 < f.addr(f.pages),
        size > 0,
    ensures
        h.given_back(f, p, size).2 == Ok::<(), HeapError>(()),
        forall|hi: int|
            !#[trigger] h.given_back(f, p, size).0.owns(h.given_back(f, p, size).1, p as int, hi),
        forall|lo: int, hi: int| #[trigger]
            h.owns(f, lo, hi) && lo != p ==> h.given_back(f, p, size).0.owns(
                h.given_back(f, p, size).1,
                lo,
                hi,
            ),
{
    let (w, g, r) = h.given_back(f, p, size);
    let s = h.classes[c][i];
    let t = SlabView { free: s.free.push(p), ..s };
    assert(w.classes[c] =~= h.classes[c].update(i, t));
    assert(w.classes[c][i] == t);
    assert(t.free[s.free.len() as int] == p);
    assert(t.free.contains(p));
    assert forall|hi: int| !#[trigger] w.owns(g, p as int, hi) by {
        if exists|d: int, j: int| #[trigger] w.slot_live(d, j, p as int) && hi == p + class_size(d) {
            let (d, j) = choose|d: int, j: int| #[trigger]
                w.slot_live(d, j, p as int) && hi == p + class_size(d);
            if d == c && j == i {
                assert(false);
            } else {
                assert(w.classes[d][j] == h.classes[d][j]);
                assert(h.slot_live(d, j, p as int));
                lemma_slot_found(h, f, d, j, p);
            }
        }
        if exists|k: int, o: int| #[trigger]
            w.large_live(g, k, o, p as int) && hi == w.large[k].1 + block_pages(o) * 4096 {
            let (k, o) = choose|k: int, o: int| #[trigger]
                w.large_live(g, k, o, p as int) && hi == w.large[k].1 + block_pages(o) * 4096;
            assert(h.large_live(f, k, o, p as int));
            lemma_large_found(h, f, k, o, p);
        }
    }
    assert forall|lo: int, hi: int| #[trigger] h.owns(f, lo, hi) && lo != p implies w.owns(g, lo, hi) by {
        if exists|d: int, j: int| #[trigger] h.slot_live(d, j, lo) && hi == lo + class_size(d) {
            let (d, j) = choose|d: int, j: int| #[trigger]
                h.slot_live(d, j, lo) && hi == lo + class_size(d);
            lemma_capacity(d);
            if d == c && j == i {
                assert(0 <= lo <= u64::MAX);
                if t.free.contains(lo as u64) {
                    let m = choose|m: int| 0 <= m < t.free.len() && t.free[m] == lo as u64;
                    if m < s.free.len() {
                        assert(s.free[m] == lo as u64);
                    }
                }
            } else {
                assert(w.classes[d][j] == h.classes[d][j]);
            }
            assert(w.slot_live(d, j, lo));
        } else {
            let (k, o) = choose|k: int, o: int| #[trigger]
                h.large_live(f, k, o, lo) && hi == h.large[k].1 + block_pages(o) * 4096;
            assert(w.large_live(g, k, o, lo));
        }
    }
}

/// The block of a large object that was given back is free, and the other objects stay.
proof fn lemma_large_back(h: HeapView, f: BuddyState, k: int, o: int, p: u64, size: int)
    requires
        f.wf(),
        f.base % 4096 == 0,
        h.wf(f),
        h.large_live(f, k, o, p as int),
        h.slab_at(p - p % 4096, 0) is None,
        h.large_at(p, 0) == k,
        f.base <= p - p % 4096 < f.addr(f.pages),
        size > 0,
    ensures
        h.given_back(f, p, size).2 == Ok::<(), HeapError>(()),
        forall|hi: int|
            !#[trigger] h.given_back(f, p, size).0.owns(h.given_back(f, p, size).1, p as int, hi),
        forall|lo: int, hi: int| #[trigger]
            h.owns(f, lo, hi) && lo != p ==> h.given_back(f, p, size).0.owns(
                h.given_back(f, p, size).1,
                lo,
                hi,
            ),
{
    let (w, g, r) = h.given_back(f, p, size);
    let b = h.large[k].1 as int;
    law_allocated_can_free(f, b, o);
    assert forall|hi: int| !#[trigger] w.owns(g, p as int, hi) by {
        if exists|d: int, j: int| #[trigger] w.slot_live(d, j, p as int) && hi == p + class_size(d) {
            let (d, j) = choose|d: int, j: int| #[trigger]
                w.slot_live(d, j, p as int) && hi == p + class_size(d);
            assert(h.slot_live(d, j, p as int));
            lemma_slot_found(h, f, d, j, p);
        }
        if exists|m: int, q: int| #[trigger]
            w.large_live(g, m, q, p as int) && hi == w.large[m].1 + block_pages(q) * 4096 {
            let (m, q) = choose|m: int, q: int| #[trigger]
                w.large_live(g, m, q, p as int) && hi == w.large[m].1 + block_pages(q) * 4096;
            let x = if m < k {
                m
            } else {
                m + 1
            };
            assert(w.large[m] == h.large[x]);
            law_free_ends_one(f, b, h.large[x].1 as int, q);
            assert(h.large_live(f, x, q, p as int));
            lemma_large_found(h, f, x, q, p);
        }
    }
    assert forall|lo: int, hi: int| #[trigger] h.owns(f, lo, hi) && lo != p implies w.owns(g, lo, hi) by {
        if exists|d: int, j: int| #[trigger] h.slot_live(d, j, lo) && hi == lo + class_size(d) {
            let (d, j) = choose|d: int, j: int| #[trigger]
                h.slot_live(d, j, lo) && hi == lo + class_size(d);
            assert(w.slot_live(d, j, lo));
        } else {
            let (m, q) = choose|m: int, q: int| #[trigger]
                h.large_live(f, m, q, lo) && hi == h.large[m].1 + block_pages(q) * 4096;
            let y = if m < k {
                m
            } else {
                m - 1
            };
            assert(m != k);
            assert(w.large[y] == h.large[m]);
            if m < k {
                assert(h.large[m].1 != h.large[k].1);
            } else {
                assert(h.large[k].1 != h.large[m].1);
            }
            law_free_ends_one(f, b, h.large[m].1 as int, q);
            assert(w.large_live(g, y, q, lo));
        }
    }
}

} // verus!
