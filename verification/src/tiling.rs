//! Arithmetic of power-of-two blocks: alignment, buddies and tilings of a page range.

use vstd::prelude::*;

verus! {

/// Largest block order: a block holds at most `2^12` pages.
pub const MAX_ORDER: usize = 12;

/// Number of pages in a block of order `o`.
pub open spec fn block_pages(o: int) -> int
    decreases o,
{
    if o <= 0 {
        1
    } else {
        2 * block_pages(o - 1)
    }
}

/// Page index `h` may be the head of a block of order `o`.
pub open spec fn aligned(h: int, o: int) -> bool {
    h % block_pages(o) == 0
}

/// The other half of the block of order `o + 1` that holds block `(h, o)`.
pub open spec fn buddy(h: int, o: int) -> int {
    if aligned(h, o + 1) {
        h + block_pages(o)
    } else {
        h - block_pages(o)
    }
}

/// Head of the block of order `o + 1` that holds block `(h, o)`.
pub open spec fn parent(h: int, o: int) -> int {
    if aligned(h, o + 1) {
        h
    } else {
        h - block_pages(o)
    }
}

/// A block: head page index and order.
pub type Block = (int, int);

/// Page `p` lies in block `b`.
pub open spec fn in_block(b: Block, p: int) -> bool {
    b.0 <= p < b.0 + block_pages(b.1)
}

/// Blocks `a` and `b` share no page.
pub open spec fn disjoint(a: Block, b: Block) -> bool {
    a.0 + block_pages(a.1) <= b.0 || b.0 + block_pages(b.1) <= a.0
}

/// Block `b` is a legal block inside the pages `[0, n)`.
pub open spec fn fits(b: Block, n: int) -> bool {
    0 <= b.1 <= MAX_ORDER && 0 <= b.0 && aligned(b.0, b.1) && b.0 + block_pages(b.1) <= n
}

/// The blocks are legal, pairwise disjoint, and cover exactly the pages of `[0, n)` outside `holes`.
pub open spec fn tiles(blocks: Set<Block>, holes: Set<int>, n: int) -> bool {
    &&& forall|b: Block| blocks.contains(b) ==> #[trigger] fits(b, n)
    &&& forall|a: Block, b: Block|
        #![trigger blocks.contains(a), blocks.contains(b)]
        blocks.contains(a) && blocks.contains(b) && a != b ==> disjoint(a, b)
    &&& forall|b: Block, p: int|
        #![trigger blocks.contains(b), holes.contains(p)]
        blocks.contains(b) && in_block(b, p) ==> !holes.contains(p)
    &&& forall|p: int| 0 <= p < n && !holes.contains(p) ==> #[trigger] covered(blocks, p)
}

/// Some block holds page `p`.
pub open spec fn covered(blocks: Set<Block>, p: int) -> bool {
    exists|b: Block| #[trigger] blocks.contains(b) && in_block(b, p)
}

pub proof fn lemma_block_pages_pos(o: int)
    ensures
        block_pages(o) >= 1,
        o >= 0 ==> block_pages(o + 1) == 2 * block_pages(o),
    decreases o,
{
    if o > 0 {
        lemma_block_pages_pos(o - 1);
    }
}

pub proof fn lemma_block_pages_split(a: int, b: int)
    requires
        0 <= a <= b,
    ensures
        block_pages(b) == block_pages(a) * block_pages(b - a),
        block_pages(a) <= block_pages(b),
    decreases b,
{
    lemma_block_pages_pos(a);
    lemma_block_pages_pos(b - a);
    if a == b {
        assert(block_pages(a) * 1 == block_pages(a)) by (nonlinear_arith);
    } else {
        lemma_block_pages_split(a, b - 1);
        let x = block_pages(a);
        let y = block_pages(b - 1 - a);
        assert(2 * (x * y) == x * (2 * y)) by (nonlinear_arith);
        assert(block_pages(b) >= block_pages(b - 1)) by {
            lemma_block_pages_pos(b - 1);
        }
    }
}

/// The orders in use have these sizes.
pub proof fn lemma_block_pages_values()
    ensures
        block_pages(0) == 1,
        block_pages(1) == 2,
        block_pages(2) == 4,
        block_pages(3) == 8,
        block_pages(4) == 16,
        block_pages(5) == 32,
        block_pages(6) == 64,
        block_pages(7) == 128,
        block_pages(8) == 256,
        block_pages(9) == 512,
        block_pages(10) == 1024,
        block_pages(11) == 2048,
        block_pages(12) == 4096,
{
    reveal_with_fuel(block_pages, 14);
}

/// Two aligned blocks either nest or are disjoint.
pub proof fn lemma_nest(a: Block, b: Block)
    requires
        0 <= a.1 <= b.1,
        aligned(a.0, a.1),
        aligned(b.0, b.1),
    ensures
        disjoint(a, b) || (b.0 <= a.0 && a.0 + block_pages(a.1) <= b.0 + block_pages(b.1)),
{
    lemma_block_pages_split(a.1, b.1);
    lemma_block_pages_pos(a.1);
    lemma_block_pages_pos(b.1);
    lemma_block_pages_pos(b.1 - a.1);
    let n = block_pages(a.1);
    let k = block_pages(b.1 - a.1);
    let m = block_pages(b.1);
    let x = a.0 / n;
    let y = b.0 / m;
    assert(a.0 == n * x && b.0 == m * y) by {
        vstd::arithmetic::div_mod::lemma_fundamental_div_mod(a.0, n);
        vstd::arithmetic::div_mod::lemma_fundamental_div_mod(b.0, m);
    }
    assert(m * y == n * (k * y)) by (nonlinear_arith)
        requires
            m == n * k,
    ;
    if !disjoint(a, b) {
        let z = k * y;
        assert(x < z + k && z <= x) by (nonlinear_arith)
            requires
                n * x < n * z + n * k,
                n * z < n * x + n,
                n >= 1,
        ;
        assert(n * z <= n * x && n * x + n <= n * z + n * k) by (nonlinear_arith)
            requires
                x < z + k,
                z <= x,
                n >= 1,
        ;
    }
}

/// The two halves of an aligned block are aligned, and a buddy pair makes up its parent.
pub proof fn lemma_buddy(h: int, o: int)
    requires
        0 <= o,
        0 <= h,
        aligned(h, o),
    ensures
        aligned(buddy(h, o), o),
        0 <= buddy(h, o),
        0 <= parent(h, o),
        aligned(parent(h, o), o + 1),
        buddy(buddy(h, o), o) == h,
        parent(buddy(h, o), o) == parent(h, o),
        parent(h, o) == h || parent(h, o) == buddy(h, o),
        h == parent(h, o) ==> buddy(h, o) == h + block_pages(o),
        h != parent(h, o) ==> buddy(h, o) == h - block_pages(o),
{
    lemma_block_pages_pos(o);
    let n = block_pages(o);
    let x = h / n;
    vstd::arithmetic::div_mod::lemma_fundamental_div_mod(h, n);
    assert(h == n * x);
    let q = h / (2 * n);
    let r = h % (2 * n);
    vstd::arithmetic::div_mod::lemma_fundamental_div_mod(h, 2 * n);
    assert(h == (2 * n) * q + r);
    assert(0 <= r < 2 * n);
    assert(r == 0 || r == n) by (nonlinear_arith)
        requires
            n * x == (2 * n) * q + r,
            0 <= r < 2 * n,
            n >= 1,
    {
        let d = x - 2 * q;
        assert(n * d == r);
        assert(d < 2 && d >= 0);
    }
    assert((h + n) % n == 0 && (h - n) % n == 0) by {
        assert(h + n == n * (x + 1)) by (nonlinear_arith)
            requires
                h == n * x,
        ;
        assert(h - n == n * (x - 1)) by (nonlinear_arith)
            requires
                h == n * x,
        ;
        vstd::arithmetic::div_mod::lemma_mod_multiples_basic(x + 1, n);
        vstd::arithmetic::div_mod::lemma_mod_multiples_basic(x - 1, n);
        assert(n * (x + 1) == (x + 1) * n) by (nonlinear_arith);
        assert(n * (x - 1) == (x - 1) * n) by (nonlinear_arith);
    }
    assert(0 <= q) by (nonlinear_arith)
        requires
            h == (2 * n) * q + r,
            0 <= h,
            0 <= r < 2 * n,
            n >= 1,
    ;
    assert((2 * n) * q >= 0) by (nonlinear_arith)
        requires
            q >= 0,
            n >= 1,
    ;
    if r == 0 {
        assert((h + n) % (2 * n) == n) by {
            assert(h + n == q * (2 * n) + n) by (nonlinear_arith)
                requires
                    h == (2 * n) * q,
            ;
            vstd::arithmetic::div_mod::lemma_fundamental_div_mod_converse(h + n, 2 * n, q, n);
        }
    } else {
        assert((h - n) % (2 * n) == 0) by {
            assert(h - n == q * (2 * n)) by (nonlinear_arith)
                requires
                    h == (2 * n) * q + n,
            ;
            vstd::arithmetic::div_mod::lemma_mod_multiples_basic(q, 2 * n);
        }
    }
}

/// An aligned head stays aligned for smaller orders, and so does the middle of its block.
pub proof fn lemma_halves(h: int, o: int)
    requires
        0 <= o,
        0 <= h,
        aligned(h, o + 1),
    ensures
        aligned(h, o),
        aligned(h + block_pages(o), o),
        buddy(h, o) == h + block_pages(o),
        parent(h, o) == h,
        buddy(h + block_pages(o), o) == h,
        parent(h + block_pages(o), o) == h,
{
    lemma_block_pages_pos(o);
    let n = block_pages(o);
    let q = h / (2 * n);
    vstd::arithmetic::div_mod::lemma_fundamental_div_mod(h, 2 * n);
    assert(h == (2 * q) * n) by (nonlinear_arith)
        requires
            h == (2 * n) * q,
    ;
    vstd::arithmetic::div_mod::lemma_mod_multiples_basic(2 * q, n);
    lemma_buddy(h, o);
}

/// Splitting a block into its two halves keeps a tiling.
pub proof fn lemma_split(blocks: Set<Block>, holes: Set<int>, n: int, h: int, o: int)
    requires
        tiles(blocks, holes, n),
        blocks.contains((h, o + 1)),
        0 <= o,
    ensures
        tiles(
            blocks.remove((h, o + 1)).insert((h, o)).insert((h + block_pages(o), o)),
            holes,
            n,
        ),
{
    let whole = (h, o + 1);
    let lo = (h, o);
    let hi = (h + block_pages(o), o);
    let after = blocks.remove(whole).insert(lo).insert(hi);
    assert(fits(whole, n));
    lemma_block_pages_pos(o);
    lemma_halves(h, o);
    assert forall|b: Block| after.contains(b) implies #[trigger] fits(b, n) by {
        if b != lo && b != hi {
            assert(blocks.contains(b));
        }
    }
    assert forall|a: Block, b: Block|
        #![trigger after.contains(a), after.contains(b)]
        after.contains(a) && after.contains(b) && a != b implies disjoint(a, b) by {
        if a != lo && a != hi {
            assert(blocks.contains(a));
            assert(disjoint(a, whole));
        }
        if b != lo && b != hi {
            assert(blocks.contains(b));
            assert(disjoint(b, whole));
        }
    }
    assert forall|b: Block, p: int|
        #![trigger after.contains(b), holes.contains(p)]
        after.contains(b) && in_block(b, p) implies !holes.contains(p) by {
        if b == lo || b == hi {
            assert(in_block(whole, p));
        } else {
            assert(blocks.contains(b));
        }
    }
    assert forall|p: int| 0 <= p < n && !holes.contains(p) implies #[trigger] covered(
        after,
        p,
    ) by {
        assert(covered(blocks, p));
        let b = choose|b: Block| #[trigger] blocks.contains(b) && in_block(b, p);
        if b == whole {
            if in_block(lo, p) {
                assert(after.contains(lo));
            } else {
                assert(after.contains(hi) && in_block(hi, p));
            }
        } else {
            assert(after.contains(b));
        }
    }
}

/// Joining a buddy pair into its parent keeps a tiling.
pub proof fn lemma_merge(blocks: Set<Block>, holes: Set<int>, n: int, h: int, o: int)
    requires
        tiles(blocks, holes, n),
        blocks.contains((h, o)),
        blocks.contains((buddy(h, o), o)),
        o < MAX_ORDER,
    ensures
        tiles(
            blocks.remove((h, o)).remove((buddy(h, o), o)).insert((parent(h, o), o + 1)),
            holes,
            n,
        ),
{
    let x = (h, o);
    let y = (buddy(h, o), o);
    let whole = (parent(h, o), o + 1);
    let after = blocks.remove(x).remove(y).insert(whole);
    assert(fits(x, n));
    assert(fits(y, n));
    lemma_block_pages_pos(o);
    lemma_buddy(h, o);
    assert(fits(whole, n));
    assert forall|b: Block| after.contains(b) implies #[trigger] fits(b, n) by {
        if b != whole {
            assert(blocks.contains(b));
        }
    }
    assert forall|a: Block, b: Block|
        #![trigger after.contains(a), after.contains(b)]
        after.contains(a) && after.contains(b) && a != b implies disjoint(a, b) by {
        if a != whole && b != whole {
            assert(blocks.contains(a) && blocks.contains(b));
        } else {
            let c = if a == whole { b } else { a };
            assert(c != whole);
            assert(blocks.contains(c) && c != x && c != y);
            assert(disjoint(c, x) && disjoint(c, y));
            lemma_block_pages_pos(c.1);
        }
    }
    assert forall|b: Block, p: int|
        #![trigger after.contains(b), holes.contains(p)]
        after.contains(b) && in_block(b, p) implies !holes.contains(p) by {
        if b == whole {
            assert(in_block(x, p) || in_block(y, p));
        } else {
            assert(blocks.contains(b));
        }
    }
    assert forall|p: int| 0 <= p < n && !holes.contains(p) implies #[trigger] covered(
        after,
        p,
    ) by {
        assert(covered(blocks, p));
        let b = choose|b: Block| #[trigger] blocks.contains(b) && in_block(b, p);
        if b == x || b == y {
            assert(after.contains(whole) && in_block(whole, p));
        } else {
            assert(after.contains(b));
        }
    }
}

/// In a tiling, the first page of a block's buddy is a hole or the head of a block no larger.
pub proof fn lemma_buddy_is_head(
    blocks: Set<Block>,
    holes: Set<int>,
    n: int,
    h: int,
    o: int,
) -> (k: int)
    requires
        tiles(blocks, holes, n),
        blocks.contains((h, o)),
        o < MAX_ORDER,
        buddy(h, o) < n,
        !holes.contains(buddy(h, o)),
    ensures
        0 <= k <= o,
        blocks.contains((buddy(h, o), k)),
{
    let b = buddy(h, o);
    assert(fits((h, o), n));
    lemma_block_pages_pos(o);
    lemma_buddy(h, o);
    assert(covered(blocks, b));
    let c = choose|c: Block| #[trigger] blocks.contains(c) && in_block(c, b);
    assert(fits(c, n));
    lemma_block_pages_pos(c.1);
    let whole = (parent(h, o), o + 1);
    if c.1 > o {
        lemma_nest(whole, c);
        assert(c != (h, o));
        assert(disjoint(c, (h, o)));
        assert(false);
    }
    lemma_nest(c, (b, o));
    assert(c.0 == b);
    c.1
}

/// Adding a block right behind a tiled prefix extends the tiling.
pub proof fn lemma_extend_block(blocks: Set<Block>, holes: Set<int>, n: int, b: Block)
    requires
        tiles(blocks, holes, n),
        b.0 == n,
        fits(b, n + block_pages(b.1)),
        forall|p: int| in_block(b, p) ==> !#[trigger] holes.contains(p),
    ensures
        tiles(blocks.insert(b), holes, n + block_pages(b.1)),
{
    let m = n + block_pages(b.1);
    let after = blocks.insert(b);
    lemma_block_pages_pos(b.1);
    assert forall|x: Block| after.contains(x) implies #[trigger] fits(x, m) by {
        if x != b {
            assert(fits(x, n));
        }
    }
    assert forall|x: Block, y: Block|
        #![trigger after.contains(x), after.contains(y)]
        after.contains(x) && after.contains(y) && x != y implies disjoint(x, y) by {
        if x != b {
            assert(fits(x, n));
        }
        if y != b {
            assert(fits(y, n));
        }
    }
    assert forall|p: int| 0 <= p < m && !holes.contains(p) implies #[trigger] covered(
        after,
        p,
    ) by {
        if p < n {
            assert(covered(blocks, p));
            let x = choose|x: Block| #[trigger] blocks.contains(x) && in_block(x, p);
            assert(after.contains(x));
        } else {
            assert(after.contains(b) && in_block(b, p));
        }
    }
}

/// Turning the pages right behind a tiled prefix into holes extends the tiling.
pub proof fn lemma_extend_holes(blocks: Set<Block>, holes: Set<int>, n: int, after: Set<int>, m: int)
    requires
        tiles(blocks, holes, n),
        n <= m,
        forall|p: int| #[trigger]
            after.contains(p) <==> holes.contains(p) || n <= p < m,
    ensures
        tiles(blocks, after, m),
{
    assert forall|x: Block| blocks.contains(x) implies #[trigger] fits(x, m) by {
        assert(fits(x, n));
    }
    assert forall|b: Block, p: int|
        #![trigger blocks.contains(b), after.contains(p)]
        blocks.contains(b) && in_block(b, p) implies !after.contains(p) by {
        assert(fits(b, n));
        assert(!holes.contains(p));
    }
    assert forall|p: int| 0 <= p < m && !after.contains(p) implies #[trigger] covered(
        blocks,
        p,
    ) by {
        assert(!holes.contains(p));
    }
}

} // verus!
