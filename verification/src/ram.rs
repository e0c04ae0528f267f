//! Physical memory as the kernel sees it: a run of 64-bit words from a page boundary on.

use vstd::prelude::*;
use crate::bytes::{le64, le64_at};
use crate::mem::PAGE_SIZE;

verus! {

/// Physical addresses have 56 bits.
pub const PHYS_LIMIT: u64 = 0x100_0000_0000_0000;

/// Words in a page.
pub const PAGE_WORDS: usize = 512;

/// Physical memory.
pub struct Ram {
    /// Address of the first word.
    pub base: u64,
    /// Whole pages of words.
    pub words: Vec<u64>,
}

impl Ram {
    /// The memory consists of whole pages and is addressable.
    pub open spec fn wf(&self) -> bool {
        &&& self.base % PAGE_SIZE == 0
        &&& self.words@.len() % 512 == 0
        &&& self.end() <= PHYS_LIMIT
    }

    /// Address behind the last word.
    pub open spec fn end(&self) -> int {
        self.base + 8 * self.words@.len()
    }

    /// Address `a` is that of a word of this memory.
    pub open spec fn has(&self, a: int) -> bool {
        self.base <= a < self.end() && a % 8 == 0
    }

    /// Address `a` is that of a page of this memory.
    pub open spec fn has_page(&self, a: int) -> bool {
        self.base <= a < self.end() && a % 4096 == 0
    }

    /// The word at address `a`.
    pub open spec fn word(&self, a: int) -> u64 {
        self.words@[(a - self.base) / 8]
    }

    /// The byte at address `a`; a word holds its lowest byte first.
    pub open spec fn byte(&self, a: int) -> int {
        let w = self.word(a - a % 8) as int;
        let k = a % 8;
        if k == 0 {
            w % 256
        } else if k == 1 {
            w / 0x100 % 256
        } else if k == 2 {
            w / 0x1_0000 % 256
        } else if k == 3 {
            w / 0x100_0000 % 256
        } else if k == 4 {
            w / 0x1_0000_0000 % 256
        } else if k == 5 {
            w / 0x100_0000_0000 % 256
        } else if k == 6 {
            w / 0x1_0000_0000_0000 % 256
        } else {
            w / 0x100_0000_0000_0000 % 256
        }
    }

    /// This memory and `other` differ at most in the page at `page`.
    pub open spec fn same_but_page(&self, other: &Ram, page: int) -> bool {
        &&& self.base == other.base
        &&& self.words@.len() == other.words@.len()
        &&& forall|a: int|
            self.has(a) && !(page <= a < page + 4096) ==> #[trigger] self.word(a) == other.word(a)
    }

    /// This memory and `other` differ at most in the word at `addr`.
    pub open spec fn same_but_word(&self, other: &Ram, addr: int) -> bool {
        &&& self.base == other.base
        &&& self.words@.len() == other.words@.len()
        &&& forall|a: int| self.has(a) && a != addr ==> #[trigger] self.word(a) == other.word(a)
    }

    /// Memory of `pages` pages from `base` on, all zero.
    pub fn new(base: u64, pages: usize) -> (r: Ram)
        requires
            base % PAGE_SIZE == 0,
            pages <= 0x10_0000,
            base + pages * PAGE_SIZE <= PHYS_LIMIT,
        ensures
            r.wf(),
            r.base == base,
            r.end() == base + pages * PAGE_SIZE,
            forall|a: int| r.has(a) ==> #[trigger] r.word(a) == 0,
    {
        let n: usize = pages * PAGE_WORDS;
        let mut words: Vec<u64> = Vec::new();
        let mut i: usize = 0;
        while i < n
            invariant
                i <= n,
                words@.len() == i,
                forall|k: int| 0 <= k < i ==> words@[k] == 0,
            decreases n - i,
        {
            words.push(0);
            i += 1;
        }
        Ram { base, words }
    }

    /// Read the word at an address.
    pub fn read(&self, addr: u64) -> (r: u64)
        requires
            self.wf(),
            self.has(addr as int),
        ensures
            r == self.word(addr as int),
    {
        let n: usize = self.words.len();
        assert((addr - self.base) / 8 < n);
        self.words[((addr - self.base) / 8) as usize]
    }

    /// Write the word at an address.
    pub fn write(&mut self, addr: u64, value: u64)
        requires
            old(self).wf(),
            old(self).has(addr as int),
        ensures
            final(self).wf(),
            final(self).word(addr as int) == value,
            final(self).same_but_word(old(self), addr as int),
    {
        let n: usize = self.words.len();
        assert((addr - self.base) / 8 < n);
        let i: usize = ((addr - self.base) / 8) as usize;
        self.words[i] = value;
        proof {
            assert forall|a: int| self.has(a) && a != addr implies #[trigger] self.word(a) == old(
                self,
            ).word(a) by {
                assert((a - self.base) / 8 != (addr - self.base) / 8);
            }
        }
    }

    /// Read the byte at an address.
    pub fn read_byte(&self, addr: u64) -> (r: u8)
        requires
            self.wf(),
            self.base <= addr < self.end(),
        ensures
            r == self.byte(addr as int),
    {
        let k: u64 = addr % 8;
        let w: u64 = self.read(addr - k);
        let b: u64 = if k == 0 {
            w % 256
        } else if k == 1 {
            w / 0x100 % 256
        } else if k == 2 {
            w / 0x1_0000 % 256
        } else if k == 3 {
            w / 0x100_0000 % 256
        } else if k == 4 {
            w / 0x1_0000_0000 % 256
        } else if k == 5 {
            w / 0x100_0000_0000 % 256
        } else if k == 6 {
            w / 0x1_0000_0000_0000 % 256
        } else {
            w / 0x100_0000_0000_0000 % 256
        };
        b as u8
    }

    /// Fill the page at `addr` with zero.
    pub fn zero_page(&mut self, addr: u64)
        requires
            old(self).wf(),
            old(self).has_page(addr as int),
        ensures
            final(self).wf(),
            final(self).same_but_page(old(self), addr as int),
            forall|a: int| addr <= a < addr + 4096 && a % 8 == 0 ==> #[trigger] final(self).word(a) == 0,
    {
        let mut i: usize = 0;
        while i < PAGE_WORDS
            invariant
                i <= PAGE_WORDS,
                self.wf(),
                self.has_page(addr as int),
                self.same_but_page(old(self), addr as int),
                forall|a: int|
                    addr <= a < addr + 8 * i && a % 8 == 0 ==> #[trigger] self.word(a) == 0,
            decreases PAGE_WORDS - i,
        {
            let ghost before = *self;
            self.write(addr + 8 * i as u64, 0);
            proof {
                assert forall|a: int|
                    self.has(a) && !(addr <= a < addr + 4096) implies #[trigger] self.word(a) == old(
                    self,
                ).word(a) by {
                    assert(before.word(a) == self.word(a));
                }
                assert forall|a: int| addr <= a < addr + 8 * (i + 1) && a % 8 == 0 implies #[trigger] self.word(
                    a,
                ) == 0 by {
                    if a != addr + 8 * i {
                        assert(before.word(a) == self.word(a));
                    }
                }
            }
            i += 1;
        }
    }

    /// Fill the page at `addr` with 4096 bytes.
    pub fn write_page(&mut self, addr: u64, data: &[u8])
        requires
            old(self).wf(),
            old(self).has_page(addr as int),
            data@.len() == 4096,
        ensures
            final(self).wf(),
            final(self).same_but_page(old(self), addr as int),
            forall|i: int|
                0 <= i < 512 ==> #[trigger] final(self).word(addr + 8 * i) == le64_at(data@, 8 * i),
    {
        let mut i: usize = 0;
        while i < PAGE_WORDS
            invariant
                i <= PAGE_WORDS,
                data@.len() == 4096,
                self.wf(),
                self.has_page(addr as int),
                self.same_but_page(old(self), addr as int),
                forall|k: int|
                    0 <= k < i ==> #[trigger] self.word(addr + 8 * k) == le64_at(data@, 8 * k),
            decreases PAGE_WORDS - i,
        {
            let ghost before = *self;
            let v: u64 = le64(data, 8 * i);
            self.write(addr + 8 * i as u64, v);
            proof {
                assert forall|a: int|
                    self.has(a) && !(addr <= a < addr + 4096) implies #[trigger] self.word(a) == old(
                    self,
                ).word(a) by {
                    assert(before.word(a) == self.word(a));
                }
                assert forall|k: int| 0 <= k < i + 1 implies #[trigger] self.word(addr + 8 * k)
                    == le64_at(data@, 8 * k) by {
                    if k != i {
                        assert(self.has(addr + 8 * k));
                        assert(before.word(addr + 8 * k) == self.word(addr + 8 * k));
                    }
                }
            }
            i += 1;
        }
    }
}

/// Law: a page that was filled word by word holds the bytes it was filled with.
pub proof fn law_page_bytes(r: Ram, page: int, data: Seq<u8>, k: int)
    requires
        r.wf(),
        page % 4096 == 0,
        data.len() == 4096,
        0 <= k < 4096,
        forall|i: int| 0 <= i < 512 ==> #[trigger] r.word(page + 8 * i) == le64_at(data, 8 * i),
    ensures
        r.byte(page + k) == data[k],
{
    let i = k / 8;
    let j = k % 8;
    assert(r.word(page + 8 * i) == le64_at(data, 8 * i));
    assert((page + k) % 8 == j);
    assert((page + k) - (page + k) % 8 == page + 8 * i);
    assert(data[8 * i + j] == data[k]);
    lemma_le_bytes(
        data[8 * i] as int,
        data[8 * i + 1] as int,
        data[8 * i + 2] as int,
        data[8 * i + 3] as int,
        data[8 * i + 4] as int,
        data[8 * i + 5] as int,
        data[8 * i + 6] as int,
        data[8 * i + 7] as int,
        le64_at(data, 8 * i),
    );
}

proof fn lemma_digit(w: int, low: int, m: int, d: int, high: int)
    requires
        m > 0,
        0 <= low < m,
        0 <= d < 256,
        w == low + m * (d + 256 * high),
    ensures
        (w / m) % 256 == d,
{
    assert(m * (d + 256 * high) == (d + 256 * high) * m) by (nonlinear_arith);
    vstd::arithmetic::div_mod::lemma_fundamental_div_mod_converse(w, m, d + 256 * high, low);
    assert((d + 256 * high) % 256 == d);
}

proof fn lemma_le_bytes(
    d0: int,
    d1: int,
    d2: int,
    d3: int,
    d4: int,
    d5: int,
    d6: int,
    d7: int,
    w: int,
)
    requires
        0 <= d0 < 256,
        0 <= d1 < 256,
        0 <= d2 < 256,
        0 <= d3 < 256,
        0 <= d4 < 256,
        0 <= d5 < 256,
        0 <= d6 < 256,
        0 <= d7 < 256,
        w == (d0 + d1 * 0x100) + (d2 + d3 * 0x100) * 0x1_0000 + ((d4 + d5 * 0x100) + (d6 + d7
            * 0x100) * 0x1_0000) * 0x1_0000_0000,
    ensures
        w % 256 == d0,
        w / 0x100 % 256 == d1,
        w / 0x1_0000 % 256 == d2,
        w / 0x100_0000 % 256 == d3,
        w / 0x1_0000_0000 % 256 == d4,
        w / 0x100_0000_0000 % 256 == d5,
        w / 0x1_0000_0000_0000 % 256 == d6,
        w / 0x100_0000_0000_0000 % 256 == d7,
{
    let h7 = 0int;
    let h6 = d7;
    let h5 = d6 + 256 * h6;
    let h4 = d5 + 256 * h5;
    let h3 = d4 + 256 * h4;
    let h2 = d3 + 256 * h3;
    let h1 = d2 + 256 * h2;
    let h0 = d1 + 256 * h1;
    let l1 = d0;
    let l2 = l1 + 0x100 * d1;
    let l3 = l2 + 0x1_0000 * d2;
    let l4 = l3 + 0x100_0000 * d3;
    let l5 = l4 + 0x1_0000_0000 * d4;
    let l6 = l5 + 0x100_0000_0000 * d5;
    let l7 = l6 + 0x1_0000_0000_0000 * d6;
    lemma_digit(w, 0, 1, d0, h0);
    lemma_digit(w, l1, 0x100, d1, h1);
    lemma_digit(w, l2, 0x1_0000, d2, h2);
    lemma_digit(w, l3, 0x100_0000, d3, h3);
    lemma_digit(w, l4, 0x1_0000_0000, d4, h4);
    lemma_digit(w, l5, 0x100_0000_0000, d5, h5);
    lemma_digit(w, l6, 0x1_0000_0000_0000, d6, h6);
    lemma_digit(w, l7, 0x100_0000_0000_0000, d7, h7);
}

} // verus!
