//! Loader for user programs: static RISC-V ELF64 executables.
//!
//! Parsing checks every field that the loader relies on and allocates nothing. Loading copies the
//! segments into pages of its own, maps them for the user, and builds the initial stack; the
//! physical addresses in the file are ignored. When loading fails, every page it mapped is
//! unmapped and given back.

use vstd::prelude::*;
use crate::bytes::{
    le16, le16_at, le32, le32_at, le64, le64_at, round_down, round_up,
};
use crate::mmu::{
    is_mapped, lookup, lows, map_user_page, mids, missing, table_count, unmap_4k,
    PhysMemory,
};
use crate::process::pid_root;
use crate::shm::tables_only;
use crate::space::{lemma_small, page_addr, plain, small_only, user_page, Spaces};
use crate::sv39::{
    entry_for, key1, lemma_vpn, same_vpn,
    user_flags, vpn2, USER_VA_LIMIT,
};

verus! {

/// Top of the user stack, 64 KiB below the end of the user addresses.
pub const USER_STACK_TOP: u64 = 0x3F_FFFF_0000;

/// Pages of the user stack.
pub const USER_STACK_PAGES: usize = 8;

/// Bytes of the user stack.
pub const USER_STACK_SIZE: usize = 32768;

/// Most arguments of a program.
pub const MAX_ARGS: usize = 16;

/// Why a program cannot be loaded.
#[derive(Debug, Clone, Copy, PartialEq, Eq, Structural)]
pub enum ElfError {
    /// The header, the program headers or a segment reach past the end of the file.
    Truncated,
    BadMagic,
    Not64,
    NotExec,
    NotRiscv,
    /// A segment is malformed, or the arguments do not fit on the stack.
    BadSegment,
    /// Pages are claimed twice.
    Overlap,
    /// A segment reaches past the user addresses.
    AddressTooHigh,
    NoMemory,
    /// There is no memory for page tables.
    MapFailed,
    /// There is no such process.
    BadProcess,
}

/// A segment to load.
#[derive(Debug, Clone, Copy)]
pub struct Segment {
    pub vaddr: u64,
    /// Start of the segment in the file.
    pub offset: u64,
    pub filesz: u64,
    /// At least `filesz`; the rest is zero.
    pub memsz: u64,
    /// Bit 0: execute, bit 1: write, bit 2: read.
    pub flags: u32,
}

/// What the file asks for.
#[derive(Debug)]
pub struct ElfInfo {
    pub entry: u64,
    /// Segments in ascending order of their addresses.
    pub segments: Vec<Segment>,
}

/// A program that is ready to run.
#[derive(Debug, Clone, Copy)]
pub struct LoadedElf {
    pub entry: u64,
    /// Initial stack pointer; it points to the argument count.
    pub stack_top: u64,
    pub argc: usize,
    /// Address of the array of argument pointers.
    pub argv: u64,
}

/// Offset of program header `i`.
pub open spec fn ph_at(b: Seq<u8>, i: int) -> int {
    le64_at(b, 32) + i * 56
}

/// Number of program headers.
pub open spec fn ph_count(b: Seq<u8>) -> int {
    le16_at(b, 56)
}

/// What is wrong with the file header.
pub open spec fn header_error(b: Seq<u8>) -> Option<ElfError> {
    if b.len() < 64 {
        Some(ElfError::Truncated)
    } else if !(b[0] == 0x7f && b[1] == 0x45 && b[2] == 0x4c && b[3] == 0x46) {
        Some(ElfError::BadMagic)
    } else if b[4] != 2 {
        Some(ElfError::Not64)
    } else if le16_at(b, 16) != 2 {
        Some(ElfError::NotExec)
    } else if le16_at(b, 18) != 243 {
        Some(ElfError::NotRiscv)
    } else if ph_at(b, ph_count(b)) > b.len() {
        Some(ElfError::Truncated)
    } else {
        None
    }
}

/// Program header `i` asks for a segment to be loaded.
pub open spec fn is_load(b: Seq<u8>, i: int) -> bool {
    le32_at(b, ph_at(b, i)) == 1
}

/// The segment of program header `i`.
pub open spec fn segment_at(b: Seq<u8>, i: int) -> Segment {
    let at = ph_at(b, i);
    Segment {
        flags: le32_at(b, at + 4) as u32,
        offset: le64_at(b, at + 8) as u64,
        vaddr: le64_at(b, at + 16) as u64,
        filesz: le64_at(b, at + 32) as u64,
        memsz: le64_at(b, at + 40) as u64,
    }
}

/// What is wrong with a segment of a file of `len` bytes.
pub open spec fn segment_error(s: Segment, len: int) -> Option<ElfError> {
    if s.vaddr + s.memsz > USER_VA_LIMIT || s.vaddr >= USER_VA_LIMIT {
        Some(ElfError::AddressTooHigh)
    } else if s.memsz < s.filesz {
        Some(ElfError::BadSegment)
    } else if s.offset + s.filesz > len {
        Some(ElfError::Truncated)
    } else if s.vaddr % 4096 != s.offset % 4096 {
        Some(ElfError::BadSegment)
    } else {
        None
    }
}

/// What is wrong with the first bad segment from program header `i` on.
pub open spec fn segments_error(b: Seq<u8>, i: int) -> Option<ElfError>
    decreases ph_count(b) - i,
{
    if i >= ph_count(b) {
        None
    } else if is_load(b, i) && segment_error(segment_at(b, i), b.len() as int) is Some {
        segment_error(segment_at(b, i), b.len() as int)
    } else {
        segments_error(b, i + 1)
    }
}

/// Number of leading segments whose address is at most `v`.
pub open spec fn rank(s: Seq<Segment>, v: u64) -> int
    decreases s.len(),
{
    if s.len() == 0 {
        0
    } else if s.last().vaddr <= v {
        s.len() as int
    } else {
        rank(s.drop_last(), v)
    }
}

/// The segments of the first `i` program headers, in ascending order of their addresses; those
/// with the same address in the order of the file.
pub open spec fn segments(b: Seq<u8>, i: int) -> Seq<Segment>
    decreases i,
{
    if i <= 0 {
        Seq::empty()
    } else if is_load(b, i - 1) {
        let s = segments(b, i - 1);
        let x = segment_at(b, i - 1);
        s.insert(rank(s, x.vaddr), x)
    } else {
        segments(b, i - 1)
    }
}

/// First page that the segment occupies.
pub open spec fn first_page(s: Segment) -> int {
    round_down(s.vaddr as int, 4096)
}

/// Page behind the last that the segment occupies.
pub open spec fn end_page(s: Segment) -> int {
    round_up(s.vaddr + s.memsz, 4096)
}

/// Segment `i` reaches into the pages of the next one.
pub open spec fn collides(s: Seq<Segment>, i: int) -> bool {
    end_page(s[i]) > first_page(s[i + 1])
}

/// Two neighbouring segments share a page.
pub open spec fn overlapping(s: Seq<Segment>) -> bool {
    exists|i: int| 0 <= i < s.len() - 1 && #[trigger] collides(s, i)
}

/// Why the file is refused.
pub open spec fn parse_error(b: Seq<u8>) -> Option<ElfError> {
    if header_error(b) is Some {
        header_error(b)
    } else if segments_error(b, 0) is Some {
        segments_error(b, 0)
    } else if overlapping(segments(b, ph_count(b))) {
        Some(ElfError::Overlap)
    } else {
        None
    }
}

/// Addresses ascend.
pub open spec fn ascending(s: Seq<Segment>) -> bool {
    forall|i: int, j: int| 0 <= i <= j < s.len() ==> #[trigger] s[i].vaddr <= #[trigger] s[j].vaddr
}

pub proof fn lemma_rank(s: Seq<Segment>, v: u64)
    requires
        ascending(s),
    ensures
        0 <= rank(s, v) <= s.len(),
        forall|i: int| 0 <= i < rank(s, v) ==> (#[trigger] s[i]).vaddr <= v,
        forall|i: int| rank(s, v) <= i < s.len() ==> (#[trigger] s[i]).vaddr > v,
    decreases s.len(),
{
    if s.len() > 0 && s.last().vaddr > v {
        let t = s.drop_last();
        lemma_rank(t, v);
        assert forall|i: int| rank(s, v) <= i < s.len() implies (#[trigger] s[i]).vaddr > v by {
            if i < t.len() {
                assert(t[i] == s[i]);
            }
        }
        assert forall|i: int| 0 <= i < rank(s, v) implies (#[trigger] s[i]).vaddr <= v by {
            assert(t[i] == s[i]);
        }
    }
}

pub proof fn lemma_insert_ascending(s: Seq<Segment>, x: Segment)
    requires
        ascending(s),
    ensures
        ascending(s.insert(rank(s, x.vaddr), x)),
{
    lemma_rank(s, x.vaddr);
    let k = rank(s, x.vaddr);
    let t = s.insert(k, x);
    assert forall|i: int, j: int| 0 <= i <= j < t.len() implies #[trigger] t[i].vaddr
        <= #[trigger] t[j].vaddr by {
        let a = if i < k {
            i
        } else {
            i - 1
        };
        let c = if j < k {
            j
        } else {
            j - 1
        };
        if i != k {
            assert(t[i] == s[a]);
        }
        if j != k {
            assert(t[j] == s[c]);
        }
    }
}

/// Every segment is one of the file's, and none of these is bad.
pub open spec fn all_good(s: Seq<Segment>, len: int) -> bool {
    forall|i: int| 0 <= i < s.len() ==> segment_error(#[trigger] s[i], len) is None
}

/// `v` rounded down to a page.
fn align_down(v: u64) -> (r: u64)
    ensures
        r == round_down(v as int, 4096),
{
    v - v % 4096
}

/// `v` rounded up to a page.
fn align_up(v: u64) -> (r: u64)
    requires
        v <= USER_VA_LIMIT,
    ensures
        r == round_up(v as int, 4096),
        r <= USER_VA_LIMIT,
{
    let over: u64 = v % 4096;
    if over == 0 {
        v
    } else {
        v - over + 4096
    }
}

/// Check the file and list its segments.
pub fn parse(bytes: &[u8]) -> (r: Result<ElfInfo, ElfError>)
    ensures
        match r {
            Err(e) => parse_error(bytes@) == Some(e),
            Ok(info) => {
                &&& parse_error(bytes@) is None
                &&& info.entry == le64_at(bytes@, 24)
                &&& info.segments@ == segments(bytes@, ph_count(bytes@))
                &&& ascending(info.segments@)
                &&& all_good(info.segments@, bytes@.len() as int)
            },
        },
{
    let len: usize = bytes.len();
    if len < 64 {
        return Err(ElfError::Truncated);
    }
    if !(bytes[0] == 0x7f && bytes[1] == 0x45 && bytes[2] == 0x4c && bytes[3] == 0x46) {
        return Err(ElfError::BadMagic);
    }
    if bytes[4] != 2 {
        return Err(ElfError::Not64);
    }
    if le16(bytes, 16) != 2 {
        return Err(ElfError::NotExec);
    }
    if le16(bytes, 18) != 243 {
        return Err(ElfError::NotRiscv);
    }
    let entry: u64 = le64(bytes, 24);
    let phoff: u64 = le64(bytes, 32);
    let phnum: u64 = le16(bytes, 56) as u64;
    if phoff > len as u64 || phnum * 56 > len as u64 - phoff {
        return Err(ElfError::Truncated);
    }
    let mut segs: Vec<Segment> = Vec::new();
    let mut i: u64 = 0;
    while i < phnum
        invariant
            len == bytes@.len(),
            header_error(bytes@) is None,
            phnum == ph_count(bytes@),
            phoff == le64_at(bytes@, 32),
            phoff + phnum * 56 <= len,
            i <= phnum,
            segs@ == segments(bytes@, i as int),
            ascending(segs@),
            all_good(segs@, len as int),
            segments_error(bytes@, 0) == segments_error(bytes@, i as int),
        decreases phnum - i,
    {
        let at: usize = (phoff + i * 56) as usize;
        if le32(bytes, at) == 1 {
            let seg = Segment {
                flags: le32(bytes, at + 4),
                offset: le64(bytes, at + 8),
                vaddr: le64(bytes, at + 16),
                filesz: le64(bytes, at + 32),
                memsz: le64(bytes, at + 40),
            };
            assert(seg == segment_at(bytes@, i as int));
            if seg.vaddr >= USER_VA_LIMIT || seg.memsz > USER_VA_LIMIT - seg.vaddr {
                return Err(ElfError::AddressTooHigh);
            }
            if seg.memsz < seg.filesz {
                return Err(ElfError::BadSegment);
            }
            if seg.offset > len as u64 || seg.filesz > len as u64 - seg.offset {
                return Err(ElfError::Truncated);
            }
            if seg.vaddr % 4096 != seg.offset % 4096 {
                return Err(ElfError::BadSegment);
            }
            let ghost old_segs = segs@;
            insert_segment(&mut segs, seg);
            proof {
                let k = rank(old_segs, seg.vaddr);
                lemma_insert_ascending(old_segs, seg);
                lemma_rank(old_segs, seg.vaddr);
                assert forall|j: int| 0 <= j < segs@.len() implies segment_error(
                    #[trigger] segs@[j],
                    len as int,
                ) is None by {
                    if j < k {
                        assert(segs@[j] == old_segs[j]);
                    } else if j > k {
                        assert(segs@[j] == old_segs[j - 1]);
                    }
                }
            }
        }
        i += 1;
    }
    let n: usize = segs.len();
    let mut k: usize = 1;
    while k < n
        invariant
            1 <= k,
            n == segs@.len(),
            len == bytes@.len(),
            header_error(bytes@) is None,
            segments_error(bytes@, 0) is None,
            segs@ == segments(bytes@, ph_count(bytes@)),
            all_good(segs@, len as int),
            forall|j: int| 0 <= j < k - 1 && j < n - 1 ==> !#[trigger] collides(segs@, j),
        decreases n - k,
    {
        let a: Segment = segs[k - 1];
        let b: Segment = segs[k];
        assert(segment_error(segs@[k - 1], len as int) is None);
        let a_end: u64 = align_up(a.vaddr + a.memsz);
        let b_start: u64 = align_down(b.vaddr);
        if a_end > b_start {
            assert(collides(segs@, k - 1));
            return Err(ElfError::Overlap);
        }
        assert(!collides(segs@, k - 1));
        k += 1;
    }
    Ok(ElfInfo { entry, segments: segs })
}

/// Put a segment behind those whose address is not larger.
fn insert_segment(segs: &mut Vec<Segment>, seg: Segment)
    requires
        ascending(old(segs)@),
    ensures
        final(segs)@ == old(segs)@.insert(rank(old(segs)@, seg.vaddr), seg),
{
    let mut k: usize = segs.len();
    let ghost s = segs@;
    assert(s.take(k as int) =~= s);
    while k > 0 && segs[k - 1].vaddr > seg.vaddr
        invariant
            segs@ == s,
            k <= s.len(),
            rank(s, seg.vaddr) == rank(s.take(k as int), seg.vaddr),
        decreases k,
    {
        assert(s.take(k as int).drop_last() =~= s.take(k - 1));
        k -= 1;
    }
    assert(rank(s, seg.vaddr) == k) by {
        if k > 0 {
            assert(s.take(k as int).last() == s[k - 1]);
        }
    }
    segs.insert(k, seg);
}

/// Law: the segments of an accepted file occupy different pages.
pub proof fn law_segments_disjoint(b: Seq<u8>, i: int, j: int)
    requires
        parse_error(b) is None,
        0 <= i < j < segments(b, ph_count(b)).len(),
    ensures
        end_page(segments(b, ph_count(b))[i]) <= first_page(segments(b, ph_count(b))[j]),
    decreases j - i,
{
    let s = segments(b, ph_count(b));
    assert(!collides(s, j - 1));
    if i < j - 1 {
        law_segments_disjoint(b, i, j - 1);
        let m = s[j - 1];
        assert(first_page(m) <= end_page(m));
    }
}

/// Leaf flags for a segment: code is not writable, data is not executable.
pub open spec fn leaf_flags(flags: u32) -> int {
    if flags % 2 == 1 {
        0xCB
    } else if flags / 2 % 2 == 1 {
        0xC7
    } else {
        0xC3
    }
}

/// Leaf flags for a segment.
pub fn segment_flags(flags: u32) -> (r: u64)
    ensures
        r == leaf_flags(flags),
{
    if flags % 2 == 1 {
        0xCB
    } else if flags / 2 % 2 == 1 {
        0xC7
    } else {
        0xC3
    }
}

/// Contents of the page at `va` of a segment: the bytes of the file, and zero around them.
pub open spec fn page_bytes(b: Seq<u8>, s: Segment, va: int) -> Seq<u8> {
    Seq::new(
        4096,
        |i: int|
            if s.vaddr <= va + i < s.vaddr + s.filesz {
                b[s.offset + (va + i - s.vaddr)]
            } else {
                0
            },
    )
}

/// Contents of the page at `va` of a segment.
fn page_image(bytes: &[u8], seg: &Segment, va: u64) -> (r: Vec<u8>)
    requires
        segment_error(*seg, bytes@.len() as int) is None,
        va < USER_VA_LIMIT,
    ensures
        r@ == page_bytes(bytes@, *seg, va as int),
{
    let len: usize = bytes.len();
    let mut out: Vec<u8> = Vec::new();
    let mut i: u64 = 0;
    while i < 4096
        invariant
            i <= 4096,
            va < USER_VA_LIMIT,
            len == bytes@.len(),
            segment_error(*seg, len as int) is None,
            out@ =~= page_bytes(bytes@, *seg, va as int).take(i as int),
        decreases 4096 - i,
    {
        let at: u64 = va + i;
        let b: u8 = if seg.vaddr <= at && at - seg.vaddr < seg.filesz {
            bytes[(seg.offset + (at - seg.vaddr)) as usize]
        } else {
            0
        };
        out.push(b);
        i += 1;
    }
    assert(page_bytes(bytes@, *seg, va as int).take(4096) =~= page_bytes(
        bytes@,
        *seg,
        va as int,
    ));
    out
}

/// Bytes that the first `i` arguments take, each with a zero byte.
pub open spec fn args_len(args: Seq<&[u8]>, i: int) -> int
    decreases i,
{
    if i <= 0 {
        0
    } else {
        args_len(args, i - 1) + args[i - 1]@.len() + 1
    }
}

/// Lowest address of the stack.
pub open spec fn stack_bottom() -> int {
    USER_STACK_TOP - USER_STACK_SIZE
}

/// The arguments are few and short enough for the stack.
pub open spec fn args_ok(args: Seq<&[u8]>) -> bool {
    args.len() <= MAX_ARGS && args_len(args, args.len() as int) <= USER_STACK_SIZE - (args.len() + 2)
        * 8 - 16
}

/// Address of the first argument.
pub open spec fn text_area(args: Seq<&[u8]>) -> int {
    round_down(USER_STACK_TOP - args_len(args, args.len() as int), 16)
}

/// Address of argument `i`.
pub open spec fn arg_at(args: Seq<&[u8]>, i: int) -> int {
    text_area(args) + args_len(args, i)
}

/// Address of the array of argument pointers.
pub open spec fn argv_at(args: Seq<&[u8]>) -> int {
    round_down(text_area(args) - (args.len() + 1) * 8, 16)
}

/// Initial stack pointer.
pub open spec fn sp_at(args: Seq<&[u8]>) -> int {
    round_down(argv_at(args) - 8, 16)
}

/// Pointers and count fit below the arguments.
pub open spec fn stack_fits(args: Seq<&[u8]>) -> bool {
    argv_at(args) >= stack_bottom() + 16
}

/// The stack as the program finds it: the argument count at the stack pointer, the argument
/// pointers with a null pointer behind them, the arguments with a zero byte behind each, and zero
/// everywhere else.
pub open spec fn stack_image(args: Seq<&[u8]>, image: Seq<u8>) -> bool {
    let base = stack_bottom();
    let n = args.len() as int;
    &&& image.len() == USER_STACK_SIZE
    &&& le64_at(image, sp_at(args) - base) == n
    &&& forall|i: int|
        0 <= i < n ==> #[trigger] le64_at(image, argv_at(args) - base + 8 * i) == arg_at(args, i)
    &&& le64_at(image, argv_at(args) - base + 8 * n) == 0
    &&& forall|i: int, j: int|
        0 <= i < n && 0 <= j < args[i]@.len() ==> image[arg_at(args, i) - base + j]
            == #[trigger] args[i]@[j]
    &&& forall|i: int|
        0 <= i < n ==> image[#[trigger] arg_at(args, i) - base + args[i]@.len()] == 0
    &&& forall|k: int|
        0 <= k < USER_STACK_SIZE && !(sp_at(args) <= base + k < sp_at(args) + 8) && !(argv_at(args)
            <= base + k < argv_at(args) + 8 * n) && !(text_area(args) <= base + k < text_area(args)
            + args_len(args, n)) ==> #[trigger] image[k] == 0
}

pub proof fn lemma_args_len(args: Seq<&[u8]>, i: int, j: int)
    requires
        0 <= i <= j,
    ensures
        0 <= args_len(args, i),
        args_len(args, i) + (j - i) <= args_len(args, j),
        i < j ==> args_len(args, i) + args[i]@.len() + 1 <= args_len(args, j),
    decreases j,
{
    if i < j {
        lemma_args_len(args, i, j - 1);
    } else if i > 0 {
        lemma_args_len(args, i - 1, i - 1);
    }
}

/// Write a word, lowest byte first.
fn put64(image: &mut Vec<u8>, at: usize, v: u64)
    requires
        at + 8 <= old(image)@.len(),
    ensures
        final(image)@.len() == old(image)@.len(),
        le64_at(final(image)@, at as int) == v,
        forall|k: int|
            0 <= k < old(image)@.len() && !(at <= k < at + 8) ==> final(image)@[k] == old(image)@[k],
{
    let w0: u64 = v % 0x1_0000_0000;
    let w1: u64 = v / 0x1_0000_0000;
    let n: usize = image.len();
    image[at] = (w0 % 256) as u8;
    image[at + 1] = (w0 / 0x100 % 256) as u8;
    image[at + 2] = (w0 / 0x1_0000 % 256) as u8;
    image[at + 3] = (w0 / 0x100_0000) as u8;
    image[at + 4] = (w1 % 256) as u8;
    image[at + 5] = (w1 / 0x100 % 256) as u8;
    image[at + 6] = (w1 / 0x1_0000 % 256) as u8;
    image[at + 7] = (w1 / 0x100_0000) as u8;
    proof {
        lemma_split32(w0 as int);
        lemma_split32(w1 as int);
        assert(le32_at(image@, at as int) == w0);
        assert(le32_at(image@, at + 4) == w1);
    }
}

proof fn lemma_split32(w: int)
    requires
        0 <= w < 0x1_0000_0000,
    ensures
        (w % 256 + w / 0x100 % 256 * 256) + (w / 0x1_0000 % 256 + w / 0x100_0000 * 256) * 0x1_0000
            == w,
        0 <= w / 0x100_0000 < 256,
{
}

proof fn lemma_le64_same(a: Seq<u8>, b: Seq<u8>, at: int)
    requires
        forall|k: int| at <= k < at + 8 ==> a[k] == b[k],
    ensures
        le64_at(a, at) == le64_at(b, at),
{
}

proof fn lemma_le64_zero(a: Seq<u8>, at: int)
    requires
        forall|k: int| at <= k < at + 8 ==> a[k] == 0,
    ensures
        le64_at(a, at) == 0,
{
}

/// The initial stack.
fn stack_contents(args: &[&[u8]]) -> (r: Vec<u8>)
    requires
        args_ok(args@),
        stack_fits(args@),
    ensures
        stack_image(args@, r@),
{
    let n: usize = args.len();
    let ghost base = stack_bottom();
    let ghost a = args@;
    proof {
        lemma_args_len(a, 0, n as int);
    }
    let total: usize = total_len(args);
    let area: u64 = (USER_STACK_TOP - total as u64) - (USER_STACK_TOP - total as u64) % 16;
    let bottom: u64 = USER_STACK_TOP - USER_STACK_SIZE as u64;
    let below: u64 = area - (n as u64 + 1) * 8;
    let argv: u64 = below - below % 16;
    let sp: u64 = (argv - 8) - (argv - 8) % 16;
    assert(area == text_area(a) && argv == argv_at(a) && sp == sp_at(a));
    assert(bottom + 16 <= argv);
    assert(sp + 16 == argv) by {
        assert(argv % 16 == 0);
    }
    let mut image: Vec<u8> = Vec::new();
    let mut k: usize = 0;
    while k < USER_STACK_SIZE
        invariant
            k <= USER_STACK_SIZE,
            image@.len() == k,
            forall|j: int| 0 <= j < k ==> image@[j] == 0,
        decreases USER_STACK_SIZE - k,
    {
        image.push(0);
        k += 1;
    }
    // Arguments, and the addresses where they start.
    let mut starts: Vec<u64> = Vec::new();
    let mut at: u64 = area;
    let mut i: usize = 0;
    while i < n
        invariant
            a == args@,
            n == a.len(),
            args_ok(a),
            base == stack_bottom(),
            bottom == base,
            area == text_area(a),
            base <= area,
            i <= n,
            at == arg_at(a, i as int),
            starts@.len() == i,
            forall|j: int| 0 <= j < i ==> #[trigger] starts@[j] == arg_at(a, j),
            image@.len() == USER_STACK_SIZE,
            forall|x: int, j: int|
                0 <= x < i && 0 <= j < a[x]@.len() ==> image@[arg_at(a, x) - base + j]
                    == #[trigger] a[x]@[j],
            forall|x: int|
                0 <= x < i ==> image@[#[trigger] arg_at(a, x) - base + a[x]@.len()] == 0,
            forall|k: int|
                0 <= k < USER_STACK_SIZE && !(area <= base + k < at) ==> #[trigger] image@[k] == 0,
        decreases n - i,
    {
        let arg: &[u8] = args[i];
        let len: usize = arg.len();
        let ghost before = image@;
        proof {
            lemma_args_len(a, i as int, n as int);
        }
        let off: usize = (at - bottom) as usize;
        let mut j: usize = 0;
        while j < len
            invariant
                a == args@,
                n == a.len(),
                i < n,
                base == stack_bottom(),
                bottom == base,
                arg@ == a[i as int]@,
                len == arg@.len(),
                off == at - bottom,
                at == arg_at(a, i as int),
                area == text_area(a),
                base <= area <= at,
                j <= len,
                off + len + 1 <= USER_STACK_SIZE,
                image@.len() == USER_STACK_SIZE,
                before.len() == USER_STACK_SIZE,
                forall|y: int| 0 <= y < j ==> image@[off + y] == #[trigger] arg@[y],
                forall|k: int|
                    0 <= k < USER_STACK_SIZE && !(off <= k < off + j) ==> #[trigger] image@[k]
                        == before[k],
            decreases len - j,
        {
            image[off + j] = arg[j];
            j += 1;
        }
        proof {
            assert(image@[off + len] == before[off + len]);
            assert(before[off + len] == 0);
            assert forall|x: int, y: int|
                0 <= x < i + 1 && 0 <= y < a[x]@.len() implies image@[arg_at(a, x) - base + y]
                == #[trigger] a[x]@[y] by {
                if x < i {
                    lemma_args_len(a, x, i as int);
                    assert(image@[arg_at(a, x) - base + y] == before[arg_at(a, x) - base + y]);
                } else {
                    assert(arg@[y] == a[x]@[y]);
                }
            }
            assert forall|x: int| 0 <= x < i + 1 implies image@[#[trigger] arg_at(a, x) - base
                + a[x]@.len()] == 0 by {
                if x < i {
                    lemma_args_len(a, x, i as int);
                    let k = arg_at(a, x) - base + a[x]@.len();
                    assert(image@[k] == before[k]);
                }
            }
            assert forall|k: int|
                0 <= k < USER_STACK_SIZE && !(area <= base + k < at + len
                    + 1) implies #[trigger] image@[k] == 0 by {
                assert(image@[k] == before[k]);
            }
        }
        starts.push(at);
        at = at + len as u64 + 1;
        i += 1;
    }
    // Argument pointers; the null pointer behind them is there already.
    let ghost texts = image@;
    let mut i: usize = 0;
    let first: usize = (argv - bottom) as usize;
    while i < n
        invariant
            a == args@,
            n == a.len(),
            n <= MAX_ARGS,
            base == stack_bottom(),
            bottom == base,
            area == text_area(a),
            argv == argv_at(a),
            first == argv - base,
            argv + (n + 1) * 8 <= area,
            area <= USER_STACK_TOP,
            base + 16 <= argv,
            i <= n,
            starts@.len() == n,
            forall|j: int| 0 <= j < n ==> #[trigger] starts@[j] == arg_at(a, j),
            image@.len() == USER_STACK_SIZE,
            texts.len() == USER_STACK_SIZE,
            forall|j: int|
                0 <= j < i ==> #[trigger] le64_at(image@, first + 8 * j) == arg_at(a, j),
            forall|k: int|
                0 <= k < USER_STACK_SIZE && !(first <= k < first + 8 * i) ==> #[trigger] image@[k]
                    == texts[k],
        decreases n - i,
    {
        let ghost before = image@;
        put64(&mut image, first + 8 * i, starts[i]);
        proof {
            assert forall|j: int| 0 <= j < i + 1 implies #[trigger] le64_at(image@, first + 8 * j)
                == arg_at(a, j) by {
                if j < i {
                    lemma_le64_same(image@, before, first + 8 * j);
                }
            }
        }
        i += 1;
    }
    let ghost before = image@;
    put64(&mut image, (sp - bottom) as usize, n as u64);
    proof {
        assert forall|j: int| 0 <= j < n implies #[trigger] le64_at(
            image@,
            argv_at(a) - base + 8 * j,
        ) == arg_at(a, j) by {
            assert(le64_at(before, first + 8 * j) == arg_at(a, j));
            lemma_le64_same(image@, before, first + 8 * j);
        }
        assert forall|k: int| first + 8 * n <= k < first + 8 * n + 8 implies #[trigger] image@[k]
            == 0 by {
            assert(image@[k] == before[k]);
            assert(before[k] == texts[k]);
        }
        lemma_le64_zero(image@, first + 8 * n);
        assert forall|i: int, j: int|
            0 <= i < n && 0 <= j < a[i]@.len() implies image@[arg_at(a, i) - base + j]
            == #[trigger] a[i]@[j] by {
            lemma_args_len(a, i, n as int);
            lemma_args_len(a, 0, i);
            let k = arg_at(a, i) - base + j;
            assert(image@[k] == before[k]);
            assert(before[k] == texts[k]);
        }
        assert forall|i: int| 0 <= i < n implies image@[#[trigger] arg_at(a, i) - base
            + a[i]@.len()] == 0 by {
            lemma_args_len(a, i, n as int);
            lemma_args_len(a, 0, i);
            let k = arg_at(a, i) - base + a[i]@.len();
            assert(image@[k] == before[k]);
            assert(before[k] == texts[k]);
        }
        assert forall|k: int|
            0 <= k < USER_STACK_SIZE && !(sp_at(a) <= base + k < sp_at(a) + 8) && !(argv_at(a)
                <= base + k < argv_at(a) + 8 * n) && !(text_area(a) <= base + k < text_area(a)
                + args_len(a, n as int)) implies #[trigger] image@[k] == 0 by {
            assert(image@[k] == before[k]);
            assert(before[k] == texts[k]);
        }
    }
    image
}

/// Bytes that the arguments take.
fn total_len(args: &[&[u8]]) -> (r: usize)
    requires
        args_ok(args@),
    ensures
        r == args_len(args@, args@.len() as int),
{
    let n: usize = args.len();
    let mut t: usize = 0;
    let mut i: usize = 0;
    while i < n
        invariant
            n == args@.len(),
            args_ok(args@),
            i <= n,
            t == args_len(args@, i as int),
        decreases n - i,
    {
        proof {
            lemma_args_len(args@, i as int, n as int);
        }
        t = t + args[i].len() + 1;
        i += 1;
    }
    t
}

/// Whether the arguments are few and short enough.
fn check_args(args: &[&[u8]]) -> (r: bool)
    ensures
        r == args_ok(args@),
{
    let n: usize = args.len();
    if n > MAX_ARGS {
        return false;
    }
    let room: usize = USER_STACK_SIZE - (n + 2) * 8 - 16;
    let mut t: usize = 0;
    let mut i: usize = 0;
    while i < n
        invariant
            n == args@.len(),
            n <= MAX_ARGS,
            room == USER_STACK_SIZE - (n + 2) * 8 - 16,
            i <= n,
            t == args_len(args@, i as int),
            t <= room,
        decreases n - i,
    {
        proof {
            lemma_args_len(args@, i as int, n as int);
        }
        let len: usize = args[i].len();
        if len >= room || t + len + 1 > room {
            return false;
        }
        t = t + len + 1;
        i += 1;
    }
    true
}

/// A page to be mapped: where, how, and with what in it.
pub struct PagePlan {
    pub va: int,
    pub flags: int,
    pub data: Seq<u8>,
}

/// The page can be planned for.
pub open spec fn plan_ok(p: PagePlan) -> bool {
    0 <= p.va < USER_VA_LIMIT && p.va % 4096 == 0 && 0 <= p.flags < 1024 && p.flags % 2 == 1
        && p.data.len() == 4096
}

/// The page at `page` holds the bytes.
pub open spec fn page_holds(m: PhysMemory, page: int, data: Seq<u8>) -> bool {
    forall|i: int|
        0 <= i < 512 ==> #[trigger] m.ram.word(page + 8 * i) == le64_at(data, 8 * i)
}

/// Pages `pas[lo..hi]` of the allocator are mapped as planned; all else is as before.
#[verifier::opaque]
pub open spec fn placed(
    m: PhysMemory,
    before: PhysMemory,
    root: int,
    plan: Seq<PagePlan>,
    pas: Seq<int>,
    lo: int,
    hi: int,
) -> bool {
    &&& m.held(&before, root, pas.subrange(lo, hi).to_set())
    &&& forall|r: int| #[trigger] m.is_root(r) <==> before.is_root(r)
    &&& forall|i: int|
        #![trigger plan[i]]
        lo <= i < hi ==> lookup(m.ram, root, plan[i].va) == Some(
            (0int, entry_for(pas[i], user_flags(plan[i].flags))),
        ) && lookup(before.ram, root, plan[i].va) is None && page_holds(m, pas[i], plan[i].data)
    &&& forall|r: int, v: int|
        m.is_root(r) && !(r == root && planned(plan, lo, hi, v)) ==> #[trigger] lookup(m.ram, r, v)
            == lookup(before.ram, r, v)
    &&& forall|i: int, j: int|
        #![trigger pas[i], pas[j]]
        lo <= i < j < hi ==> pas[i] != pas[j]
    &&& forall|i: int, j: int|
        #![trigger plan[i], plan[j]]
        lo <= i < j < hi ==> !same_vpn(plan[i].va, plan[j].va)
}

/// Address `v` lies in one of the planned pages.
pub open spec fn planned(plan: Seq<PagePlan>, lo: int, hi: int, v: int) -> bool {
    exists|i: int| lo <= i < hi && same_vpn(v, (#[trigger] plan[i]).va)
}

/// What keeps a page from being mapped.
pub open spec fn page_error(m: PhysMemory, root: int, va: int) -> Option<ElfError> {
    if lookup(m.ram, root, va) is Some {
        Some(ElfError::Overlap)
    } else if m.frames@.free_pages() == 0 {
        Some(ElfError::NoMemory)
    } else if m.frames@.free_pages() - 1 < missing(m.ram, root, va) {
        Some(ElfError::MapFailed)
    } else {
        None
    }
}

/// Map one page of the allocator, filled with the given bytes, for the user.
fn map_fresh(m: &mut PhysMemory, root: u64, va: u64, flags: u64, data: &[u8]) -> (r: Result<
    u64,
    ElfError,
>)
    requires
        old(m).inv(),
        old(m).is_root(root as int),
        va < USER_VA_LIMIT,
        va % 4096 == 0,
        flags < 1024,
        flags % 2 == 1,
        data@.len() == 4096,
    ensures
        final(m).inv(),
        final(m).is_root(root as int),
        match r {
            Err(e) => {
                &&& page_error(*old(m), root as int, va as int) == Some(e)
                &&& final(m).held(old(m), root as int, Set::empty())
                &&& final(m).same_maps(old(m))
            },
            Ok(pa) => {
                &&& page_error(*old(m), root as int, va as int) is None
                &&& pa == old(m).frames@.next_page()
                &&& final(m).frames@.drawn_from(old(m).frames@)
                &&& final(m).held(old(m), root as int, set![pa as int])
                &&& lookup(final(m).ram, root as int, va as int) == Some(
                    (0int, entry_for(pa as int, user_flags(flags as int))),
                )
                &&& final(m).same_maps_but(old(m), root as int, va as int)
                &&& page_holds(*final(m), pa as int, data@)
                &&& mids(final(m).ram, root as int) == mids(old(m).ram, root as int).insert(
                    vpn2(va as int),
                )
                &&& lows(final(m).ram, root as int) == lows(old(m).ram, root as int).insert(
                    key1(va as int),
                )
                &&& final(m).frames@.free_pages() == old(m).frames@.free_pages() - 1 - missing(
                    old(m).ram,
                    root as int,
                    va as int,
                )
            },
        },
{
    let ghost before = *m;
    proof {
        m.frames.lemma_wf();
        crate::mem::law_page_available(m.frames@);
    }
    if is_mapped(m, root, va) {
        proof {
            crate::mmu::lemma_unchanged(before, root as int);
        }
        return Err(ElfError::Overlap);
    }
    let pa: u64 = match m.alloc_page_zeroed() {
        Some(p) => p,
        None => {
            proof {
                crate::mmu::lemma_unchanged_state(before, *m, root as int);
            }
            return Err(ElfError::NoMemory);
        },
    };
    let ghost a = *m;
    let ghost r0 = root as int;
    let ghost p0 = pa as int;
    m.fill_page(pa, data);
    let ghost b = *m;
    proof {
        crate::mmu::lemma_page_taken(before, a, b, r0, p0);
        b.frames.lemma_wf();
        crate::mem::law_block_placement(b.frames@, p0, 0);
        crate::tiling::lemma_block_pages_values();
        crate::mem::law_alloc_takes_pages(before.frames@, 0);
        crate::mmu::lemma_same_sets(before, a, b, r0, va as int);
    }
    let r = map_user_page(m, root, va, pa, flags);
    let ghost c = *m;
    proof {
        PhysMemory::lemma_held_none(b, c, r0);
        PhysMemory::lemma_held_steps(before, b, c, r0, set![p0], Set::empty());
        assert(set![p0] + Set::empty() =~= set![p0]);
        assert(set![p0].contains(p0));
        crate::mmu::lemma_held_can_free(before, c, r0, set![p0], p0);
    }
    if r.is_err() {
        let f = m.free_block(pa);
        proof {
            PhysMemory::lemma_held_back(before, c, *m, r0, set![p0], p0);
            assert(set![p0].remove(p0) =~= Set::empty());
            crate::mmu::lemma_same_maps_steps(before, b, c);
            crate::mmu::lemma_same_maps_steps(before, c, *m);
        }
        return Err(ElfError::MapFailed);
    }
    proof {
        reveal(PhysMemory::kept);
        b.frames@.lemma_drawn_more(before.frames@, c.frames@);
        c.lemma_page(p0, 0);
        assert forall|i: int| 0 <= i < 512 implies #[trigger] c.ram.word(pa + 8 * i) == le64_at(
            data@,
            8 * i,
        ) by {
            let w = p0 + 8 * i;
            assert(c.ram.has(w));
            assert(w - w % 4096 == p0);
            assert(c.ram.word(w) == b.ram.word(w));
        }
        assert(c.same_maps_but(&before, r0, va as int)) by {
            assert forall|r: int| #[trigger] c.is_root(r) <==> before.is_root(r) by {
                assert(b.is_root(r) <==> before.is_root(r));
            }
            assert forall|r: int, v: int|
                c.is_root(r) && !(r == r0 && same_vpn(v, va as int)) implies #[trigger] lookup(
                c.ram,
                r,
                v,
            ) == lookup(before.ram, r, v) by {
                assert(b.is_root(r));
                assert(lookup(b.ram, r, v) == lookup(before.ram, r, v));
            }
        }
    }
    Ok(pa)
}

/// Page tables of the middle level for the first `k` addresses.
pub open spec fn gig_set(vas: Seq<int>, k: int) -> Set<int> {
    Set::new(|g: int| exists|j: int| 0 <= j < k && vpn2(#[trigger] vas[j]) == g)
}

/// Page tables of the lowest level for the first `k` addresses.
pub open spec fn meg_set(vas: Seq<int>, k: int) -> Set<int> {
    Set::new(|g: int| exists|j: int| 0 <= j < k && key1(#[trigger] vas[j]) == g)
}

/// Tables under the root once the first `k` addresses are mapped.
pub open spec fn tables_after(m: PhysMemory, root: int, vas: Seq<int>, k: int) -> int {
    ((mids(m.ram, root) + gig_set(vas, k)).len() + (lows(m.ram, root) + meg_set(vas, k)).len()) as int
}

/// Pages that were handed out once the first `k` addresses are mapped: a page for each, and the
/// tables that were not there.
pub open spec fn pages_taken(m: PhysMemory, root: int, vas: Seq<int>, k: int) -> int {
    k + (tables_after(m, root, vas, k) - table_count(m.ram, root))
}

/// Free pages that are left once the first `k` addresses are mapped.
pub open spec fn free_after(m: PhysMemory, root: int, vas: Seq<int>, k: int) -> int {
    m.frames@.free_pages() - pages_taken(m, root, vas, k)
}

/// The page that address `k` is mapped to, after those before it.
pub open spec fn page_for(m: PhysMemory, root: int, vas: Seq<int>, k: int) -> int {
    m.frames@.after_pages(pages_taken(m, root, vas, k)).next_page()
}

/// What keeps address `k` from being mapped after those before it.
pub open spec fn fault(m: PhysMemory, root: int, vas: Seq<int>, k: int) -> Option<ElfError> {
    if lookup(m.ram, root, vas[k]) is Some || exists|j: int|
        0 <= j < k && same_vpn(vas[k], #[trigger] vas[j]) {
        Some(ElfError::Overlap)
    } else if free_after(m, root, vas, k) == 0 {
        Some(ElfError::NoMemory)
    } else if free_after(m, root, vas, k + 1) < 0 {
        Some(ElfError::MapFailed)
    } else {
        None
    }
}

/// What keeps the first of the addresses `[i, n)` that cannot be mapped from being mapped.
pub open spec fn first_fault(m: PhysMemory, root: int, vas: Seq<int>, i: int, n: int) -> Option<
    ElfError,
>
    decreases n - i,
{
    if i >= n {
        None
    } else if fault(m, root, vas, i) is Some {
        fault(m, root, vas, i)
    } else {
        first_fault(m, root, vas, i + 1, n)
    }
}

/// The page addresses of a plan.
pub open spec fn vas_of(plan: Seq<PagePlan>) -> Seq<int> {
    Seq::new(plan.len(), |i: int| plan[i].va)
}

/// The physical pages of a list of mappings.
pub open spec fn pas_of(mapped: Seq<(u64, u64)>) -> Seq<int> {
    Seq::new(mapped.len(), |i: int| mapped[i].1 as int)
}

/// The first pages of the plan are mapped, and the tables counted for.
spec fn loading(
    m: PhysMemory,
    before: PhysMemory,
    root: int,
    plan: Seq<PagePlan>,
    mapped: Seq<(u64, u64)>,
) -> bool {
    let k = mapped.len() as int;
    let vas = vas_of(plan);
    &&& before.inv()
    &&& before.is_root(root)
    &&& m.inv()
    &&& m.is_root(root)
    &&& k <= plan.len()
    &&& placed(m, before, root, plan, pas_of(mapped), 0, k)
    &&& forall|i: int| 0 <= i < k ==> (#[trigger] mapped[i]).0 == plan[i].va
    &&& mids(m.ram, root) == mids(before.ram, root) + gig_set(vas, k)
    &&& lows(m.ram, root) == lows(before.ram, root) + meg_set(vas, k)
    &&& m.frames@.free_pages() == free_after(before, root, vas, k)
    &&& m.frames@.drawn_from(before.frames@)
    &&& forall|i: int|
        0 <= i < k ==> (#[trigger] pas_of(mapped)[i]) == page_for(before, root, vas, i)
    &&& forall|i: int| 0 <= i < plan.len() ==> plan_ok(#[trigger] plan[i])
}

proof fn lemma_sets_grow(vas: Seq<int>, k: int)
    requires
        0 <= k < vas.len(),
    ensures
        gig_set(vas, k + 1) == gig_set(vas, k).insert(vpn2(vas[k])),
        meg_set(vas, k + 1) == meg_set(vas, k).insert(key1(vas[k])),
{
    assert forall|g: int| #[trigger] gig_set(vas, k + 1).contains(g) <==> gig_set(vas, k).contains(g)
        || g == vpn2(vas[k]) by {
        if gig_set(vas, k + 1).contains(g) {
            let j = choose|j: int| 0 <= j < k + 1 && vpn2(#[trigger] vas[j]) == g;
            if j < k {
                assert(vpn2(vas[j]) == g);
            }
        }
        if gig_set(vas, k).contains(g) {
            let j = choose|j: int| 0 <= j < k && vpn2(#[trigger] vas[j]) == g;
            assert(0 <= j < k + 1 && vpn2(vas[j]) == g);
        }
        if g == vpn2(vas[k]) {
            assert(0 <= k < k + 1 && vpn2(vas[k]) == g);
        }
    }
    assert(gig_set(vas, k + 1) =~= gig_set(vas, k).insert(vpn2(vas[k])));
    assert forall|g: int| #[trigger] meg_set(vas, k + 1).contains(g) <==> meg_set(vas, k).contains(g)
        || g == key1(vas[k]) by {
        if meg_set(vas, k + 1).contains(g) {
            let j = choose|j: int| 0 <= j < k + 1 && key1(#[trigger] vas[j]) == g;
            if j < k {
                assert(key1(vas[j]) == g);
            }
        }
        if meg_set(vas, k).contains(g) {
            let j = choose|j: int| 0 <= j < k && key1(#[trigger] vas[j]) == g;
            assert(0 <= j < k + 1 && key1(vas[j]) == g);
        }
        if g == key1(vas[k]) {
            assert(0 <= k < k + 1 && key1(vas[k]) == g);
        }
    }
    assert(meg_set(vas, k + 1) =~= meg_set(vas, k).insert(key1(vas[k])));
}

/// What keeps the next page from being mapped is the fault that was foreseen.
proof fn lemma_next_error(
    m: PhysMemory,
    before: PhysMemory,
    root: int,
    plan: Seq<PagePlan>,
    mapped: Seq<(u64, u64)>,
)
    requires
        loading(m, before, root, plan, mapped),
        mapped.len() < plan.len(),
    ensures
        ({
            let k = mapped.len() as int;
            let vas = vas_of(plan);
            let va = plan[k].va;
            &&& page_error(m, root, va) == fault(before, root, vas, k)
            &&& lookup(m.ram, root, va) is None ==> {
                &&& missing(m.ram, root, va) == tables_after(before, root, vas, k + 1)
                    - tables_after(before, root, vas, k)
                &&& lookup(before.ram, root, va) is None
                &&& !planned(plan, 0, k, va)
                &&& mids(m.ram, root).insert(vpn2(va)) == mids(before.ram, root) + gig_set(vas, k + 1)
                &&& lows(m.ram, root).insert(key1(va)) == lows(before.ram, root) + meg_set(vas, k + 1)
            }
        }),
{
    reveal(placed);
    let k = mapped.len() as int;
    let vas = vas_of(plan);
    let va = plan[k].va;
    assert(vas[k] == va);
    if planned(plan, 0, k, va) {
        let i = choose|i: int| 0 <= i < k && same_vpn(va, (#[trigger] plan[i]).va);
        crate::mmu::lemma_lookup_page(m.ram, root, va, plan[i].va);
        assert(same_vpn(vas[k], vas[i]));
    } else {
        assert(lookup(m.ram, root, va) == lookup(before.ram, root, va));
        if exists|j: int| 0 <= j < k && same_vpn(vas[k], #[trigger] vas[j]) {
            let j = choose|j: int| 0 <= j < k && same_vpn(vas[k], #[trigger] vas[j]);
            assert(same_vpn(va, plan[j].va));
        }
    }
    lemma_sets_grow(vas, k);
    crate::mmu::lemma_missing(m.ram, root, va);
    crate::mmu::lemma_sets_finite(m.ram, root);
    let m1 = mids(before.ram, root) + gig_set(vas, k + 1);
    let l1 = lows(before.ram, root) + meg_set(vas, k + 1);
    assert(mids(m.ram, root).insert(vpn2(va)) =~= m1);
    assert(lows(m.ram, root).insert(key1(va)) =~= l1);
    m.frames.lemma_wf();
    crate::mem::law_page_available(m.frames@);
}

/// A step that maps nothing keeps what is mapped.
proof fn lemma_placed_kept(
    before: PhysMemory,
    a: PhysMemory,
    b: PhysMemory,
    root: int,
    plan: Seq<PagePlan>,
    pas: Seq<int>,
    lo: int,
    hi: int,
)
    requires
        0 <= lo <= hi <= pas.len(),
        hi <= plan.len(),
        placed(a, before, root, plan, pas, lo, hi),
        b.held(&a, root, Set::empty()),
        b.same_maps(&a),
    ensures
        placed(b, before, root, plan, pas, lo, hi),
{
    reveal(placed);
    let pages = pas.subrange(lo, hi).to_set();
    PhysMemory::lemma_held_steps(before, a, b, root, pages, Set::empty());
    assert(pages + Set::empty() =~= pages);
    assert forall|r: int| #[trigger] b.is_root(r) <==> before.is_root(r) by {
        assert(a.is_root(r) <==> before.is_root(r));
    }
    assert forall|i: int| #![trigger plan[i]] lo <= i < hi implies lookup(b.ram, root, plan[i].va)
        == Some((0int, entry_for(pas[i], user_flags(plan[i].flags)))) && lookup(
        before.ram,
        root,
        plan[i].va,
    ) is None && page_holds(b, pas[i], plan[i].data) by {
        lemma_contents_kept(before, a, b, root, pages, Set::empty(), pas[i], plan[i].data, pas, lo, hi, i);
        assert(a.is_root(root) && b.is_root(root)) by {
            reveal(PhysMemory::held);
        }
        assert(lookup(b.ram, root, plan[i].va) == lookup(a.ram, root, plan[i].va));
    }
    assert forall|r: int, v: int|
        b.is_root(r) && !(r == root && planned(plan, lo, hi, v)) implies #[trigger] lookup(
        b.ram,
        r,
        v,
    ) == lookup(before.ram, r, v) by {
        assert(a.is_root(r));
        assert(lookup(b.ram, r, v) == lookup(a.ram, r, v));
    }
}

/// The contents of a held page outlast a step.
proof fn lemma_contents_kept(
    before: PhysMemory,
    a: PhysMemory,
    b: PhysMemory,
    root: int,
    pages: Set<int>,
    more: Set<int>,
    pa: int,
    data: Seq<u8>,
    pas: Seq<int>,
    lo: int,
    hi: int,
    i: int,
)
    requires
        a.held(&before, root, pages),
        b.held(&a, root, more),
        pages == pas.subrange(lo, hi).to_set(),
        0 <= lo <= i < hi <= pas.len(),
        pa == pas[i],
        page_holds(a, pa, data),
    ensures
        page_holds(b, pa, data),
        pages.contains(pa),
{
    assert(pas.subrange(lo, hi)[i - lo] == pa);
    assert(pages.contains(pa));
    PhysMemory::lemma_held_steps(before, a, b, root, pages, more);
    assert((pages + more).contains(pa));
    crate::mmu::lemma_held_can_free(before, a, root, pages, pa);
    crate::mmu::lemma_held_can_free(before, b, root, pages + more, pa);
    reveal(PhysMemory::held);
    a.frames.lemma_wf();
    crate::mem::law_allocated_not_free(a.frames@, pa, 0);
    a.lemma_page(pa, 0);
    b.lemma_page(pa, 0);
    assert forall|k: int| 0 <= k < 512 implies #[trigger] b.ram.word(pa + 8 * k) == le64_at(
        data,
        8 * k,
    ) by {
        let w = pa + 8 * k;
        assert(b.ram.has(w));
        assert(w - w % 4096 == pa);
        assert(a.ram.word(pa + 8 * k) == le64_at(data, 8 * k));
        assert(b.ram.word(w) == a.ram.word(w));
    }
}

/// One more page is mapped as planned.
proof fn lemma_placed_more(
    before: PhysMemory,
    a: PhysMemory,
    b: PhysMemory,
    root: int,
    plan: Seq<PagePlan>,
    pas: Seq<int>,
    k: int,
)
    requires
        0 <= k < plan.len(),
        pas.len() == k + 1,
        placed(a, before, root, plan, pas.take(k), 0, k),
        b.held(&a, root, set![pas[k]]),
        lookup(before.ram, root, plan[k].va) is None,
        !planned(plan, 0, k, plan[k].va),
        lookup(b.ram, root, plan[k].va) == Some(
            (0int, entry_for(pas[k], user_flags(plan[k].flags))),
        ),
        b.same_maps_but(&a, root, plan[k].va),
        page_holds(b, pas[k], plan[k].data),
    ensures
        placed(b, before, root, plan, pas, 0, k + 1),
{
    reveal(placed);
    let old_pas = pas.take(k);
    let pages = old_pas.subrange(0, k).to_set();
    let pa = pas[k];
    PhysMemory::lemma_held_steps(before, a, b, root, pages, set![pa]);
    assert(set![pa].contains(pa));
    assert(!pages.contains(pa));
    let s = pas.subrange(0, k + 1);
    assert(s.to_set() =~= pages + set![pa]) by {
        assert forall|x: int| s.to_set().contains(x) <==> #[trigger] (pages + set![pa]).contains(x) by {
            if s.contains(x) {
                let i = choose|i: int| 0 <= i < s.len() && s[i] == x;
                if i < k {
                    assert(old_pas.subrange(0, k)[i] == x);
                }
            }
            if pages.contains(x) {
                let i = choose|i: int| 0 <= i < k && old_pas.subrange(0, k)[i] == x;
                assert(s[i] == x);
            }
            if x == pa {
                assert(s[k] == x);
            }
        }
    }
    assert forall|r: int| #[trigger] b.is_root(r) <==> before.is_root(r) by {
        assert(a.is_root(r) <==> before.is_root(r));
    }
    assert(a.is_root(root) && b.is_root(root)) by {
        reveal(PhysMemory::held);
    }
    assert forall|i: int| #![trigger plan[i]] 0 <= i < k + 1 implies lookup(
        b.ram,
        root,
        plan[i].va,
    ) == Some((0int, entry_for(pas[i], user_flags(plan[i].flags)))) && lookup(
        before.ram,
        root,
        plan[i].va,
    ) is None && page_holds(b, pas[i], plan[i].data) by {
        if i < k {
            assert(old_pas[i] == pas[i]);
            lemma_contents_kept(
                before,
                a,
                b,
                root,
                pages,
                set![pa],
                pas[i],
                plan[i].data,
                old_pas,
                0,
                k,
                i,
            );
            if same_vpn(plan[i].va, plan[k].va) {
                assert(same_vpn(plan[k].va, plan[i].va));
            }
            assert(lookup(b.ram, root, plan[i].va) == lookup(a.ram, root, plan[i].va));
        }
    }
    assert forall|r: int, v: int|
        b.is_root(r) && !(r == root && planned(plan, 0, k + 1, v)) implies #[trigger] lookup(
        b.ram,
        r,
        v,
    ) == lookup(before.ram, r, v) by {
        assert(a.is_root(r));
        if r == root {
            if planned(plan, 0, k, v) {
                let i = choose|i: int| 0 <= i < k && same_vpn(v, (#[trigger] plan[i]).va);
                assert(same_vpn(v, plan[i].va));
            }
            assert(!same_vpn(v, plan[k].va));
        }
        assert(lookup(b.ram, r, v) == lookup(a.ram, r, v));
    }
    assert forall|i: int, j: int| #![trigger pas[i], pas[j]] 0 <= i < j < k + 1 implies pas[i]
        != pas[j] by {
        assert(old_pas[i] == pas[i]);
        if j == k {
            assert(old_pas.subrange(0, k)[i] == pas[i]);
            assert(pages.contains(pas[i]));
        } else {
            assert(old_pas[j] == pas[j]);
        }
    }
    assert forall|i: int, j: int| #![trigger plan[i], plan[j]] 0 <= i < j < k + 1 implies !same_vpn(
        plan[i].va,
        plan[j].va,
    ) by {
        if j == k && same_vpn(plan[i].va, plan[k].va) {
            assert(same_vpn(plan[k].va, plan[i].va));
        }
    }
}

/// Map the next page of the plan.
fn place_page(
    m: &mut PhysMemory,
    root: u64,
    va: u64,
    flags: u64,
    data: &[u8],
    mapped: &mut Vec<(u64, u64)>,
    before: Ghost<PhysMemory>,
    plan: Ghost<Seq<PagePlan>>,
) -> (r: Result<(), ElfError>)
    requires
        loading(*old(m), before@, root as int, plan@, old(mapped)@),
        old(mapped)@.len() < plan@.len(),
        plan@[old(mapped)@.len() as int] == (PagePlan {
            va: va as int,
            flags: flags as int,
            data: data@,
        }),
    ensures
        match r {
            Err(e) => {
                &&& fault(before@, root as int, vas_of(plan@), old(mapped)@.len() as int) == Some(e)
                &&& final(mapped)@ == old(mapped)@
                &&& final(m).inv()
                &&& final(m).is_root(root as int)
                &&& placed(
                    *final(m),
                    before@,
                    root as int,
                    plan@,
                    pas_of(final(mapped)@),
                    0,
                    final(mapped)@.len() as int,
                )
            },
            Ok(_) => {
                &&& fault(before@, root as int, vas_of(plan@), old(mapped)@.len() as int) is None
                &&& loading(*final(m), before@, root as int, plan@, final(mapped)@)
                &&& final(mapped)@.len() == old(mapped)@.len() + 1
            },
        },
{
    let ghost a = *m;
    let ghost k = mapped@.len() as int;
    let ghost r0 = root as int;
    let ghost done = mapped@;
    proof {
        lemma_next_error(a, before@, r0, plan@, done);
        assert(plan_ok(plan@[k]));
    }
    match map_fresh(m, root, va, flags, data) {
        Err(e) => {
            proof {
                lemma_placed_kept(before@, a, *m, r0, plan@, pas_of(done), 0, k);
            }
            Err(e)
        },
        Ok(pa) => {
            mapped.push((va, pa));
            proof {
                let pas = pas_of(mapped@);
                assert(pas.take(k) =~= pas_of(done));
                assert(pas[k] == pa);
                lemma_placed_more(before@, a, *m, r0, plan@, pas, k);
                crate::mem::law_drawn_pages(before@.frames@, a.frames@);
                a.frames@.lemma_drawn_more(before@.frames@, m.frames@);
                assert forall|i: int| 0 <= i < k + 1 implies (#[trigger] pas[i]) == page_for(
                    before@,
                    r0,
                    vas_of(plan@),
                    i,
                ) by {
                    if i < k {
                        assert(pas_of(done)[i] == pas[i]);
                    }
                }
                assert forall|i: int| 0 <= i < k + 1 implies (#[trigger] mapped@[i]).0
                    == plan@[i].va by {
                    if i < k {
                        assert(done[i] == mapped@[i]);
                    }
                }
            }
            Ok(())
        },
    }
}

/// A page that is mapped small has all its tables.
proof fn lemma_small_has_path(m: PhysMemory, root: int, va: int)
    requires
        lookup(m.ram, root, va) matches Some((level, e)) && level == 0,
    ensures
        !crate::mmu::blocked(m.ram, root, va),
        missing(m.ram, root, va) == 0,
{
    reveal(lookup);
    reveal(missing);
}

/// The first mapped page is unmapped and given back.
proof fn lemma_placed_less(
    before: PhysMemory,
    a: PhysMemory,
    b: PhysMemory,
    c: PhysMemory,
    root: int,
    plan: Seq<PagePlan>,
    pas: Seq<int>,
    lo: int,
    hi: int,
)
    requires
        0 <= lo < hi <= pas.len(),
        hi <= plan.len(),
        placed(a, before, root, plan, pas, lo, hi),
        b.kept(&a, root),
        lookup(b.ram, root, plan[lo].va) is None,
        b.same_maps_but(&a, root, plan[lo].va),
        b.frames@.can_free(pas[lo]),
        c.inv(),
        c.ram == b.ram,
        c.owner@ == b.owner@,
        c.frames@ == b.frames@.after_free(b.frames@.index(pas[lo])),
        c.same_maps(&b),
    ensures
        placed(c, before, root, plan, pas, lo + 1, hi),
{
    reveal(placed);
    let pages = pas.subrange(lo, hi).to_set();
    let pa = pas[lo];
    PhysMemory::lemma_held_none(a, b, root);
    PhysMemory::lemma_held_steps(before, a, b, root, pages, Set::empty());
    assert(pages + Set::empty() =~= pages);
    assert(pas.subrange(lo, hi)[0] == pa);
    assert(pages.contains(pa));
    PhysMemory::lemma_held_back(before, b, c, root, pages, pa);
    let s = pas.subrange(lo + 1, hi);
    assert(s.to_set() =~= pages.remove(pa)) by {
        assert forall|x: int| s.to_set().contains(x) <==> #[trigger] pages.remove(pa).contains(x) by {
            if s.contains(x) {
                let i = choose|i: int| 0 <= i < s.len() && s[i] == x;
                assert(pas.subrange(lo, hi)[i + 1] == x);
                let (u, w) = (plan[lo], plan[lo + 1 + i]);
                assert(pas[lo] != pas[lo + 1 + i]);
            }
            if pages.remove(pa).contains(x) {
                let i = choose|i: int|
                    0 <= i < pas.subrange(lo, hi).len() && pas.subrange(lo, hi)[i] == x;
                assert(i != 0);
                assert(s[i - 1] == x);
            }
        }
    }
    assert(a.is_root(root) && b.is_root(root) && c.is_root(root)) by {
        reveal(PhysMemory::held);
    }
    assert forall|r: int| #[trigger] c.is_root(r) <==> before.is_root(r) by {
        assert(b.is_root(r) <==> a.is_root(r));
        assert(a.is_root(r) <==> before.is_root(r));
    }
    assert forall|i: int| #![trigger plan[i]] lo + 1 <= i < hi implies lookup(
        c.ram,
        root,
        plan[i].va,
    ) == Some((0int, entry_for(pas[i], user_flags(plan[i].flags)))) && lookup(
        before.ram,
        root,
        plan[i].va,
    ) is None && page_holds(c, pas[i], plan[i].data) by {
        lemma_contents_kept(
            before,
            a,
            b,
            root,
            pages,
            Set::empty(),
            pas[i],
            plan[i].data,
            pas,
            lo,
            hi,
            i,
        );
        assert forall|k: int| 0 <= k < 512 implies #[trigger] c.ram.word(pas[i] + 8 * k) == le64_at(
            plan[i].data,
            8 * k,
        ) by {
            assert(b.ram.word(pas[i] + 8 * k) == le64_at(plan[i].data, 8 * k));
        }
        let u = plan[lo];
        if same_vpn(plan[i].va, plan[lo].va) {
            assert(same_vpn(plan[lo].va, plan[i].va));
        }
        assert(lookup(b.ram, root, plan[i].va) == lookup(a.ram, root, plan[i].va));
    }
    assert forall|r: int, v: int|
        c.is_root(r) && !(r == root && planned(plan, lo + 1, hi, v)) implies #[trigger] lookup(
        c.ram,
        r,
        v,
    ) == lookup(before.ram, r, v) by {
        assert(b.is_root(r) && a.is_root(r));
        assert(lookup(c.ram, r, v) == lookup(b.ram, r, v));
        if r == root && same_vpn(v, plan[lo].va) {
            crate::mmu::lemma_lookup_page(b.ram, root, v, plan[lo].va);
            crate::mmu::lemma_lookup_page(before.ram, root, v, plan[lo].va);
        } else {
            assert(lookup(b.ram, r, v) == lookup(a.ram, r, v));
            if r == root && planned(plan, lo, hi, v) {
                let i = choose|i: int| lo <= i < hi && same_vpn(v, (#[trigger] plan[i]).va);
                assert(same_vpn(v, plan[i].va));
                assert(i != lo);
            }
        }
    }
}

/// Unmap and give back every page that was mapped.
fn rollback(
    m: &mut PhysMemory,
    root: u64,
    mapped: &Vec<(u64, u64)>,
    before: Ghost<PhysMemory>,
    plan: Ghost<Seq<PagePlan>>,
)
    requires
        old(m).inv(),
        old(m).is_root(root as int),
        mapped@.len() <= plan@.len(),
        forall|i: int| 0 <= i < mapped@.len() ==> (#[trigger] mapped@[i]).0 == plan@[i].va,
        placed(
            *old(m),
            before@,
            root as int,
            plan@,
            pas_of(mapped@),
            0,
            mapped@.len() as int,
        ),
    ensures
        final(m).inv(),
        final(m).is_root(root as int),
        final(m).held(&before@, root as int, Set::empty()),
        final(m).same_maps(&before@),
{
    let n: usize = mapped.len();
    let ghost pas = pas_of(mapped@);
    let ghost r0 = root as int;
    let mut i: usize = 0;
    while i < n
        invariant
            n == mapped@.len(),
            n <= plan@.len(),
            pas == pas_of(mapped@),
            r0 == root,
            i <= n,
            m.inv(),
            m.is_root(r0),
            forall|i: int| 0 <= i < n ==> (#[trigger] mapped@[i]).0 == plan@[i].va,
            placed(*m, before@, r0, plan@, pas, i as int, n as int),
        decreases n - i,
    {
        let (va, pa): (u64, u64) = mapped[i];
        let ghost a = *m;
        proof {
            reveal(placed);
            assert(mapped@[i as int].0 == plan@[i as int].va);
            assert(pas[i as int] == pa);
            let u = plan@[i as int];
            lemma_small_has_path(a, r0, va as int);
            a.frames.lemma_wf();
            crate::mem::law_page_available(a.frames@);
        }
        let r = unmap_4k(m, root, va);
        let ghost b = *m;
        proof {
            assert(r is Ok);
            let pages = pas.subrange(i as int, n as int).to_set();
            PhysMemory::lemma_held_none(a, b, r0);
            PhysMemory::lemma_held_steps(before@, a, b, r0, pages, Set::empty());
            assert(pages + Set::empty() =~= pages);
            assert(pas.subrange(i as int, n as int)[0] == pa);
            assert(pages.contains(pa as int));
            crate::mmu::lemma_held_can_free(before@, b, r0, pages, pa as int);
        }
        let f = m.free_block(pa);
        proof {
            lemma_placed_less(before@, a, b, *m, r0, plan@, pas, i as int, n as int);
            reveal(PhysMemory::kept);
        }
        i += 1;
    }
    proof {
        reveal(placed);
        assert(pas.subrange(n as int, n as int).to_set() =~= Set::empty());
        assert forall|v: int| !planned(plan@, n as int, n as int, v) by {}
    }
}

/// Number of pages that a segment occupies.
pub open spec fn page_span(s: Segment) -> int {
    (end_page(s) - first_page(s)) / 4096
}

/// Plan for one segment.
pub open spec fn seg_plan(b: Seq<u8>, s: Segment) -> Seq<PagePlan> {
    Seq::new(
        page_span(s) as nat,
        |k: int|
            PagePlan {
                va: first_page(s) + 4096 * k,
                flags: leaf_flags(s.flags),
                data: page_bytes(b, s, first_page(s) + 4096 * k),
            },
    )
}

/// Plan for the first `n` segments.
pub open spec fn segs_plan(b: Seq<u8>, s: Seq<Segment>, n: int) -> Seq<PagePlan>
    decreases n,
{
    if n <= 0 {
        Seq::empty()
    } else {
        segs_plan(b, s, n - 1) + seg_plan(b, s[n - 1])
    }
}

/// Plan for the stack.
pub open spec fn stack_plan(image: Seq<u8>) -> Seq<PagePlan> {
    Seq::new(
        USER_STACK_PAGES as nat,
        |k: int|
            PagePlan {
                va: stack_bottom() + 4096 * k,
                flags: 0xC7,
                data: image.subrange(4096 * k, 4096 * k + 4096),
            },
    )
}

/// Plan for the segments of a file.
pub open spec fn file_plan(b: Seq<u8>) -> Seq<PagePlan> {
    let s = segments(b, ph_count(b));
    segs_plan(b, s, s.len() as int)
}

/// Plan for a program: its segments and its stack.
pub open spec fn load_plan(b: Seq<u8>, image: Seq<u8>) -> Seq<PagePlan> {
    file_plan(b) + stack_plan(image)
}

/// Addresses of the pages of a program, in the order in which they are mapped.
pub open spec fn load_vas(b: Seq<u8>) -> Seq<int> {
    vas_of(file_plan(b)) + Seq::new(USER_STACK_PAGES as nat, |k: int| stack_bottom() + 4096 * k)
}

/// Why a program cannot be loaded into an address space.
pub open spec fn load_error(m: PhysMemory, root: int, b: Seq<u8>, args: Seq<&[u8]>) -> Option<
    ElfError,
> {
    let vas = load_vas(b);
    let n = file_plan(b).len() as int;
    if parse_error(b) is Some {
        parse_error(b)
    } else if first_fault(m, root, vas, 0, n) is Some {
        first_fault(m, root, vas, 0, n)
    } else if !args_ok(args) {
        Some(ElfError::BadSegment)
    } else if first_fault(m, root, vas, n, n + USER_STACK_PAGES) is Some {
        first_fault(m, root, vas, n, n + USER_STACK_PAGES)
    } else if !stack_fits(args) {
        Some(ElfError::BadSegment)
    } else {
        None
    }
}

/// The program was loaded: its pages are mapped as planned, to the pages that were handed out in
/// turn, and all else is as before.
pub open spec fn loaded(
    m: PhysMemory,
    before: PhysMemory,
    root: int,
    b: Seq<u8>,
    args: Seq<&[u8]>,
    image: Seq<u8>,
    pas: Seq<int>,
) -> bool {
    &&& stack_image(args, image)
    &&& pas.len() == load_plan(b, image).len()
    &&& forall|i: int| 0 <= i < pas.len() ==> plan_ok(#[trigger] load_plan(b, image)[i])
    &&& placed(m, before, root, load_plan(b, image), pas, 0, pas.len() as int)
    &&& forall|i: int|
        0 <= i < pas.len() ==> (#[trigger] pas[i]) == page_for(before, root, load_vas(b), i)
    &&& m.frames@ == before.frames@.after_pages(
        pages_taken(before, root, load_vas(b), pas.len() as int),
    )
}

pub proof fn lemma_segs_plan(b: Seq<u8>, s: Seq<Segment>, n: int, k: int)
    requires
        0 <= k <= n <= s.len(),
    ensures
        segs_plan(b, s, k).len() <= segs_plan(b, s, n).len(),
        segs_plan(b, s, n).take(segs_plan(b, s, k).len() as int) == segs_plan(b, s, k),
    decreases n,
{
    let p = segs_plan(b, s, n);
    let q = segs_plan(b, s, k);
    if k < n {
        lemma_segs_plan(b, s, n - 1, k);
        let r = segs_plan(b, s, n - 1);
        assert(p.take(q.len() as int) =~= r.take(q.len() as int));
    } else {
        assert(p.take(q.len() as int) =~= q);
    }
}

proof fn lemma_segs_plan_ok(b: Seq<u8>, s: Seq<Segment>, n: int)
    requires
        0 <= n <= s.len(),
        all_good(s, b.len() as int),
    ensures
        forall|i: int| 0 <= i < segs_plan(b, s, n).len() ==> plan_ok(#[trigger] segs_plan(b, s, n)[i]),
    decreases n,
{
    if n > 0 {
        lemma_segs_plan_ok(b, s, n - 1);
        let x = s[n - 1];
        assert(segment_error(x, b.len() as int) is None);
        lemma_seg_plan_ok(b, x);
        let p = segs_plan(b, s, n);
        let q = segs_plan(b, s, n - 1);
        assert forall|i: int| 0 <= i < p.len() implies plan_ok(#[trigger] p[i]) by {
            if i < q.len() {
                assert(p[i] == q[i]);
            } else {
                assert(p[i] == seg_plan(b, x)[i - q.len()]);
            }
        }
    }
}

pub proof fn lemma_seg_plan_ok(b: Seq<u8>, s: Segment)
    requires
        segment_error(s, b.len() as int) is None,
    ensures
        first_page(s) <= end_page(s) <= USER_VA_LIMIT,
        first_page(s) % 4096 == 0,
        end_page(s) == first_page(s) + 4096 * page_span(s),
        page_span(s) >= 0,
        forall|i: int| 0 <= i < seg_plan(b, s).len() ==> plan_ok(#[trigger] seg_plan(b, s)[i]),
{
    crate::bytes::lemma_round_up(s.vaddr + s.memsz, 4096);
    assert(end_page(s) <= USER_VA_LIMIT);
    assert forall|i: int| 0 <= i < seg_plan(b, s).len() implies plan_ok(
        #[trigger] seg_plan(b, s)[i],
    ) by {}
}


/// Map the pages of one segment.
fn map_segment(
    m: &mut PhysMemory,
    root: u64,
    seg: &Segment,
    bytes: &[u8],
    mapped: &mut Vec<(u64, u64)>,
    before: Ghost<PhysMemory>,
    plan: Ghost<Seq<PagePlan>>,
    n: Ghost<int>,
) -> (r: Result<(), ElfError>)
    requires
        segment_error(*seg, bytes@.len() as int) is None,
        loading(*old(m), before@, root as int, plan@, old(mapped)@),
        old(mapped)@.len() + page_span(*seg) <= n@ <= plan@.len(),
        forall|k: int|
            0 <= k < page_span(*seg) ==> plan@[old(mapped)@.len() + k] == #[trigger] seg_plan(
                bytes@,
                *seg,
            )[k],
        first_fault(before@, root as int, vas_of(plan@), 0, n@) == first_fault(
            before@,
            root as int,
            vas_of(plan@),
            old(mapped)@.len() as int,
            n@,
        ),
    ensures
        match r {
            Err(e) => {
                &&& first_fault(before@, root as int, vas_of(plan@), 0, n@) == Some(e)
                &&& final(m).inv()
                &&& final(m).is_root(root as int)
                &&& final(mapped)@.len() <= plan@.len()
                &&& forall|i: int|
                    0 <= i < final(mapped)@.len() ==> (#[trigger] final(mapped)@[i]).0
                        == plan@[i].va
                &&& placed(
                    *final(m),
                    before@,
                    root as int,
                    plan@,
                    pas_of(final(mapped)@),
                    0,
                    final(mapped)@.len() as int,
                )
            },
            Ok(_) => {
                &&& loading(*final(m), before@, root as int, plan@, final(mapped)@)
                &&& final(mapped)@.len() == old(mapped)@.len() + page_span(*seg)
                &&& first_fault(before@, root as int, vas_of(plan@), 0, n@) == first_fault(
                    before@,
                    root as int,
                    vas_of(plan@),
                    final(mapped)@.len() as int,
                    n@,
                )
            },
        },
{
    let ghost start_len = mapped@.len() as int;
    proof {
        lemma_seg_plan_ok(bytes@, *seg);
    }
    let start: u64 = align_down(seg.vaddr);
    let end: u64 = align_up(seg.vaddr + seg.memsz);
    let flags: u64 = segment_flags(seg.flags);
    let mut va: u64 = start;
    while va < end
        invariant
            segment_error(*seg, bytes@.len() as int) is None,
            start == first_page(*seg),
            end == end_page(*seg),
            end == start + 4096 * page_span(*seg),
            end <= USER_VA_LIMIT,
            flags == leaf_flags(seg.flags),
            start <= va <= end,
            start_len + page_span(*seg) <= n@ <= plan@.len(),
            loading(*m, before@, root as int, plan@, mapped@),
            va == start + 4096 * (mapped@.len() - start_len),
            start_len <= mapped@.len(),
            forall|k: int|
                0 <= k < page_span(*seg) ==> plan@[start_len + k] == #[trigger] seg_plan(
                    bytes@,
                    *seg,
                )[k],
            first_fault(before@, root as int, vas_of(plan@), 0, n@) == first_fault(
                before@,
                root as int,
                vas_of(plan@),
                mapped@.len() as int,
                n@,
            ),
        decreases end - va,
    {
        let data: Vec<u8> = page_image(bytes, seg, va);
        let ghost k = mapped@.len() - start_len;
        proof {
            assert(plan@[start_len + k] == seg_plan(bytes@, *seg)[k]);
        }
        if let Err(e) = place_page(m, root, va, flags, data.as_slice(), mapped, before, plan) {
            return Err(e);
        }
        va = va + 4096;
    }
    Ok(())
}

/// Map the pages of the stack.
fn map_stack(
    m: &mut PhysMemory,
    root: u64,
    image: &[u8],
    mapped: &mut Vec<(u64, u64)>,
    before: Ghost<PhysMemory>,
    plan: Ghost<Seq<PagePlan>>,
) -> (r: Result<(), ElfError>)
    requires
        image@.len() == USER_STACK_SIZE,
        loading(*old(m), before@, root as int, plan@, old(mapped)@),
        plan@.len() == old(mapped)@.len() + USER_STACK_PAGES,
        forall|k: int|
            0 <= k < USER_STACK_PAGES ==> plan@[old(mapped)@.len() + k] == #[trigger] stack_plan(
                image@,
            )[k],
    ensures
        match r {
            Err(e) => {
                &&& first_fault(
                    before@,
                    root as int,
                    vas_of(plan@),
                    old(mapped)@.len() as int,
                    plan@.len() as int,
                ) == Some(e)
                &&& final(m).inv()
                &&& final(m).is_root(root as int)
                &&& final(mapped)@.len() <= plan@.len()
                &&& forall|i: int|
                    0 <= i < final(mapped)@.len() ==> (#[trigger] final(mapped)@[i]).0
                        == plan@[i].va
                &&& placed(
                    *final(m),
                    before@,
                    root as int,
                    plan@,
                    pas_of(final(mapped)@),
                    0,
                    final(mapped)@.len() as int,
                )
            },
            Ok(_) => {
                &&& loading(*final(m), before@, root as int, plan@, final(mapped)@)
                &&& final(mapped)@.len() == plan@.len()
                &&& first_fault(
                    before@,
                    root as int,
                    vas_of(plan@),
                    old(mapped)@.len() as int,
                    plan@.len() as int,
                ) is None
            },
        },
{
    let ghost n1 = mapped@.len() as int;
    let ghost n = plan@.len() as int;
    let bottom: u64 = USER_STACK_TOP - USER_STACK_SIZE as u64;
    let mut k: usize = 0;
    while k < USER_STACK_PAGES
        invariant
            k <= USER_STACK_PAGES,
            bottom == stack_bottom(),
            image@.len() == USER_STACK_SIZE,
            n == plan@.len(),
            n == n1 + USER_STACK_PAGES,
            n1 == old(mapped)@.len(),
            loading(*m, before@, root as int, plan@, mapped@),
            mapped@.len() == n1 + k,
            forall|k: int|
                0 <= k < USER_STACK_PAGES ==> plan@[n1 + k] == #[trigger] stack_plan(image@)[k],
            first_fault(before@, root as int, vas_of(plan@), n1, n) == first_fault(
                before@,
                root as int,
                vas_of(plan@),
                mapped@.len() as int,
                n,
            ),
        decreases USER_STACK_PAGES - k,
    {
        let data: &[u8] = vstd::slice::slice_subrange(image, 4096 * k, 4096 * k + 4096);
        proof {
            assert(plan@[n1 + k] == stack_plan(image@)[k as int]);
        }
        let va: u64 = bottom + 4096 * k as u64;
        if let Err(e) = place_page(m, root, va, 0xC7, data, mapped, before, plan) {
            return Err(e);
        }
        k += 1;
    }
    Ok(())
}

/// A stack without contents.
fn blank_stack() -> (r: Vec<u8>)
    ensures
        r@.len() == USER_STACK_SIZE,
{
    let mut v: Vec<u8> = Vec::new();
    let mut k: usize = 0;
    while k < USER_STACK_SIZE
        invariant
            k <= USER_STACK_SIZE,
            v@.len() == k,
        decreases USER_STACK_SIZE - k,
    {
        v.push(0);
        k += 1;
    }
    v
}

/// Whether pointers and count fit below the arguments; their places.
fn stack_places(args: &[&[u8]]) -> (r: Option<(u64, u64)>)
    requires
        args_ok(args@),
    ensures
        match r {
            None => !stack_fits(args@),
            Some((sp, argv)) => stack_fits(args@) && sp == sp_at(args@) && argv == argv_at(args@),
        },
{
    let n: usize = args.len();
    proof {
        lemma_args_len(args@, 0, n as int);
    }
    let total: usize = total_len(args);
    let area: u64 = (USER_STACK_TOP - total as u64) - (USER_STACK_TOP - total as u64) % 16;
    let below: u64 = area - (n as u64 + 1) * 8;
    let argv: u64 = below - below % 16;
    if argv < USER_STACK_TOP - USER_STACK_SIZE as u64 + 16 {
        return None;
    }
    let sp: u64 = (argv - 8) - (argv - 8) % 16;
    Some((sp, argv))
}

/// Load a program into the address space of `root`.
///
/// On failure every page that was mapped is unmapped and given back; only tables may have been
/// made.
pub fn load_into(m: &mut PhysMemory, root: u64, bytes: &[u8], args: &[&[u8]]) -> (r: Result<
    LoadedElf,
    ElfError,
>)
    requires
        old(m).inv(),
        old(m).is_root(root as int),
    ensures
        final(m).inv(),
        final(m).is_root(root as int),
        match r {
            Err(e) => {
                &&& load_error(*old(m), root as int, bytes@, args@) == Some(e)
                &&& final(m).held(old(m), root as int, Set::empty())
                &&& final(m).same_maps(old(m))
            },
            Ok(p) => {
                &&& load_error(*old(m), root as int, bytes@, args@) is None
                &&& p.entry == le64_at(bytes@, 24)
                &&& p.stack_top == sp_at(args@)
                &&& p.argc == args@.len()
                &&& p.argv == argv_at(args@)
                &&& exists|image: Seq<u8>, pas: Seq<int>| #[trigger]
                    loaded(*final(m), *old(m), root as int, bytes@, args@, image, pas)
            },
        },
{
    let ghost before = *m;
    let ghost r0 = root as int;
    proof {
        crate::mmu::lemma_unchanged(before, r0);
    }
    let info: ElfInfo = match parse(bytes) {
        Ok(i) => i,
        Err(e) => {
            return Err(e);
        },
    };
    let fine: bool = check_args(args);
    let places: Option<(u64, u64)> = if fine {
        stack_places(args)
    } else {
        None
    };
    let image: Vec<u8> = if places.is_some() {
        stack_contents(args)
    } else {
        blank_stack()
    };
    let ghost plan = load_plan(bytes@, image@);
    let ghost segs = info.segments@;
    let ghost n1 = file_plan(bytes@).len() as int;
    let mut mapped: Vec<(u64, u64)> = Vec::new();
    proof {
        lemma_segs_plan_ok(bytes@, segs, segs.len() as int);
        assert forall|i: int| 0 <= i < plan.len() implies plan_ok(#[trigger] plan[i]) by {
            if i < n1 {
                assert(plan[i] == file_plan(bytes@)[i]);
            } else {
                assert(plan[i] == stack_plan(image@)[i - n1]);
            }
        }
        assert(vas_of(plan) =~= load_vas(bytes@)) by {
            assert forall|i: int| 0 <= i < plan.len() implies vas_of(plan)[i] == #[trigger] load_vas(
                bytes@,
            )[i] by {
                if i < n1 {
                    assert(plan[i] == file_plan(bytes@)[i]);
                } else {
                    assert(plan[i] == stack_plan(image@)[i - n1]);
                }
            }
        }
        lemma_loading_start(before, r0, plan);
        assert(pas_of(mapped@) =~= Seq::empty());
    }
    let n: usize = info.segments.len();
    let mut i: usize = 0;
    while i < n
        invariant
            before == *old(m),
            r0 == root,
            segs == info.segments@,
            n == segs.len(),
            i <= n,
            parse_error(bytes@) is None,
            segs == segments(bytes@, ph_count(bytes@)),
            all_good(segs, bytes@.len() as int),
            plan == load_plan(bytes@, image@),
            n1 == file_plan(bytes@).len(),
            vas_of(plan) == load_vas(bytes@),
            loading(*m, before, r0, plan, mapped@),
            mapped@.len() == segs_plan(bytes@, segs, i as int).len(),
            first_fault(before, r0, vas_of(plan), 0, n1) == first_fault(
                before,
                r0,
                vas_of(plan),
                mapped@.len() as int,
                n1,
            ),
        decreases n - i,
    {
        let seg: Segment = info.segments[i];
        proof {
            assert(segment_error(segs[i as int], bytes@.len() as int) is None);
            lemma_seg_plan_ok(bytes@, seg);
            lemma_segs_plan(bytes@, segs, n as int, i + 1);
            let p0 = segs_plan(bytes@, segs, i as int);
            let p1 = segs_plan(bytes@, segs, i + 1);
            let pf = file_plan(bytes@);
            assert(p1 == p0 + seg_plan(bytes@, seg));
            assert forall|k: int| 0 <= k < page_span(seg) implies plan[mapped@.len() + k]
                == #[trigger] seg_plan(bytes@, seg)[k] by {
                assert(p1[p0.len() + k] == seg_plan(bytes@, seg)[k]);
                assert(pf.take(p1.len() as int)[p0.len() + k] == pf[p0.len() + k]);
            }
        }
        if let Err(e) = map_segment(
            m,
            root,
            &seg,
            bytes,
            &mut mapped,
            Ghost(before),
            Ghost(plan),
            Ghost(n1),
        ) {
            rollback(m, root, &mapped, Ghost(before), Ghost(plan));
            return Err(e);
        }
        i += 1;
    }
    assert(first_fault(before, r0, vas_of(plan), 0, n1) is None);
    if !fine {
        rollback(m, root, &mapped, Ghost(before), Ghost(plan));
        return Err(ElfError::BadSegment);
    }
    proof {
        assert forall|k: int| 0 <= k < USER_STACK_PAGES implies plan[mapped@.len() + k]
            == #[trigger] stack_plan(image@)[k] by {}
    }
    if let Err(e) = map_stack(m, root, image.as_slice(), &mut mapped, Ghost(before), Ghost(plan)) {
        rollback(m, root, &mapped, Ghost(before), Ghost(plan));
        return Err(e);
    }
    match places {
        None => {
            rollback(m, root, &mapped, Ghost(before), Ghost(plan));
            Err(ElfError::BadSegment)
        },
        Some((sp, argv)) => {
            proof {
                crate::mem::law_drawn_pages(before.frames@, m.frames@);
                assert(vas_of(plan) == load_vas(bytes@));
                assert(loaded(*m, before, r0, bytes@, args@, image@, pas_of(mapped@)));
            }
            Ok(LoadedElf { entry: info.entry, stack_top: sp, argc: args.len(), argv })
        },
    }
}

/// Nothing is mapped yet.
proof fn lemma_loading_start(m: PhysMemory, root: int, plan: Seq<PagePlan>)
    requires
        m.inv(),
        m.is_root(root),
        forall|i: int| 0 <= i < plan.len() ==> plan_ok(#[trigger] plan[i]),
    ensures
        loading(m, m, root, plan, Seq::empty()),
{
    reveal(placed);
    crate::mmu::lemma_unchanged(m, root);
    m.frames@.lemma_drawn_none();
    let e = Seq::<(u64, u64)>::empty();
    let vas = vas_of(plan);
    assert(pas_of(e).subrange(0, 0).to_set() =~= Set::empty());
    assert(gig_set(vas, 0) =~= Set::empty());
    assert(meg_set(vas, 0) =~= Set::empty());
    assert(mids(m.ram, root) + gig_set(vas, 0) =~= mids(m.ram, root));
    assert(lows(m.ram, root) + meg_set(vas, 0) =~= lows(m.ram, root));
}

/// Why a program cannot be loaded into a process.
pub open spec fn process_load_error(s: Spaces, pid: int, b: Seq<u8>, args: Seq<&[u8]>) -> Option<
    ElfError,
> {
    if parse_error(b) is Some {
        parse_error(b)
    } else if !s.procs@.dom().contains(pid) {
        Some(ElfError::BadProcess)
    } else {
        load_error(s.mem, s.procs@[pid].root as int, b, args)
    }
}

/// The pages of a program, as the process sees them.
pub proof fn lemma_loaded_pages(
    m: PhysMemory,
    before: PhysMemory,
    root: int,
    b: Seq<u8>,
    args: Seq<&[u8]>,
    image: Seq<u8>,
    pas: Seq<int>,
)
    requires
        before.inv(),
        m.inv(),
        before.is_root(root),
        loaded(m, before, root, b, args, image, pas),
    ensures
        forall|p: int| #[trigger] plain(before, p) ==> plain(m, p),
        forall|i: int| 0 <= i < pas.len() ==> plain(m, #[trigger] pas[i]) && !plain(before, pas[i]),
        forall|i: int|
            0 <= i < pas.len() ==> page_addr((#[trigger] load_plan(b, image)[i]).va) && user_page(
                m,
                root,
                load_plan(b, image)[i].va,
            ) == Some(pas[i]) && user_page(before, root, load_plan(b, image)[i].va) is None,
        forall|i: int, k: int| #![trigger pas[i], pas[k]] 0 <= i < k < pas.len() ==> pas[i] != pas[k],
        m.frames@.base == before.frames@.base,
        m.frames@.pages == before.frames@.pages,
{
    let plan = load_plan(b, image);
    let n = pas.len() as int;
    let pages = pas.subrange(0, n).to_set();
    assert(m.held(&before, root, pages)) by {
        reveal(placed);
    }
    crate::space::lemma_held_plain(before, m, root, pages);
    assert forall|i: int| 0 <= i < n implies plain(m, #[trigger] pas[i]) && !plain(before, pas[i]) by {
        assert(pas.subrange(0, n)[i] == pas[i]);
        assert(pas.subrange(0, n).contains(pas[i]));
        assert(pages.contains(pas[i]));
    }
    assert forall|i: int| 0 <= i < n implies page_addr((#[trigger] plan[i]).va) && user_page(
        m,
        root,
        plan[i].va,
    ) == Some(pas[i]) && user_page(before, root, plan[i].va) is None by {
        let p = plan[i];
        assert(plan_ok(p));
        assert(plain(m, pas[i]));
        m.lemma_page(pas[i], 0);
        m.frames.lemma_wf();
        crate::mem::law_block_placement(m.frames@, pas[i], 0);
        crate::tiling::lemma_block_pages_values();
        crate::sv39::lemma_entry(pas[i], user_flags(p.flags));
        assert(lookup(m.ram, root, p.va) == Some((0int, entry_for(pas[i], user_flags(p.flags))))
            && lookup(before.ram, root, p.va) is None) by {
            reveal(placed);
        }
    }
    assert(forall|i: int, k: int| #![trigger pas[i], pas[k]]
        0 <= i < k < pas.len() ==> pas[i] != pas[k]) by {
        reveal(placed);
    }
}

/// Only planned addresses of the address space changed.
proof fn lemma_loaded_rest(
    m: PhysMemory,
    before: PhysMemory,
    root: int,
    plan: Seq<PagePlan>,
    pas: Seq<int>,
    r: int,
    v: int,
)
    requires
        placed(m, before, root, plan, pas, 0, pas.len() as int),
        pas.len() <= plan.len(),
        forall|i: int| 0 <= i < pas.len() ==> plan_ok(#[trigger] plan[i]),
        before.is_root(r),
        page_addr(v),
    ensures
        m.is_root(r),
        lookup(m.ram, r, v) == lookup(before.ram, r, v) || (r == root && exists|i: int|
            0 <= i < pas.len() && (#[trigger] plan[i]).va == v),
        lookup(m.ram, r, v) == lookup(before.ram, r, v) || (lookup(m.ram, r, v) matches Some(
            (level, e),
        ) ==> level == 0),
{
    reveal(placed);
    assert(m.is_root(r));
    let n = pas.len() as int;
    if r == root && planned(plan, 0, n, v) {
        let i = choose|i: int| 0 <= i < n && same_vpn(v, (#[trigger] plan[i]).va);
        assert(plan_ok(plan[i]));
        crate::sv39::lemma_vpn(v, plan[i].va);
        assert(plan[i].va == v);
    }
}

/// The pages of a program are the process's own.
proof fn lemma_loaded_inv(
    s: Spaces,
    before: Spaces,
    pid: int,
    b: Seq<u8>,
    args: Seq<&[u8]>,
    image: Seq<u8>,
    pas: Seq<int>,
)
    requires
        before.inv(),
        before.alive(pid),
        s.mem.inv(),
        s.procs == before.procs,
        s.shms == before.shms,
        s.pages == before.pages,
        loaded(s.mem, before.mem, before.procs@[pid].root as int, b, args, image, pas),
    ensures
        s.inv(),
{
    let root = before.procs@[pid].root as int;
    let plan = load_plan(b, image);
    let n = pas.len() as int;
    assert(before.mem.is_root(root));
    lemma_loaded_pages(s.mem, before.mem, root, b, args, image, pas);
    assert forall|j: int| #![trigger s.procs@[j]] s.alive(j) implies s.mem.is_root(
        s.procs@[j].root as int,
    ) && small_only(s.mem, s.procs@[j].root as int) by {
        let r = before.procs@[j].root as int;
        assert(before.mem.is_root(r));
        lemma_loaded_rest(s.mem, before.mem, root, plan, pas, r, 0);
        assert forall|v: int| page_addr(v) implies #[trigger] lookup(s.mem.ram, r, v) == lookup(
            before.mem.ram,
            r,
            v,
        ) || (lookup(s.mem.ram, r, v) matches Some((level, e)) ==> level == 0) by {
            lemma_loaded_rest(s.mem, before.mem, root, plan, pas, r, v);
        }
        lemma_small(before.mem, s.mem, r);
    }
    assert forall|j: int, v: int| before.alive(j) && page_addr(v) implies {
        ||| #[trigger] s.sees(j, v) == before.sees(j, v)
        ||| j == pid && exists|i: int| 0 <= i < n && (#[trigger] plan[i]).va == v
    } by {
        let r = before.procs@[j].root as int;
        assert(before.mem.is_root(r));
        if j != pid {
            assert(before.procs@[j].root != before.procs@[pid].root);
        }
        lemma_loaded_rest(s.mem, before.mem, root, plan, pas, r, v);
    }
    assert forall|j: int, v: int| before.alive(j) && page_addr(v) implies #[trigger] s.sees(j, v)
        == before.sees(j, v) || (j == pid && before.sees(j, v) is None && s.sees(j, v) is Some
        && plain(s.mem, s.sees(j, v)->0) && !plain(before.mem, s.sees(j, v)->0)) by {
        if s.sees(j, v) != before.sees(j, v) {
            let i = choose|i: int| 0 <= i < n && (#[trigger] plan[i]).va == v;
            assert(user_page(s.mem, root, plan[i].va) == Some(pas[i]));
        }
    }
    assert forall|v: int, w: int|
        #![trigger s.sees(pid, v), s.sees(pid, w)]
        page_addr(v) && page_addr(w) && s.sees(pid, v) == s.sees(pid, w) && before.sees(pid, v)
            is None && before.sees(pid, w) is None && s.sees(pid, v) is Some implies v == w by {
        let i = choose|i: int| 0 <= i < n && (#[trigger] plan[i]).va == v;
        let k = choose|k: int| 0 <= k < n && (#[trigger] plan[k]).va == w;
        assert(user_page(s.mem, root, plan[i].va) == Some(pas[i]));
        assert(user_page(s.mem, root, plan[k].va) == Some(pas[k]));
        if i < k {
            assert(pas[i] != pas[k]);
        } else if k < i {
            assert(pas[k] != pas[i]);
        }
    }
    assert forall|i: int, j: int|
        #![trigger s.procs@[i], s.procs@[j]]
        s.alive(i) && s.alive(j) && i != j implies s.procs@[i].root != s.procs@[j].root by {
        assert(before.procs@[i].root != before.procs@[j].root);
    }
    assert(s.no_new_page_caps(&before)) by {
        assert forall|i: int, k: int, p: usize| #[trigger] s.holds_page(
            i,
            k,
            p,
        ) implies before.holds_page(i, k, p) by {}
    }
    Spaces::lemma_private_added(before, s, pid);
}

/// Load a program into the address space of a process and set up its stack. Whatever fails is
/// undone: no page stays mapped and none is lost.
pub fn load(s: &mut Spaces, pid: usize, bytes: &[u8], args: &[&[u8]]) -> (r: Result<
    LoadedElf,
    ElfError,
>)
    requires
        old(s).inv(),
    ensures
        final(s).inv(),
        final(s).procs == old(s).procs,
        final(s).shms == old(s).shms,
        final(s).pages == old(s).pages,
        match r {
            Err(e) => {
                &&& process_load_error(*old(s), pid as int, bytes@, args@) == Some(e)
                &&& tables_only(final(s).mem, old(s).mem)
            },
            Ok(p) => {
                let root = old(s).procs@[pid as int].root as int;
                &&& process_load_error(*old(s), pid as int, bytes@, args@) is None
                &&& p.entry == le64_at(bytes@, 24)
                &&& p.stack_top == sp_at(args@)
                &&& p.argc == args@.len()
                &&& p.argv == argv_at(args@)
                &&& exists|image: Seq<u8>, pas: Seq<int>| #[trigger]
                    loaded(final(s).mem, old(s).mem, root, bytes@, args@, image, pas)
            },
        },
{
    proof {
        crate::shm::lemma_nothing_done(s.mem);
    }
    if let Err(e) = parse(bytes) {
        return Err(e);
    }
    let root: u64 = match pid_root(&s.procs, pid) {
        Some(r) => r,
        None => {
            return Err(ElfError::BadProcess);
        },
    };
    let ghost before = *s;
    let r = load_into(&mut s.mem, root, bytes, args);
    proof {
        match r {
            Ok(_) => {
                let (image, pas) = choose|image: Seq<u8>, pas: Seq<int>| #[trigger]
                    loaded(s.mem, before.mem, root as int, bytes@, args@, image, pas);
                lemma_loaded_inv(*s, before, pid as int, bytes@, args@, image, pas);
            },
            Err(_) => {
                crate::shm::lemma_tables_only(before.mem, s.mem, root as int);
                Spaces::lemma_tables_only(before, *s);
            },
        }
    }
    r
}

/// Law: what a program may write it may not execute, whatever its file asks for.
pub proof fn law_segment_write_xor_execute(flags: u32)
    ensures
        !(leaf_flags(flags) / 4 % 2 == 1 && leaf_flags(flags) / 8 % 2 == 1),
{
}

} // verus!
