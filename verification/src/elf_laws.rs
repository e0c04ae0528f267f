//! What loading a program is for: what the program finds at its addresses when it starts, and which
//! files are programs.

use vstd::prelude::*;
use crate::bytes::{le16_at, le32_at, le64_at};
use crate::elf::{
    arg_at, args_len, args_ok, argv_at, ascending, collides, end_page, fault, file_plan,
    first_fault, first_page, free_after, is_load, law_segments_disjoint, leaf_flags, lemma_args_len,
    lemma_insert_ascending, lemma_loaded_pages, lemma_rank, lemma_seg_plan_ok, lemma_segs_plan,
    load_plan, load_vas, loaded, page_holds, page_span, parse_error, ph_at, ph_count, placed,
    process_load_error, rank, seg_plan, segment_at, segment_error, segments, segments_error,
    segs_plan, sp_at, stack_fits, stack_plan, text_area, ElfError, Segment,
};
use crate::mmu::{lookup, PhysMemory};
use crate::paging_laws::lemma_parts;
use crate::ram::law_page_bytes;
use crate::space::{user_page, Spaces};
use crate::sv39::{entry_for, lemma_vpn, same_vpn, user_flags};

verus! {

/// The number in `n` bytes, the lowest first.
pub open spec fn number(b: Seq<u8>, i: int, n: int) -> int
    decreases n,
{
    if n <= 0 {
        0
    } else {
        b[i] + 256 * number(b, i + 1, n - 1)
    }
}

/// Law: numbers in a program's file have their lowest byte first.
pub proof fn law_numbers_are_little_endian(b: Seq<u8>, i: int)
    ensures
        le16_at(b, i) == number(b, i, 2),
        le32_at(b, i) == number(b, i, 4),
        le64_at(b, i) == number(b, i, 8),
        0 <= number(b, i, 2) < 0x1_0000,
        0 <= number(b, i, 4) < 0x1_0000_0000,
        0 <= number(b, i, 8) < 0x1_0000_0000_0000_0000,
{
    reveal_with_fuel(number, 9);
}

/// Number of program headers.
pub open spec fn headers(b: Seq<u8>) -> int {
    number(b, 56, 2)
}

/// Offset of program header `h`.
pub open spec fn header_at(b: Seq<u8>, h: int) -> int {
    number(b, 32, 8) + 56 * h
}

/// Program header `h` names something to load.
pub open spec fn loads(b: Seq<u8>, h: int) -> bool {
    0 <= h < headers(b) && number(b, header_at(b, h), 4) == 1
}

/// Where program header `h` says that its bytes begin in the file.
pub open spec fn file_start(b: Seq<u8>, h: int) -> int {
    number(b, header_at(b, h) + 8, 8)
}

/// Address that program header `h` asks for.
pub open spec fn start(b: Seq<u8>, h: int) -> int {
    number(b, header_at(b, h) + 16, 8)
}

/// Bytes that program header `h` takes from the file.
pub open spec fn file_bytes(b: Seq<u8>, h: int) -> int {
    number(b, header_at(b, h) + 32, 8)
}

/// Bytes that program header `h` takes in memory.
pub open spec fn memory_bytes(b: Seq<u8>, h: int) -> int {
    number(b, header_at(b, h) + 40, 8)
}

/// Access that program header `h` asks for.
pub open spec fn access(b: Seq<u8>, h: int) -> int {
    number(b, header_at(b, h) + 4, 4)
}

/// What is read from a program header is what stands in the file.
proof fn lemma_header(b: Seq<u8>, h: int)
    ensures
        ph_count(b) == headers(b),
        ph_at(b, h) == header_at(b, h),
        is_load(b, h) == (number(b, header_at(b, h), 4) == 1),
        segment_at(b, h).offset == file_start(b, h),
        segment_at(b, h).vaddr == start(b, h),
        segment_at(b, h).filesz == file_bytes(b, h),
        segment_at(b, h).memsz == memory_bytes(b, h),
        segment_at(b, h).flags == access(b, h),
{
    law_numbers_are_little_endian(b, 32);
    law_numbers_are_little_endian(b, 56);
    let at = header_at(b, h);
    law_numbers_are_little_endian(b, at);
    law_numbers_are_little_endian(b, at + 4);
    law_numbers_are_little_endian(b, at + 8);
    law_numbers_are_little_endian(b, at + 16);
    law_numbers_are_little_endian(b, at + 32);
    law_numbers_are_little_endian(b, at + 40);
}

/// The list `s` holds what `seg` gives for the numbers `hs` below `n`, which are different, and are
/// all that `ld` names.
spec fn listed(
    s: Seq<Segment>,
    hs: Seq<int>,
    n: int,
    seg: spec_fn(int) -> Segment,
    ld: spec_fn(int) -> bool,
) -> bool {
    &&& hs.len() == s.len()
    &&& forall|i: int|
        0 <= i < hs.len() ==> 0 <= #[trigger] hs[i] < n && ld(hs[i]) && s[i] == seg(hs[i])
    &&& forall|i: int, j: int| 0 <= i < j < hs.len() ==> #[trigger] hs[i] != #[trigger] hs[j]
    &&& forall|h: int| 0 <= h < n && #[trigger] ld(h) ==> hs.contains(h)
}

proof fn lemma_listed_more(
    s: Seq<Segment>,
    g: Seq<int>,
    n: int,
    seg: spec_fn(int) -> Segment,
    ld: spec_fn(int) -> bool,
    k: int,
)
    requires
        listed(s, g, n, seg, ld),
        ld(n),
        0 <= k <= s.len(),
        n >= 0,
    ensures
        listed(s.insert(k, seg(n)), g.insert(k, n), n + 1, seg, ld),
{
    let hs = g.insert(k, n);
    let t = s.insert(k, seg(n));
    assert forall|i: int| 0 <= i < hs.len() implies 0 <= #[trigger] hs[i] < n + 1 && ld(hs[i]) && t[i]
        == seg(hs[i]) by {
        if i < k {
            assert(hs[i] == g[i]);
        } else if i > k {
            assert(hs[i] == g[i - 1]);
        }
    }
    assert forall|i: int, j: int| 0 <= i < j < hs.len() implies #[trigger] hs[i]
        != #[trigger] hs[j] by {
        if i < k {
            assert(hs[i] == g[i]);
        } else if i > k {
            assert(hs[i] == g[i - 1]);
        }
        if j < k {
            assert(hs[j] == g[j]);
        } else if j > k {
            assert(hs[j] == g[j - 1]);
        }
    }
    assert forall|h: int| 0 <= h < n + 1 && #[trigger] ld(h) implies hs.contains(h) by {
        if h == n {
            assert(hs[k] == h);
        } else {
            let i = choose|i: int| 0 <= i < g.len() && g[i] == h;
            if i < k {
                assert(hs[i] == h);
            } else {
                assert(hs[i + 1] == h);
            }
        }
    }
}

/// The list of all segments.
proof fn lemma_all_listed(b: Seq<u8>, n: int) -> (hs: Seq<int>)
    requires
        n >= 0,
    ensures
        listed(segments(b, n), hs, n, |h: int| segment_at(b, h), |h: int| is_load(b, h)),
        ascending(segments(b, n)),
    decreases n,
{
    let seg = |h: int| segment_at(b, h);
    let ld = |h: int| is_load(b, h);
    if n <= 0 {
        Seq::empty()
    } else {
        let s = segments(b, n - 1);
        let g = lemma_all_listed(b, n - 1);
        if ld(n - 1) {
            let x = seg(n - 1);
            let k = rank(s, x.vaddr);
            lemma_rank(s, x.vaddr);
            lemma_insert_ascending(s, x);
            lemma_listed_more(s, g, n - 1, seg, ld, k);
            g.insert(k, n - 1)
        } else {
            g
        }
    }
}

/// The segments of a file are those of its program headers, each once, in ascending order.
proof fn lemma_segments(b: Seq<u8>, n: int) -> (hs: Seq<int>)
    requires
        n >= 0,
    ensures
        hs.len() == segments(b, n).len(),
        forall|i: int|
            0 <= i < hs.len() ==> 0 <= #[trigger] hs[i] < n && is_load(b, hs[i]) && segments(
                b,
                n,
            )[i] == segment_at(b, hs[i]),
        forall|i: int, j: int| 0 <= i < j < hs.len() ==> #[trigger] hs[i] != #[trigger] hs[j],
        forall|h: int| 0 <= h < n && #[trigger] is_load(b, h) ==> hs.contains(h),
        ascending(segments(b, n)),
{
    let hs = lemma_all_listed(b, n);
    let ld = |h: int| is_load(b, h);
    assert forall|h: int| 0 <= h < n && #[trigger] is_load(b, h) implies hs.contains(h) by {
        assert(ld(h));
    }
    hs
}

/// Every good file has good segments only.
proof fn lemma_good(b: Seq<u8>, i: int, h: int)
    requires
        segments_error(b, i) is None,
        i <= h < ph_count(b),
        is_load(b, h),
    ensures
        segment_error(segment_at(b, h), b.len() as int) is None,
    decreases ph_count(b) - i,
{
    if i < h {
        lemma_good(b, i + 1, h);
    }
}

/// What is good everywhere has no error.
proof fn lemma_all_good(b: Seq<u8>, i: int)
    requires
        forall|h: int|
            i <= h < ph_count(b) && #[trigger] is_load(b, h) ==> segment_error(
                segment_at(b, h),
                b.len() as int,
            ) is None,
    ensures
        segments_error(b, i) is None,
    decreases ph_count(b) - i,
{
    if i < ph_count(b) {
        lemma_all_good(b, i + 1);
    }
}

/// The address is mapped for the program, and the byte that the program finds there is this one.
pub open spec fn finds(m: PhysMemory, root: int, va: int, x: u8) -> bool {
    user_page(m, root, va - va % 4096) matches Some(p) && m.ram.byte(p + va % 4096) == x
}

/// A planned page is found where it is planned.
proof fn lemma_finds(
    m: PhysMemory,
    before: PhysMemory,
    root: int,
    b: Seq<u8>,
    args: Seq<&[u8]>,
    image: Seq<u8>,
    pas: Seq<int>,
    i: int,
    k: int,
)
    requires
        before.inv(),
        m.inv(),
        before.is_root(root),
        loaded(m, before, root, b, args, image, pas),
        0 <= i < load_plan(b, image).len(),
        0 <= k < 4096,
    ensures
        finds(m, root, load_plan(b, image)[i].va + k, load_plan(b, image)[i].data[k]),
        lookup(m.ram, root, load_plan(b, image)[i].va) == Some(
            (0int, entry_for(pas[i], user_flags(load_plan(b, image)[i].flags))),
        ),
{
    let plan = load_plan(b, image);
    lemma_loaded_pages(m, before, root, b, args, image, pas);
    assert(pas.len() == plan.len());
    assert(crate::elf::plan_ok(plan[i]));
    assert(page_holds(m, pas[i], plan[i].data) && lookup(m.ram, root, plan[i].va) == Some(
        (0int, entry_for(pas[i], user_flags(plan[i].flags))),
    )) by {
        reveal(placed);
    }
    assert(user_page(m, root, plan[i].va) == Some(pas[i]));
    assert(crate::space::plain(m, pas[i]));
    lemma_found(m, root, plan[i].va, pas[i], plan[i].data, k);
}

/// A byte of a page is found where the page is mapped.
#[verifier::spinoff_prover]
proof fn lemma_found(m: PhysMemory, root: int, va: int, pa: int, data: Seq<u8>, k: int)
    requires
        m.inv(),
        va % 4096 == 0,
        user_page(m, root, va) == Some(pa),
        crate::space::plain(m, pa),
        page_holds(m, pa, data),
        data.len() == 4096,
        0 <= k < 4096,
    ensures
        finds(m, root, va + k, data[k]),
{
    lemma_page_start(m, pa);
    law_page_bytes(m.ram, pa, data, k);
    assert((va + k) % 4096 == k);
    assert(va + k - (va + k) % 4096 == va);
}

proof fn lemma_page_start(m: PhysMemory, pa: int)
    requires
        m.inv(),
        crate::space::plain(m, pa),
    ensures
        pa % 4096 == 0,
        0 <= pa < crate::ram::PHYS_LIMIT,
        m.ram.wf(),
{
    m.lemma_page(pa, 0);
    m.frames.lemma_wf();
    crate::mem::law_block_placement(m.frames@, pa, 0);
    crate::tiling::lemma_block_pages_values();
}

/// Where the page of a segment stands in the plan.
proof fn lemma_planned_at(b: Seq<u8>, image: Seq<u8>, h: int, j: int) -> (i: int)
    requires
        parse_error(b) is None,
        loads(b, h),
        0 <= j < page_span(segment_at(b, h)),
    ensures
        0 <= i < load_plan(b, image).len(),
        load_plan(b, image)[i] == seg_plan(b, segment_at(b, h))[j],
        segment_error(segment_at(b, h), b.len() as int) is None,
{
    lemma_header(b, h);
    lemma_good(b, 0, h);
    let s = segments(b, ph_count(b));
    let hs = lemma_segments(b, ph_count(b));
    assert(is_load(b, h));
    assert(hs.contains(h));
    let x = choose|x: int| 0 <= x < hs.len() && hs[x] == h;
    assert(s[x] == segment_at(b, h));
    lemma_segs_plan(b, s, s.len() as int, x + 1);
    let all = segs_plan(b, s, s.len() as int);
    let some = segs_plan(b, s, x + 1);
    let i = segs_plan(b, s, x).len() + j;
    assert(some[i] == seg_plan(b, s[x])[j]);
    assert(all.take(some.len() as int)[i] == all[i]);
    i
}

/// Where an address of a segment stands in the plan.
proof fn lemma_spot(b: Seq<u8>, image: Seq<u8>, h: int, k: int) -> (r: (int, int))
    requires
        parse_error(b) is None,
        loads(b, h),
        0 <= k < memory_bytes(b, h),
    ensures
        0 <= r.0 < load_plan(b, image).len(),
        0 <= r.1 < 4096,
        load_plan(b, image)[r.0].va + r.1 == start(b, h) + k,
        load_plan(b, image)[r.0].flags == leaf_flags(access(b, h) as u32),
        load_plan(b, image)[r.0].data[r.1] == (if k < file_bytes(b, h) {
            b[file_start(b, h) + k]
        } else {
            0
        }),
        0 <= access(b, h) < 0x1_0000_0000,
{
    lemma_header(b, h);
    law_numbers_are_little_endian(b, header_at(b, h) + 4);
    let s = segment_at(b, h);
    lemma_good(b, 0, h);
    lemma_seg_plan_ok(b, s);
    let va = start(b, h) + k;
    let j = (va - first_page(s)) / 4096;
    crate::bytes::lemma_round_up(s.vaddr + s.memsz, 4096);
    assert(va < end_page(s));
    assert(0 <= j < page_span(s));
    let i = lemma_planned_at(b, image, h, j);
    let off = va - (first_page(s) + 4096 * j);
    (i, off)
}

/// What the flags of a leaf allow.
proof fn lemma_bits(flags: u32)
    ensures
        ({
            let f = user_flags(leaf_flags(flags));
            &&& 0 <= f < 256
            &&& f % 2 == 1
            &&& f / 2 % 2 == 1
            &&& (f / 4 % 2 == 1) == (flags / 2 % 2 == 1 && flags % 2 == 0)
            &&& (f / 8 % 2 == 1) == (flags % 2 == 1)
            &&& f / 16 % 2 == 1
        }),
{
    let f = user_flags(leaf_flags(flags));
    assert(f == 0xDB || f == 0xD7 || f == 0xD3);
}

/// The entry that maps a planned page: the page, and flags below it.
proof fn lemma_loaded_entry(
    m: PhysMemory,
    before: PhysMemory,
    root: int,
    b: Seq<u8>,
    args: Seq<&[u8]>,
    image: Seq<u8>,
    pas: Seq<int>,
    i: int,
)
    requires
        before.inv(),
        m.inv(),
        before.is_root(root),
        loaded(m, before, root, b, args, image, pas),
        0 <= i < load_plan(b, image).len(),
        0 <= user_flags(load_plan(b, image)[i].flags) < 256,
    ensures
        ({
            let f = user_flags(load_plan(b, image)[i].flags);
            let e = entry_for(pas[i], f) as int;
            &&& e % 2 == f % 2
            &&& e / 2 % 2 == f / 2 % 2
            &&& e / 4 % 2 == f / 4 % 2
            &&& e / 8 % 2 == f / 8 % 2
            &&& e / 16 % 2 == f / 16 % 2
        }),
{
    lemma_loaded_pages(m, before, root, b, args, image, pas);
    assert(crate::space::plain(m, pas[i]));
    lemma_page_start(m, pas[i]);
    lemma_entry_bits(pas[i], user_flags(load_plan(b, image)[i].flags));
}

/// The flags of an entry.
#[verifier::spinoff_prover]
proof fn lemma_entry_bits(pa: int, f: int)
    requires
        0 <= pa < crate::ram::PHYS_LIMIT,
        pa % 4096 == 0,
        0 <= f < 256,
    ensures
        ({
            let e = entry_for(pa, f) as int;
            &&& e % 2 == f % 2
            &&& e / 2 % 2 == f / 2 % 2
            &&& e / 4 % 2 == f / 4 % 2
            &&& e / 8 % 2 == f / 8 % 2
            &&& e / 16 % 2 == f / 16 % 2
        }),
{
    crate::sv39::lemma_entry(pa, f);
    lemma_parts(pa / 4096, f, entry_for(pa, f) as int);
}

/// Law: a program that was loaded finds, at every address that its file asks for, the byte of the
/// file that belongs there: `k` bytes behind the start of a segment in memory stands what stands `k`
/// bytes behind its start in the file, and zero behind what the file gives.
pub proof fn law_program_finds_its_file(
    m: PhysMemory,
    before: PhysMemory,
    root: int,
    b: Seq<u8>,
    args: Seq<&[u8]>,
    image: Seq<u8>,
    pas: Seq<int>,
    h: int,
    k: int,
)
    requires
        before.inv(),
        m.inv(),
        before.is_root(root),
        parse_error(b) is None,
        loaded(m, before, root, b, args, image, pas),
        loads(b, h),
        0 <= k < memory_bytes(b, h),
    ensures
        finds(
            m,
            root,
            start(b, h) + k,
            if k < file_bytes(b, h) {
                b[file_start(b, h) + k]
            } else {
                0
            },
        ),
{
    let (i, off) = lemma_spot(b, image, h, k);
    lemma_finds(m, before, root, b, args, image, pas, i, off);
}

/// Law: what a program may do with an address of a segment is what its file asks for: it may read;
/// it may execute where the file asks for that; it may write where the file asks for that and not
/// for execution. The kernel's own pages are not concerned: the page is one for the user.
pub proof fn law_program_has_its_access(
    m: PhysMemory,
    before: PhysMemory,
    root: int,
    b: Seq<u8>,
    args: Seq<&[u8]>,
    image: Seq<u8>,
    pas: Seq<int>,
    h: int,
    k: int,
)
    requires
        before.inv(),
        m.inv(),
        before.is_root(root),
        parse_error(b) is None,
        loaded(m, before, root, b, args, image, pas),
        loads(b, h),
        0 <= k < memory_bytes(b, h),
    ensures
        ({
            let va = start(b, h) + k;
            let found = lookup(m.ram, root, va - va % 4096);
            let (level, entry) = found->0;
            let e = entry as int;
            &&& found is Some
            &&& level == 0
            &&& e % 2 == 1
            &&& e / 2 % 2 == 1
            &&& (e / 4 % 2 == 1) == (access(b, h) / 2 % 2 == 1 && access(b, h) % 2 == 0)
            &&& (e / 8 % 2 == 1) == (access(b, h) % 2 == 1)
            &&& e / 16 % 2 == 1
        }),
{
    let va = start(b, h) + k;
    let (i, off) = lemma_spot(b, image, h, k);
    lemma_finds(m, before, root, b, args, image, pas, i, off);
    assert(load_plan(b, image)[i].va == va - va % 4096) by {
        assert(crate::elf::plan_ok(load_plan(b, image)[i]));
    }
    lemma_bits(access(b, h) as u32);
    lemma_loaded_entry(m, before, root, b, args, image, pas, i);
}

/// Lowest address of the stack.
pub open spec fn stack_start() -> int {
    0x3F_FFFF_0000 - 32768
}

/// Law: a program that was loaded finds its stack: every byte of it, mapped for it to read and write
/// and not to execute.
pub proof fn law_program_finds_its_stack(
    m: PhysMemory,
    before: PhysMemory,
    root: int,
    b: Seq<u8>,
    args: Seq<&[u8]>,
    image: Seq<u8>,
    pas: Seq<int>,
    k: int,
)
    requires
        before.inv(),
        m.inv(),
        before.is_root(root),
        loaded(m, before, root, b, args, image, pas),
        0 <= k < 32768,
    ensures
        finds(m, root, stack_start() + k, image[k]),
        ({
            let va = stack_start() + k;
            let found = lookup(m.ram, root, va - va % 4096);
            let (level, entry) = found->0;
            let e = entry as int;
            &&& found is Some
            &&& level == 0
            &&& e % 2 == 1
            &&& e / 2 % 2 == 1
            &&& e / 4 % 2 == 1
            &&& e / 8 % 2 == 0
            &&& e / 16 % 2 == 1
        }),
{
    let n = file_plan(b).len() as int;
    let j = k / 4096;
    let off = k % 4096;
    let plan = load_plan(b, image);
    let i = n + j;
    assert(plan[i] == stack_plan(image)[j]);
    assert(plan[i].va == stack_start() + 4096 * j);
    assert(image.len() == 32768);
    assert(plan[i].data[off] == image[k]);
    lemma_finds(m, before, root, b, args, image, pas, i, off);
    let va = stack_start() + k;
    assert(va == plan[i].va + off);
    assert(va - va % 4096 == plan[i].va);
    assert(user_flags(plan[i].flags) == 0xD7);
    lemma_loaded_entry(m, before, root, b, args, image, pas, i);
}

/// The arguments of a program that was loaded fit.
proof fn lemma_args_fit(before: PhysMemory, root: int, b: Seq<u8>, args: Seq<&[u8]>)
    requires
        crate::elf::load_error(before, root, b, args) is None,
    ensures
        crate::elf::args_ok(args),
        stack_fits(args),
{
}

/// Where things stand in the stack.
proof fn lemma_stack_places(args: Seq<&[u8]>, i: int)
    requires
        stack_fits(args),
        0 <= i <= args.len(),
    ensures
        sp_at(args) % 16 == 0,
        stack_start() <= sp_at(args),
        sp_at(args) + 8 <= argv_at(args),
        argv_at(args) + 8 * (args.len() + 1) <= text_area(args),
        text_area(args) <= arg_at(args, i),
        i < args.len() ==> arg_at(args, i) + args[i]@.len() < stack_start() + 32768,
        i == args.len() ==> text_area(args) <= stack_start() + 32768,
{
    lemma_args_len(args, i, args.len() as int);
}

/// What stands in the stack.
proof fn lemma_stack_image(args: Seq<&[u8]>, image: Seq<u8>, i: int)
    requires
        crate::elf::stack_image(args, image),
        0 <= i < args.len(),
    ensures
        image.len() == 32768,
        le64_at(image, sp_at(args) - stack_start()) == args.len(),
        le64_at(image, argv_at(args) - stack_start() + 8 * i) == arg_at(args, i),
        le64_at(image, argv_at(args) - stack_start() + 8 * args.len()) == 0,
        forall|j: int|
            0 <= j < args[i]@.len() ==> image[arg_at(args, i) - stack_start() + j]
                == #[trigger] args[i]@[j],
        image[arg_at(args, i) - stack_start() + args[i]@.len()] == 0,
{
    assert(crate::elf::stack_bottom() == stack_start());
    assert(le64_at(image, argv_at(args) - stack_start() + 8 * i) == arg_at(args, i));
}

/// Law: the stack that a program finds holds what it is started with: at the stack pointer, which is
/// a multiple of 16, the number of arguments; at `argv` a pointer for each, and a null pointer behind
/// them; at each pointer the bytes of the argument, and a zero byte behind them. None of it lies in
/// the way of another, and all of it lies in the stack.
pub proof fn law_stack_holds_arguments(
    m: PhysMemory,
    before: PhysMemory,
    root: int,
    b: Seq<u8>,
    args: Seq<&[u8]>,
    image: Seq<u8>,
    pas: Seq<int>,
    i: int,
)
    requires
        loaded(m, before, root, b, args, image, pas),
        crate::elf::load_error(before, root, b, args) is None,
        0 <= i < args.len(),
    ensures
        ({
            let base = stack_start();
            let n = args.len() as int;
            let sp = sp_at(args);
            let argv = argv_at(args);
            let p = number(image, argv - base + 8 * i, 8);
            &&& image.len() == 32768
            &&& sp % 16 == 0
            &&& base <= sp
            &&& sp + 8 <= argv
            &&& argv + 8 * (n + 1) <= p
            &&& p + args[i]@.len() < base + 32768
            &&& number(image, sp - base, 8) == n
            &&& number(image, argv - base + 8 * n, 8) == 0
            &&& forall|j: int|
                0 <= j < args[i]@.len() ==> image[p - base + j] == #[trigger] args[i]@[j]
            &&& image[p - base + args[i]@.len()] == 0
        }),
{
    let base = stack_start();
    let n = args.len() as int;
    lemma_args_fit(before, root, b, args);
    lemma_stack_places(args, i);
    lemma_stack_image(args, image, i);
    law_numbers_are_little_endian(image, sp_at(args) - base);
    law_numbers_are_little_endian(image, argv_at(args) - base + 8 * n);
    law_numbers_are_little_endian(image, argv_at(args) - base + 8 * i);
}

/// Law: a program without arguments finds that it has none.
pub proof fn law_stack_without_arguments(
    m: PhysMemory,
    before: PhysMemory,
    root: int,
    b: Seq<u8>,
    args: Seq<&[u8]>,
    image: Seq<u8>,
    pas: Seq<int>,
)
    requires
        loaded(m, before, root, b, args, image, pas),
        crate::elf::load_error(before, root, b, args) is None,
        args.len() == 0,
    ensures
        sp_at(args) % 16 == 0,
        stack_start() <= sp_at(args),
        sp_at(args) + 8 <= argv_at(args),
        argv_at(args) + 8 <= stack_start() + 32768,
        number(image, sp_at(args) - stack_start(), 8) == 0,
        number(image, argv_at(args) - stack_start(), 8) == 0,
{
    lemma_args_fit(before, root, b, args);
    lemma_stack_places(args, 0);
    assert(crate::elf::stack_bottom() == stack_start());
    law_numbers_are_little_endian(image, sp_at(args) - stack_start());
    law_numbers_are_little_endian(image, argv_at(args) - stack_start());
}

/// Law: only files are loaded that are programs for this machine, whole and with their pages apart:
/// they begin with `\x7fELF`, are of 64 bits, executable and for RISC-V, all that they name lies
/// inside the file and below the end of the user's addresses, and no two segments share a page.
pub proof fn law_accepted_files_are_programs(b: Seq<u8>, h: int, g: int)
    requires
        parse_error(b) is None,
    ensures
        b.len() >= 64,
        b[0] == 0x7f && b[1] == 0x45 && b[2] == 0x4c && b[3] == 0x46,
        b[4] == 2,
        number(b, 16, 2) == 2,
        number(b, 18, 2) == 243,
        header_at(b, headers(b)) <= b.len(),
        loads(b, h) ==> {
            &&& file_start(b, h) + file_bytes(b, h) <= b.len()
            &&& file_bytes(b, h) <= memory_bytes(b, h)
            &&& start(b, h) < 0x40_0000_0000
            &&& start(b, h) + memory_bytes(b, h) <= 0x40_0000_0000
            &&& start(b, h) % 4096 == file_start(b, h) % 4096
        },
        loads(b, h) && loads(b, g) && h != g ==> forall|k: int, l: int|
            #![trigger (start(b, h) + k) / 4096, (start(b, g) + l) / 4096]
            0 <= k < memory_bytes(b, h) && 0 <= l < memory_bytes(b, g) ==> (start(b, h) + k) / 4096
                != (start(b, g) + l) / 4096,
{
    law_numbers_are_little_endian(b, 16);
    law_numbers_are_little_endian(b, 18);
    lemma_header(b, h);
    lemma_header(b, g);
    lemma_header(b, headers(b));
    if loads(b, h) {
        lemma_good(b, 0, h);
    }
    if loads(b, h) && loads(b, g) && h != g {
        lemma_good(b, 0, g);
        let s = segments(b, ph_count(b));
        let hs = lemma_segments(b, ph_count(b));
        assert(is_load(b, h) && is_load(b, g));
        assert(hs.contains(h) && hs.contains(g));
        let x = choose|x: int| 0 <= x < hs.len() && hs[x] == h;
        let y = choose|y: int| 0 <= y < hs.len() && hs[y] == g;
        assert(s[x] == segment_at(b, h) && s[y] == segment_at(b, g));
        if x < y {
            law_segments_disjoint(b, x, y);
        } else {
            law_segments_disjoint(b, y, x);
        }
        lemma_seg_plan_ok(b, s[x]);
        lemma_seg_plan_ok(b, s[y]);
        crate::bytes::lemma_round_up(s[x].vaddr + s[x].memsz, 4096);
        crate::bytes::lemma_round_up(s[y].vaddr + s[y].memsz, 4096);
    }
}

/// A segment of a good header is good.
proof fn lemma_one_good(b: Seq<u8>, h: int)
    requires
        loads(b, h),
        file_start(b, h) + file_bytes(b, h) <= b.len(),
        file_bytes(b, h) <= memory_bytes(b, h),
        start(b, h) < 0x40_0000_0000,
        start(b, h) + memory_bytes(b, h) <= 0x40_0000_0000,
        start(b, h) % 4096 == file_start(b, h) % 4096,
    ensures
        segment_error(segment_at(b, h), b.len() as int) is None,
{
    lemma_header(b, h);
}

/// Segments whose pages are apart do not collide.
proof fn lemma_no_collision(s: Seq<Segment>, i: int)
    requires
        0 <= i < s.len() - 1,
        s[i].memsz > 0,
        (s[i].vaddr + s[i].memsz - 1) / 4096 < s[i + 1].vaddr as int / 4096,
    ensures
        !collides(s, i),
{
    crate::bytes::lemma_round_up(s[i].vaddr + s[i].memsz, 4096);
}

/// A program header names something that fits.
pub open spec fn fits(b: Seq<u8>, h: int) -> bool {
    &&& file_start(b, h) + file_bytes(b, h) <= b.len()
    &&& 0 < memory_bytes(b, h)
    &&& file_bytes(b, h) <= memory_bytes(b, h)
    &&& start(b, h) < 0x40_0000_0000
    &&& start(b, h) + memory_bytes(b, h) <= 0x40_0000_0000
    &&& start(b, h) % 4096 == file_start(b, h) % 4096
}

/// The last page of a segment is below the first of another.
pub open spec fn below(b: Seq<u8>, h: int, g: int) -> bool {
    (start(b, h) + memory_bytes(b, h) - 1) / 4096 < start(b, g) / 4096
}

/// Law: every file of that kind is accepted.
pub proof fn law_programs_are_accepted(b: Seq<u8>)
    requires
        b.len() >= 64,
        b[0] == 0x7f && b[1] == 0x45 && b[2] == 0x4c && b[3] == 0x46,
        b[4] == 2,
        number(b, 16, 2) == 2,
        number(b, 18, 2) == 243,
        header_at(b, headers(b)) <= b.len(),
        forall|h: int| loads(b, h) ==> #[trigger] fits(b, h),
        forall|h: int, g: int|
            loads(b, h) && loads(b, g) && h != g ==> #[trigger] below(b, h, g) || below(b, g, h),
    ensures
        parse_error(b) is None,
{
    law_numbers_are_little_endian(b, 16);
    law_numbers_are_little_endian(b, 18);
    lemma_header(b, 0);
    lemma_header(b, headers(b));
    assert forall|h: int| 0 <= h < ph_count(b) && #[trigger] is_load(b, h) implies segment_error(
        segment_at(b, h),
        b.len() as int,
    ) is None by {
        lemma_header(b, h);
        assert(fits(b, h));
        lemma_one_good(b, h);
    }
    lemma_all_good(b, 0);
    let s = segments(b, ph_count(b));
    let hs = lemma_segments(b, ph_count(b));
    assert forall|i: int| 0 <= i < s.len() - 1 implies !#[trigger] collides(s, i) by {
        let h = hs[i];
        let g = hs[i + 1];
        lemma_header(b, h);
        lemma_header(b, g);
        assert(fits(b, h) && fits(b, g));
        assert(below(b, h, g) || below(b, g, h));
        assert(s[i] == segment_at(b, h) && s[i + 1] == segment_at(b, g));
        assert(s[i].vaddr <= s[i + 1].vaddr);
        lemma_no_collision(s, i);
    }
}

/// Law: a file that is damaged is refused, and the error tells how: too short, another kind of file,
/// another word length, not executable, or for another machine, in this order.
pub proof fn law_refused_files(b: Seq<u8>)
    ensures
        ({
            let e = parse_error(b);
            let magic = b[0] == 0x7f && b[1] == 0x45 && b[2] == 0x4c && b[3] == 0x46;
            &&& b.len() < 64 ==> e == Some(crate::elf::ElfError::Truncated)
            &&& b.len() >= 64 && !magic ==> e == Some(crate::elf::ElfError::BadMagic)
            &&& b.len() >= 64 && magic && b[4] != 2 ==> e == Some(crate::elf::ElfError::Not64)
            &&& b.len() >= 64 && magic && b[4] == 2 && number(b, 16, 2) != 2 ==> e == Some(
                crate::elf::ElfError::NotExec,
            )
            &&& b.len() >= 64 && magic && b[4] == 2 && number(b, 16, 2) == 2 && number(b, 18, 2)
                != 243 ==> e == Some(crate::elf::ElfError::NotRiscv)
            &&& b.len() >= 64 && magic && b[4] == 2 && number(b, 16, 2) == 2 && number(b, 18, 2)
                == 243 && header_at(b, headers(b)) > b.len() ==> e == Some(
                crate::elf::ElfError::Truncated,
            )
        }),
{
    law_numbers_are_little_endian(b, 16);
    law_numbers_are_little_endian(b, 18);
    lemma_header(b, headers(b));
}

/// Bytes that arguments take, each with a zero byte behind it.
pub open spec fn text_size(args: Seq<&[u8]>) -> int
    decreases args.len(),
{
    if args.len() == 0 {
        0
    } else {
        text_size(args.drop_last()) + args.last()@.len() + 1
    }
}

proof fn lemma_text_size(args: Seq<&[u8]>, n: int)
    requires
        0 <= n <= args.len(),
    ensures
        args_len(args, n) == text_size(args.take(n)),
    decreases n,
{
    if n > 0 {
        lemma_text_size(args, n - 1);
        assert(args.take(n).drop_last() =~= args.take(n - 1));
    }
}

/// Law: a program is refused for what is wrong with its file, before anything else; without a process
/// to load it into; for the first page of its segments that has no room; for arguments that are more
/// than 16 or leave no room on the stack of 32 KiB for their pointers; for the first page of its
/// stack that has no room; in this order.
pub proof fn law_refused_programs(s: Spaces, pid: int, b: Seq<u8>, args: Seq<&[u8]>)
    ensures
        ({
            let e = process_load_error(s, pid, b, args);
            let root = s.procs@[pid].root as int;
            let vas = load_vas(b);
            let n = vas.len() - 8;
            let code = first_fault(s.mem, root, vas, 0, n);
            let stack = first_fault(s.mem, root, vas, n, n + 8);
            let few = args.len() <= 16 && text_size(args) + 8 * (args.len() + 2) + 16 <= 32768;
            &&& parse_error(b) is Some ==> e == parse_error(b)
            &&& parse_error(b) is None && !s.procs@.dom().contains(pid) ==> e == Some(
                ElfError::BadProcess,
            )
            &&& parse_error(b) is None && s.procs@.dom().contains(pid) ==> {
                &&& code is Some ==> e == code
                &&& code is None && !few ==> e == Some(ElfError::BadSegment)
                &&& code is None && few && stack is Some ==> e == stack
                &&& code is None && few && stack is None && e is Some ==> e == Some(
                    ElfError::BadSegment,
                )
            }
        }),
{
    assert(load_vas(b).len() == file_plan(b).len() + 8);
    lemma_text_size(args, args.len() as int);
    assert(args.take(args.len() as int) =~= args);
}

/// Law: a page has no room where something is mapped already or an earlier page of the program is,
/// where no page is left, and where none is left for its tables. The first page without room is the
/// one that is told of.
pub proof fn law_pages_without_room(m: PhysMemory, root: int, vas: Seq<int>, i: int, n: int, k: int)
    requires
        0 <= i <= k < n <= vas.len(),
        forall|j: int| i <= j < k ==> #[trigger] fault(m, root, vas, j) is None,
        fault(m, root, vas, k) is Some,
        forall|j: int| 0 <= j < vas.len() ==> 0 <= #[trigger] vas[j] < 0x80_0000_0000,
    ensures
        first_fault(m, root, vas, i, n) == fault(m, root, vas, k),
        fault(m, root, vas, k) == Some(ElfError::Overlap) <==> lookup(m.ram, root, vas[k]) is Some
            || exists|j: int| 0 <= j < k && #[trigger] vas[j] / 4096 == vas[k] / 4096,
        fault(m, root, vas, k) == Some(ElfError::NoMemory) ==> free_after(m, root, vas, k) == 0,
        fault(m, root, vas, k) == Some(ElfError::MapFailed) ==> free_after(m, root, vas, k) != 0
            && free_after(m, root, vas, k + 1) < 0,
        fault(m, root, vas, k)->0 == ElfError::Overlap || fault(m, root, vas, k)->0
            == ElfError::NoMemory || fault(m, root, vas, k)->0 == ElfError::MapFailed,
    decreases k - i,
{
    if i < k {
        assert(fault(m, root, vas, i) is None);
        law_pages_without_room(m, root, vas, i + 1, n, k);
    }
    if exists|j: int| 0 <= j < k && #[trigger] vas[j] / 4096 == vas[k] / 4096 {
        let j = choose|j: int| 0 <= j < k && #[trigger] vas[j] / 4096 == vas[k] / 4096;
        lemma_vpn(vas[k], vas[j]);
        assert(same_vpn(vas[k], vas[j]));
    }
    if exists|j: int| 0 <= j < k && same_vpn(vas[k], #[trigger] vas[j]) {
        let j = choose|j: int| 0 <= j < k && same_vpn(vas[k], #[trigger] vas[j]);
        lemma_vpn(vas[k], vas[j]);
    }
}

} // verus!
