//! What is reported when the kernel fails: the stack that it ran on, and how deep it got.

use vstd::prelude::*;
use crate::arch::{MAX_HARTS, TRAP_GUARD, TRAP_STRIDE};

verus! {

/// Stacks of the kernel: the one that it starts on, and arrays with one stack for each core, each
/// behind a guard.
#[derive(Debug, Clone, Copy)]
pub struct Stacks {
    pub boot_bottom: u64,
    pub boot_top: u64,
    pub trap_base: u64,
    pub idle_base: u64,
}

/// The stack of core `h` in an array.
pub open spec fn slot_stack(base: int, h: int) -> (int, int) {
    (base + h * TRAP_STRIDE + TRAP_GUARD, base + (h + 1) * TRAP_STRIDE)
}

/// The address lies in the stack of core `h` of an array.
pub open spec fn in_slot(base: int, h: int, sp: int) -> bool {
    slot_stack(base, h).0 <= sp < slot_stack(base, h).1
}

/// The stack is that of core `h` in an array.
pub open spec fn is_slot(r: Option<(u64, u64)>, base: int, h: int) -> bool {
    r matches Some((lo, hi)) && (lo as int, hi as int) == slot_stack(base, h)
}

/// The stack of an array that an address lies in.
pub fn find_slot(base: u64, sp: u64) -> (r: Option<(u64, u64)>)
    requires
        base + MAX_HARTS * TRAP_STRIDE <= u64::MAX,
    ensures
        match r {
            Some((lo, hi)) => exists|h: int|
                0 <= h < MAX_HARTS && #[trigger] in_slot(base as int, h, sp as int) && (
                lo as int,
                hi as int,
            ) == slot_stack(base as int, h),
            None => forall|h: int|
                0 <= h < MAX_HARTS ==> !#[trigger] in_slot(base as int, h, sp as int),
        },
{
    let mut h: u64 = 0;
    while h < MAX_HARTS as u64
        invariant
            h <= MAX_HARTS,
            base + MAX_HARTS * TRAP_STRIDE <= u64::MAX,
            forall|k: int| 0 <= k < h ==> !#[trigger] in_slot(base as int, k, sp as int),
        decreases MAX_HARTS - h,
    {
        let lo: u64 = base + h * TRAP_STRIDE + TRAP_GUARD;
        let hi: u64 = base + (h + 1) * TRAP_STRIDE;
        if sp >= lo && sp < hi {
            assert(in_slot(base as int, h as int, sp as int));
            return Some((lo, hi));
        }
        h += 1;
    }
    None
}

impl Stacks {
    pub open spec fn ok(&self) -> bool {
        &&& self.trap_base + MAX_HARTS * TRAP_STRIDE <= u64::MAX
        &&& self.idle_base + MAX_HARTS * TRAP_STRIDE <= u64::MAX
    }

    /// Ends of the stack that an address lies in; a guard belongs to no stack. `None` where the
    /// address lies in none of them, as in the stack of a thread.
    pub fn current_stack_bounds(&self, sp: u64) -> (r: Option<(u64, u64)>)
        requires
            self.ok(),
        ensures
            ({
                let boot = self.boot_bottom <= sp < self.boot_top;
                let trap = exists|h: int|
                    0 <= h < MAX_HARTS && #[trigger] in_slot(self.trap_base as int, h, sp as int);
                let idle = exists|h: int|
                    0 <= h < MAX_HARTS && #[trigger] in_slot(self.idle_base as int, h, sp as int);
                &&& r is Some <==> boot || trap || idle
                &&& boot ==> r == Some((self.boot_bottom, self.boot_top))
                &&& !boot && trap ==> exists|h: int|
                    0 <= h < MAX_HARTS && #[trigger] in_slot(self.trap_base as int, h, sp as int)
                        && is_slot(r, self.trap_base as int, h)
                &&& !boot && !trap && idle ==> exists|h: int|
                    0 <= h < MAX_HARTS && #[trigger] in_slot(self.idle_base as int, h, sp as int)
                        && is_slot(r, self.idle_base as int, h)
            }),
    {
        if sp >= self.boot_bottom && sp < self.boot_top {
            return Some((self.boot_bottom, self.boot_top));
        }
        match find_slot(self.trap_base, sp) {
            Some(x) => Some(x),
            None => find_slot(self.idle_base, sp),
        }
    }
}

/// Bytes from the deepest one that was ever written to the top of the stack. A stack is all zeros
/// at first.
pub open spec fn depth(stack: Seq<u8>) -> nat
    decreases stack.len(),
{
    if stack.len() == 0 {
        0
    } else if stack[0] != 0 {
        stack.len()
    } else {
        depth(stack.subrange(1, stack.len() as int))
    }
}

/// How deep a stack got, from its bytes, lowest address first.
pub fn stack_watermark(stack: &[u8]) -> (r: usize)
    ensures
        r == depth(stack@),
{
    let mut i: usize = 0;
    assert(stack@.subrange(0, stack@.len() as int) =~= stack@);
    while i < stack.len()
        invariant
            i <= stack@.len(),
            depth(stack@) == depth(stack@.subrange(i as int, stack@.len() as int)),
        decreases stack@.len() - i,
    {
        let ghost s = stack@.subrange(i as int, stack@.len() as int);
        assert(s[0] == stack@[i as int]);
        if stack[i] != 0 {
            return stack.len() - i;
        }
        assert(s.subrange(1, s.len() as int) =~= stack@.subrange(i + 1, stack@.len() as int));
        i += 1;
    }
    0
}

/// Whether the kernel is failing.
#[derive(Debug, Clone, Copy)]
pub struct PanicState {
    pub panicking: bool,
}

impl PanicState {
    pub fn new() -> (r: PanicState)
        ensures
            !r.panicking,
    {
        PanicState { panicking: false }
    }

    /// The kernel fails. Whether to report it: not when the report itself failed.
    pub fn enter(&mut self) -> (r: bool)
        ensures
            r == !old(self).panicking,
            final(self).panicking,
    {
        let first: bool = !self.panicking;
        self.panicking = true;
        first
    }
}

/// Law: everything below the watermark was never written, and the byte at it was.
pub proof fn law_watermark(stack: Seq<u8>)
    ensures
        depth(stack) <= stack.len(),
        forall|i: int| 0 <= i < stack.len() - depth(stack) ==> #[trigger] stack[i] == 0,
        depth(stack) > 0 ==> stack[stack.len() - depth(stack)] != 0,
    decreases stack.len(),
{
    if stack.len() > 0 && stack[0] == 0 {
        let t = stack.subrange(1, stack.len() as int);
        law_watermark(t);
        assert forall|i: int| 0 <= i < stack.len() - depth(stack) implies #[trigger] stack[i] == 0 by {
            if i > 0 {
                assert(stack[i] == t[i - 1]);
            }
        }
        if depth(t) > 0 {
            assert(stack[stack.len() - depth(t)] == t[t.len() - depth(t)]);
        }
    }
}

} // verus!
