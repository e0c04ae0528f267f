//! Decisions while the machine starts, and of the idle loop.

use vstd::prelude::*;
use vstd::arithmetic::div_mod::{
    lemma_basic_div, lemma_div_multiples_vanish_fancy, lemma_hoist_over_denominator,
    lemma_mod_multiples_vanish,
};
use vstd::arithmetic::power2::{
    lemma2_to64, lemma_pow2_adds, lemma_pow2_pos, lemma_pow2_unfold, pow2,
};
use crate::arch::MAX_HARTS;

verus! {

/// Ticks between two reports of the idle loop.
pub const HEARTBEAT_TICKS: u64 = 100;

/// Milliseconds of a tick.
pub const TICK_MS: u64 = 10;

/// Cores that run the kernel: as many as the machine has, up to the most that the kernel knows.
pub open spec fn cores(count: usize) -> usize {
    if count < MAX_HARTS {
        count
    } else {
        MAX_HARTS
    }
}

/// The first `n` cores without the one that the machine started on.
pub open spec fn others(n: int, boot: int) -> Seq<usize>
    decreases n,
{
    if n <= 0 {
        Seq::empty()
    } else if n - 1 == boot {
        others(n - 1, boot)
    } else {
        others(n - 1, boot).push((n - 1) as usize)
    }
}

/// The cores to start, of a machine with `count` cores that started on core `boot`.
pub fn wake_secondaries(count: usize, boot: usize) -> (r: Vec<usize>)
    ensures
        r@ == if count <= 1 {
            Seq::empty()
        } else {
            others(cores(count) as int, boot as int)
        },
{
    let expected: usize = if count < MAX_HARTS {
        count
    } else {
        MAX_HARTS
    };
    let mut out: Vec<usize> = Vec::new();
    if expected <= 1 {
        return out;
    }
    let mut h: usize = 0;
    while h < expected
        invariant
            h <= expected,
            out@ == others(h as int, boot as int),
        decreases expected - h,
    {
        if h != boot {
            out.push(h);
        }
        h += 1;
    }
    out
}

/// The first `n` of these cores as a mask, bit `i` for core `i`.
pub open spec fn mask_of(up: Seq<bool>, n: int) -> int
    decreases n,
{
    if n <= 0 {
        0
    } else {
        mask_of(up, n - 1) + if up[n - 1] {
            pow2((n - 1) as nat) as int
        } else {
            0
        }
    }
}

proof fn lemma_mask_bound(up: Seq<bool>, n: int)
    requires
        0 <= n <= up.len(),
    ensures
        0 <= mask_of(up, n) < pow2(n as nat),
    decreases n,
{
    if n > 0 {
        lemma_mask_bound(up, n - 1);
        lemma_pow2_unfold(n as nat);
    } else {
        lemma2_to64();
    }
}

/// Law: the mask tells of every core whether it has come up.
pub proof fn law_mask_tells_each_core(up: Seq<bool>, n: int, i: int)
    requires
        0 <= i < n <= up.len(),
    ensures
        (mask_of(up, n) / pow2(i as nat) as int) % 2 == if up[i] {
            1int
        } else {
            0
        },
    decreases n,
{
    let low = mask_of(up, n - 1);
    let p = pow2(i as nat) as int;
    lemma_pow2_pos(i as nat);
    if i == n - 1 {
        lemma_mask_bound(up, n - 1);
        if up[i] {
            lemma_div_multiples_vanish_fancy(1, low, p);
            assert(mask_of(up, n) == p * 1 + low);
        } else {
            lemma_basic_div(low, p);
        }
    } else {
        law_mask_tells_each_core(up, n - 1, i);
        if up[n - 1] {
            let k = (n - 2 - i) as nat;
            lemma_pow2_adds(i as nat, k + 1);
            lemma_pow2_unfold((k + 1) as nat);
            let h = pow2(k) as int;
            let top = pow2((n - 1) as nat) as int;
            assert(top == p * (2 * h));
            assert(p * (2 * h) == (2 * h) * p) by (nonlinear_arith);
            lemma_hoist_over_denominator(low, 2 * h, p as nat);
            assert(mask_of(up, n) / p == low / p + 2 * h);
            lemma_mod_multiples_vanish(h, low / p, 2);
        }
    }
}

/// Cores that have come up, besides the one that the machine started on.
#[derive(Debug, Clone, Copy)]
pub struct Online {
    pub up: [bool; MAX_HARTS],
    pub count: usize,
}

impl Online {
    pub fn new() -> (r: Online)
        ensures
            r.up@ == seq![false, false, false, false],
            r.count == 0,
    {
        Online { up: [false, false, false, false], count: 0 }
    }

    /// A core has come up.
    pub fn mark_online(&mut self, hart: usize)
        requires
            hart < MAX_HARTS,
        ensures
            final(self).up@ == old(self).up@.update(hart as int, true),
            final(self).count == old(self).count.wrapping_add(1),
    {
        self.up[hart] = true;
        self.count = self.count.wrapping_add(1);
    }

    /// The cores that have come up, bit `i` for core `i`.
    pub fn harts_online_mask(&self) -> (r: u64)
        ensures
            r == mask_of(self.up@, MAX_HARTS as int),
    {
        proof {
            lemma2_to64();
        }
        let mut mask: u64 = 0;
        let mut bit: u64 = 1;
        let mut i: usize = 0;
        while i < MAX_HARTS
            invariant
                i <= MAX_HARTS,
                mask == mask_of(self.up@, i as int),
                bit == pow2(i as nat),
                mask < bit <= 16,
            decreases MAX_HARTS - i,
        {
            proof {
                lemma2_to64();
                lemma_pow2_unfold((i + 1) as nat);
            }
            if self.up[i] {
                mask += bit;
            }
            bit = bit * 2;
            i += 1;
        }
        mask
    }

    /// How many cores have come up.
    pub fn harts_online(&self) -> (r: usize)
        ensures
            r == self.count,
    {
        self.count
    }
}

/// Whether the idle loop reports, at tick `t`, when it did so at tick `last`: the tick, and the
/// milliseconds since the start.
pub fn heartbeat(last: u64, t: u64) -> (r: Option<(u64, u64)>)
    ensures
        r == (if t.wrapping_sub(last) >= HEARTBEAT_TICKS {
            Some(
                (
                    t,
                    if t * TICK_MS > u64::MAX {
                        u64::MAX
                    } else {
                        (t * TICK_MS) as u64
                    },
                ),
            )
        } else {
            None
        }),
{
    if t.wrapping_sub(last) >= HEARTBEAT_TICKS {
        let ms: u64 = match t.checked_mul(TICK_MS) {
            Some(x) => x,
            None => u64::MAX,
        };
        Some((t, ms))
    } else {
        None
    }
}

/// Microseconds of `interval` ticks of a clock of `freq` ticks a second.
pub fn interval_us(interval: u64, freq: u64) -> (r: u64)
    requires
        freq > 0,
        interval <= 1_000_000_000,
    ensures
        r as int == interval * 1_000_000 / freq as int,
{
    interval * 1_000_000 / freq
}

/// Law: every core but the one that the machine started on is started, once.
pub proof fn law_every_other_core(n: int, boot: int)
    requires
        0 <= n <= MAX_HARTS,
    ensures
        others(n, boot).no_duplicates(),
        forall|h: usize| #[trigger] others(n, boot).contains(h) <==> h < n && h != boot,
    decreases n,
{
    if n > 0 {
        law_every_other_core(n - 1, boot);
        let a = others(n - 1, boot);
        let b = others(n, boot);
        let l = (n - 1) as usize;
        assert forall|h: usize| #[trigger] b.contains(h) <==> h < n && h != boot by {
            assert(a.contains(h) <==> h < n - 1 && h != boot);
            if b.contains(h) {
                let k = choose|k: int| 0 <= k < b.len() && b[k] == h;
                if k < a.len() {
                    assert(a[k] == h);
                }
            }
            if a.contains(h) {
                let k = choose|k: int| 0 <= k < a.len() && a[k] == h;
                assert(b[k] == h);
            }
            if h == l && n - 1 != boot {
                assert(b[a.len() as int] == l);
            }
        }
        assert(b.no_duplicates()) by {
            assert forall|i: int, j: int| 0 <= i < b.len() && 0 <= j < b.len() && i != j implies b[i]
                != b[j] by {
                if i < a.len() {
                    assert(a.contains(a[i]));
                }
                if j < a.len() {
                    assert(a.contains(a[j]));
                }
            }
        }
    }
}

} // verus!
