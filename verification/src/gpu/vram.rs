//! Device memory budget.
//!
//! The lattice is the single biggest allocation there is, and a size that
//! cannot be allocated is a device loss rather than an error message.  So the
//! device is asked for
//!
//!   * **capacity** -- the size of its largest `DEVICE_LOCAL` heap.  This is
//!     the card's VRAM.
//!   * **budget and usage** -- what the driver is willing to give *this process
//!     right now*, accounting for everything else on the system.
//!
//! Where the backend reports nothing, the limits of the API are all there is.

use vstd::arithmetic::div_mod::*;
use vstd::arithmetic::power2::*;
use vstd::prelude::*;

use crate::rounding;

verus! {

/// What is known about device memory. All figures in bytes.
#[derive(Clone, Copy, Debug, PartialEq, Eq, Structural)]
pub struct VramInfo {
    /// Total device-local memory on the adapter.
    pub capacity: u64,
    /// What the driver will currently hand this process, if reported.
    pub budget: Option<u64>,
    /// What this process is currently using, if reported.
    pub used: Option<u64>,
}

impl VramInfo {
    pub open spec fn available_spec(self) -> u64 {
        match (self.budget, self.used) {
            (Some(budget), Some(used)) => if used <= budget {
                (budget - used) as u64
            } else {
                0
            },
            _ => self.capacity,
        }
    }

    /// Memory available for a new allocation right now.
    ///
    /// Falls back to capacity when no budget is reported, which is optimistic
    /// -- but the caller keeps a safety margin on top, and an optimistic
    /// estimate is better than refusing to give any guidance.
    pub fn available(&self) -> (r: u64)
        ensures
            r == self.available_spec(),
    {
        match (self.budget, self.used) {
            (Some(budget), Some(used)) => if used <= budget {
                budget - used
            } else {
                0
            },
            _ => self.capacity,
        }
    }

    /// Whether the free-memory figure is measured rather than assumed.
    pub fn available_is_measured(&self) -> (r: bool)
        ensures
            r == (self.budget is Some && self.used is Some),
    {
        self.budget.is_some() && self.used.is_some()
    }
}

// ---------------------------------------------------------------------------
//  Budget
// ---------------------------------------------------------------------------

/// The share of the free budget the lattice may claim, `0.85`, in units of
/// `2^-53`.
///
/// The remainder has to cover the swapchain, the egui font atlas, the driver's
/// own bookkeeping and allocator fragmentation. 85% is empirical headroom, not
/// a derived number, and it is deliberately generous: overshooting here does
/// not produce an error, it produces a lost device.
pub const LATTICE_BUDGET_FRACTION: u64 = 7_656_119_366_529_843;

/// An integer rounded to 53 binary digits, ties to even.
pub open spec fn to_53_digits(n: nat) -> nat {
    let l = rounding::bit_len(n);
    if l <= 53 {
        n
    } else {
        let d = pow2((l - 53) as nat);
        rounding::nearest_even(n, d) * d
    }
}

/// What a lattice may occupy when `total` bytes can be had: the share of the
/// total in double precision, cut to whole bytes.
pub open spec fn budget_share(total: nat) -> nat {
    to_53_digits(to_53_digits(total) * LATTICE_BUDGET_FRACTION as nat) / pow2(53)
}

pub open spec fn saturating_sum(a: u64, b: u64) -> nat {
    if a + b > u64::MAX {
        u64::MAX as nat
    } else {
        (a + b) as nat
    }
}

proof fn lemma_rounded_near(n: nat)
    ensures
        rounding::bit_len(n) <= 53 ==> to_53_digits(n) == n,
        pow2(53) * to_53_digits(n) <= (pow2(53) + 1) * n,
        pow2(53) * to_53_digits(n) + n >= pow2(53) * n,
        rounding::bit_len(n) > 53 ==> to_53_digits(n) <= pow2(rounding::bit_len(n)),
{
    let l = rounding::bit_len(n);
    let b = pow2(53);
    lemma_pow2_pos(53);
    if l <= 53 {
        assert(b * n <= (b + 1) * n && b * n + n >= b * n) by (nonlinear_arith);
    } else {
        let s = (l - 53) as nat;
        let d = pow2(s);
        lemma_pow2_pos(s);
        lemma_pow2_pos((s - 1) as nat);
        rounding::lemma_bit_len_range(n);
        rounding::lemma_pow2_sum(1, (s - 1) as nat);
        rounding::lemma_pow2_sum(53, (s - 1) as nat);
        rounding::lemma_pow2_sum(53, s);
        lemma2_to64();
        lemma_fundamental_div_mod(n as int, d as int);
        let q = n / d;
        let r = n % d;
        let e = rounding::nearest_even(n, d);
        let h = pow2((s - 1) as nat);
        // At most half a unit is added or dropped, and a unit is at most
        // `n / 2^52`.
        assert(b * h <= n);
        assert(d == 2 * h);
        assert(q < b) by (nonlinear_arith)
            requires
                n == d * q + r,
                r >= 0,
                n < b * d,
                d > 0,
        ;
        assert(e * d <= b * d) by (nonlinear_arith)
            requires
                e <= q + 1,
                q + 1 <= b,
                d > 0,
        ;
        assert(b * (e * d) <= (b + 1) * n && b * (e * d) + n >= b * n) by (nonlinear_arith)
            requires
                n == d * q + r,
                0 <= r < d,
                d == 2 * h,
                b * h <= n,
                b > 0,
                e == q || e == q + 1,
                e == q ==> r <= h,
                e == q + 1 ==> r >= h,
        ;
    }
}

/// Round to 53 binary digits.
fn rounded(n: u128) -> (r: u128)
    requires
        n < 0x40_0000_0000_0000_0000_0000_0000_0000,
    ensures
        r == to_53_digits(n as nat),
        r <= 0x40_0000_0000_0000_0000_0000_0000_0000,
{
    let l: u32 = rounding::binary_digits(n);
    proof {
        lemma_118();
        rounding::lemma_bit_len_range(n as nat);
        if l > 118 {
            if l > 119 {
                lemma_pow2_strictly_increases(118, (l - 1) as nat);
            }
        }
    }
    if l <= 53 {
        return n;
    }
    let d: u128 = rounding::power_of_two(l - 53);
    proof {
        lemma_pow2_pos((l - 53) as nat);
        lemma_rounded_near(n as nat);
        if l < 118 {
            lemma_pow2_strictly_increases(l as nat, 118);
        }
        lemma_fundamental_div_mod(n as int, d as int);
    }
    let q: u128 = n / d;
    let r: u128 = n % d;
    let ghost e = rounding::nearest_even(n as nat, d as nat);
    let up: bool = r > d - r || (r == d - r && q % 2 == 1);
    let rounded_quotient: u128 = if up {
        q + 1
    } else {
        q
    };
    assert(rounded_quotient == e);
    rounded_quotient * d
}

proof fn lemma_118()
    ensures
        pow2(118) == 0x40_0000_0000_0000_0000_0000_0000_0000,
{
    lemma2_to64();
    rounding::lemma_pow2_sum(32, 22);
    assert(0x1_0000_0000nat * 0x40_0000 == 0x40_0000_0000_0000) by (nonlinear_arith);
    rounding::lemma_pow2_sum(64, 54);
    assert(0x1_0000_0000_0000_0000nat * 0x40_0000_0000_0000
        == 0x40_0000_0000_0000_0000_0000_0000_0000) by (nonlinear_arith);
}

proof fn lemma_53()
    ensures
        pow2(53) == 0x20_0000_0000_0000,
{
    lemma2_to64();
    rounding::lemma_pow2_sum(32, 21);
    assert(0x1_0000_0000nat * 0x20_0000 == 0x20_0000_0000_0000) by (nonlinear_arith);
}

/// Bytes a new lattice may occupy, given what is free now and what the current
/// lattice hands back when it is released.
///
/// Adding `current_lattice` back is what makes *shrinking* always possible.
/// The memory the running simulation holds counts as used as far as the driver
/// is concerned, but a resize releases it before allocating the replacement, so
/// it is genuinely available to the new one.
pub fn lattice_budget(available: u64, current_lattice: u64) -> (r: u64)
    ensures
        r == budget_share(saturating_sum(available, current_lattice)),
{
    let total: u64 = if available > u64::MAX - current_lattice {
        u64::MAX
    } else {
        available + current_lattice
    };
    let x: u128 = rounded(total as u128);
    proof {
        lemma2_to64();
        law_budget_keeps_headroom(total as nat);
        lemma_total_bounded(total as nat);
        lemma_53();
        assert(x * LATTICE_BUDGET_FRACTION < 0x40_0000_0000_0000_0000_0000_0000_0000)
            by (nonlinear_arith)
            requires
                x <= 0x1_0000_0000_0000_0000,
                LATTICE_BUDGET_FRACTION == 7_656_119_366_529_843u64,
        ;
    }
    let p: u128 = rounded(x * LATTICE_BUDGET_FRACTION as u128);
    let share: u128 = p / 0x20_0000_0000_0000;
    share as u64
}

/// A 64-bit total stays within 65 digits when rounded.
proof fn lemma_total_bounded(total: nat)
    requires
        total <= u64::MAX,
    ensures
        to_53_digits(total) <= 0x1_0000_0000_0000_0000,
{
    let l = rounding::bit_len(total);
    lemma2_to64();
    lemma_rounded_near(total);
    rounding::lemma_bit_len_range(total);
    if l > 64 {
        if l > 65 {
            lemma_pow2_strictly_increases(64, (l - 1) as nat);
        }
    }
    if l < 64 {
        lemma_pow2_strictly_increases(l, 64);
    }
}

/// The lattice never claims more than 86 hundredths of what can be had, nor,
/// but for the cut to whole bytes, less than 84.
pub proof fn law_budget_keeps_headroom(total: nat)
    ensures
        100 * budget_share(total) <= 86 * total,
        100 * (budget_share(total) + 1) >= 84 * total,
{
    let b = pow2(53);
    let f = LATTICE_BUDGET_FRACTION as nat;
    lemma_53();
    let x = to_53_digits(total);
    lemma_rounded_near(total);
    let p = to_53_digits(x * f);
    lemma_rounded_near(x * f);
    let r = budget_share(total);
    lemma_fundamental_div_mod(p as int, b as int);
    assert(r * b <= p && (r + 1) * b >= p) by (nonlinear_arith)
        requires
            p == b * r + p % b,
            0 <= p % b < b,
    ;
    assert(100 * r <= 86 * total) by (nonlinear_arith)
        requires
            r * b <= p,
            b * p <= (b + 1) * (x * f),
            b * x <= (b + 1) * total,
            f == 7_656_119_366_529_843,
            b == 0x20_0000_0000_0000,
    ;
    assert(100 * (r + 1) >= 84 * total) by (nonlinear_arith)
        requires
            (r + 1) * b >= p,
            b * p + x * f >= b * (x * f),
            b * x + total >= b * total,
            f == 7_656_119_366_529_843,
            b == 0x20_0000_0000_0000,
    ;
}

/// The lattice claims 85 hundredths of what can be had, to a billionth, but for the
/// cut to whole bytes.
pub proof fn law_budget_is_the_share(total: nat)
    ensures
        1_000_000_000 * budget_share(total) <= 850_000_001 * total,
        1_000_000_000 * (budget_share(total) + 1) >= 849_999_999 * total,
{
    let b = pow2(53);
    let f = LATTICE_BUDGET_FRACTION as nat;
    lemma_53();
    let x = to_53_digits(total);
    lemma_rounded_near(total);
    let p = to_53_digits(x * f);
    lemma_rounded_near(x * f);
    let r = budget_share(total);
    lemma_fundamental_div_mod(p as int, b as int);
    assert(r * b <= p && (r + 1) * b >= p) by (nonlinear_arith)
        requires
            p == b * r + p % b,
            0 <= p % b < b,
    ;
    assert(1_000_000_000 * r <= 850_000_001 * total) by (nonlinear_arith)
        requires
            r * b <= p,
            b * p <= (b + 1) * (x * f),
            b * x <= (b + 1) * total,
            f == 7_656_119_366_529_843,
            b == 0x20_0000_0000_0000,
    ;
    assert(1_000_000_000 * (r + 1) >= 849_999_999 * total) by (nonlinear_arith)
        requires
            (r + 1) * b >= p,
            b * p + x * f >= b * (x * f),
            b * x + total >= b * total,
            f == 7_656_119_366_529_843,
            b == 0x20_0000_0000_0000,
    ;
}

// ---------------------------------------------------------------------------
//  Heaps
// ---------------------------------------------------------------------------

/// One memory heap of the device.
#[derive(Clone, Copy, Debug, PartialEq, Eq, Structural)]
pub struct Heap {
    pub device_local: bool,
    pub size: u64,
}

/// What the driver reports of one heap.
#[derive(Clone, Copy, Debug, PartialEq, Eq, Structural)]
pub struct HeapBudget {
    pub budget: u64,
    pub used: u64,
}

/// Whether heap `i` is the VRAM: the first of the largest device-local heaps.
///
/// The *largest* heap rather than the sum.  Discrete cards expose a second,
/// small device-local heap (the ~256 MB host-visible BAR window) which is a
/// view onto the same physical memory, so summing over-reports capacity by that
/// much and double-counts its usage.
pub open spec fn is_primary(heaps: Seq<Heap>, i: int) -> bool {
    &&& 0 <= i < heaps.len()
    &&& heaps[i].device_local
    &&& heaps[i].size > 0
    &&& forall|j: int|
        0 <= j < heaps.len() && (#[trigger] heaps[j]).device_local ==> if j < i {
            heaps[j].size < heaps[i].size
        } else {
            heaps[j].size <= heaps[i].size
        }
}

/// Whether there is no VRAM at all.
pub open spec fn no_primary(heaps: Seq<Heap>) -> bool {
    forall|j: int| 0 <= j < heaps.len() && (#[trigger] heaps[j]).device_local ==> heaps[j].size == 0
}

/// What is known when heap `primary` is the VRAM.  A driver that reports a zero
/// budget is not reporting one.
pub open spec fn known_of(
    heaps: Seq<Heap>,
    budgets: Option<Seq<HeapBudget>>,
    primary: int,
) -> VramInfo {
    let capacity = heaps[primary].size;
    match budgets {
        Some(b) if b[primary].budget > 0 => VramInfo {
            capacity,
            budget: Some(b[primary].budget),
            used: Some(b[primary].used),
        },
        _ => VramInfo { capacity, budget: None, used: None },
    }
}

/// What is known about device memory, from the heaps of the device and, where
/// it reports them, their budgets.  Without a device-local heap nothing is.
pub fn query(heaps: &Vec<Heap>, budgets: Option<&Vec<HeapBudget>>) -> (r: Option<VramInfo>)
    requires
        budgets is Some ==> budgets->0@.len() >= heaps@.len(),
    ensures
        r is None <==> no_primary(heaps@),
        forall|i: int|
            #![trigger is_primary(heaps@, i)]
            is_primary(heaps@, i) ==> r == Some(
                known_of(
                    heaps@,
                    match budgets {
                        Some(b) => Some(b@),
                        None => None,
                    },
                    i,
                ),
            ),
        r is Some ==> exists|i: int| is_primary(heaps@, i),
{
    let mut primary: Option<usize> = None;
    let mut capacity: u64 = 0;
    let mut i: usize = 0;
    while i < heaps.len()
        invariant
            i <= heaps.len(),
            match primary {
                None => capacity == 0 && no_primary(heaps@.take(i as int)),
                Some(p) => p < i && capacity == heaps@[p as int].size && is_primary(
                    heaps@.take(i as int),
                    p as int,
                ),
            },
        decreases heaps.len() - i,
    {
        let heap: Heap = heaps[i];
        let ghost before = heaps@.take(i as int);
        let ghost after = heaps@.take(i + 1);
        assert(after =~= before.push(heap));
        proof {
            assert forall|j: int| 0 <= j < before.len() implies before[j] == #[trigger] after[j] by {}
        }
        if heap.device_local && heap.size > capacity {
            capacity = heap.size;
            primary = Some(i);
            assert(is_primary(after, i as int)) by {
                assert forall|j: int|
                    0 <= j < after.len() && (#[trigger] after[j]).device_local implies if j < i {
                    after[j].size < after[i as int].size
                } else {
                    after[j].size <= after[i as int].size
                } by {
                    if j < i {
                        assert(before[j].device_local);
                    }
                }
            }
        }
        i = i + 1;
    }
    assert(heaps@.take(heaps.len() as int) =~= heaps@);
    match primary {
        None => {
            assert forall|k: int| #![trigger is_primary(heaps@, k)] is_primary(heaps@, k) implies false by {
                assert(heaps@[k].device_local);
            }
            None
        },
        Some(p) => {
            proof {
                assert(is_primary(heaps@, p as int));
                assert(heaps@[p as int].device_local);
                assert forall|k: int| #![trigger is_primary(heaps@, k)] is_primary(heaps@, k) implies k
                    == p by {
                    assert(heaps@[k].device_local);
                }
            }
            match budgets {
                Some(b) => {
                    if b[p].budget > 0 {
                        Some(
                            VramInfo { capacity, budget: Some(b[p].budget), used: Some(b[p].used) },
                        )
                    } else {
                        Some(VramInfo { capacity, budget: None, used: None })
                    }
                },
                None => Some(VramInfo { capacity, budget: None, used: None }),
            }
        },
    }
}

} // verus!
