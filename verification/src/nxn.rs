//! Whether the four quarters of an 8x8 block are worth modes of their own.
use crate::arith;
use crate::arith::pow2_i64;
use crate::cost;
use crate::cost::satd_scalar;
use vstd::arithmetic::power2::*;
use vstd::prelude::*;

verus! {

/// Place in the 8x8 block of sample `k` of quarter `q`, both in raster order.
pub open spec fn place(q: int, k: int) -> int {
    ((q / 2) * 4 + k / 4) * 8 + (q % 2) * 4 + k % 4
}

/// What the prediction leaves of sample `k` of quarter `q`.
pub open spec fn residual(orig: Seq<u16>, pred: Seq<u16>, q: int, k: int) -> int {
    orig[place(q, k)] - pred[place(q, k)]
}

/// Step from the sample on the left, inside the quarter.
pub open spec fn step_x(orig: Seq<u16>, q: int, k: int) -> int {
    if k % 4 == 0 {
        0
    } else {
        cost::abs(orig[place(q, k)] - orig[place(q, k) - 1])
    }
}

/// Step from the sample above, inside the quarter.
pub open spec fn step_y(orig: Seq<u16>, q: int, k: int) -> int {
    if k / 4 == 0 {
        0
    } else {
        cost::abs(orig[place(q, k)] - orig[place(q, k) - 8])
    }
}

/// A quotient by sixteen, rounded to the nearest, halves away from zero.
pub open spec fn sixteenth(s: int) -> int {
    if s >= 0 {
        (s + 8) / 16
    } else {
        -((8 - s) / 16)
    }
}

/// What is measured of a quarter.
#[derive(Clone, Copy)]
pub struct Quarter {
    /// Residual magnitudes.
    pub total: u32,
    /// Mean residual.
    pub mean: i32,
    /// Residual magnitudes once the mean is taken off.
    pub centred: u32,
    /// Horizontal steps.
    pub across: u32,
    /// Vertical steps.
    pub down: u32,
}

/// The measures of quarter `q`.
pub open spec fn quarter(orig: Seq<u16>, pred: Seq<u16>, q: int) -> Quarter {
    let mean = sixteenth(arith::sum(16, |k: int| residual(orig, pred, q, k)));
    Quarter {
        total: arith::sum(16, |k: int| cost::abs(residual(orig, pred, q, k))) as u32,
        mean: mean as i32,
        centred: arith::sum(16, |k: int| cost::abs(residual(orig, pred, q, k) - mean)) as u32,
        across: arith::sum(16, |k: int| step_x(orig, q, k)) as u32,
        down: arith::sum(16, |k: int| step_y(orig, q, k)) as u32,
    }
}

/// The measures of the four quarters.
pub open spec fn quarters(orig: Seq<u16>, pred: Seq<u16>) -> Seq<Quarter> {
    Seq::new(4, |q: int| quarter(orig, pred, q))
}

impl Quarter {
    /// All the steps.
    pub open spec fn steps(self) -> int {
        self.across + self.down
    }

    /// The share of the horizontal steps, in parts of 256.
    pub open spec fn orientation(self) -> int {
        (self.across * 256 + self.steps() / 2) / self.steps()
    }

    /// The ranges that sixteen samples give.
    pub open spec fn bounded(self) -> bool {
        &&& self.total <= 0x10_0000
        &&& -0x1_0000 <= self.mean <= 0x1_0000
        &&& self.centred <= 0x20_0000
        &&& self.across <= 0x10_0000
        &&& self.down <= 0x10_0000
    }
}

/// The largest of four numbers.
pub open spec fn highest(a: int, b: int, c: int, d: int) -> int {
    let x = if a >= b {
        a
    } else {
        b
    };
    let y = if c >= d {
        c
    } else {
        d
    };
    if x >= y {
        x
    } else {
        y
    }
}

/// The distance between the smallest and the largest of four numbers.
pub open spec fn spread(a: int, b: int, c: int, d: int) -> int {
    highest(a, b, c, d) + highest(-a, -b, -c, -d)
}

/// The quarters that have enough steps to show a direction.
pub open spec fn directed(q: Quarter, scale: int) -> bool {
    q.steps() >= 12 * scale
}

/// Two quarters that show a direction differ in it.
pub open spec fn mixed(m: Seq<Quarter>, scale: int) -> bool {
    exists|i: int, j: int|
        0 <= i < 4 && 0 <= j < 4 && directed(#[trigger] m[i], scale) && directed(
            #[trigger] m[j],
            scale,
        ) && m[i].orientation() - m[j].orientation() >= 88
}

/// The measures of the quarters speak for modes of their own: taking the mean
/// off each of them saves much, and either the means lie apart or the directions do.
pub open spec fn pays(m: Seq<Quarter>, gain_floor: int, scale: int) -> bool {
    let total = m[0].total + m[1].total + m[2].total + m[3].total;
    let centred = m[0].centred + m[1].centred + m[2].centred + m[3].centred;
    let steps = m[0].steps() + m[1].steps() + m[2].steps() + m[3].steps();
    let gain = total - centred;
    &&& gain > gain_floor
    &&& gain > 8 * scale
    &&& gain * 100 >= total * 15
    &&& (spread(m[0].mean as int, m[1].mean as int, m[2].mean as int, m[3].mean as int) >= 5 * scale
        || (steps >= 64 * scale && mixed(m, scale)))
}

fn distance(a: i32, b: i32) -> (r: u32)
    requires
        -0x2_0000 <= a <= 0x2_0000,
        -0x2_0000 <= b <= 0x2_0000,
    ensures
        r == cost::abs(a - b),
        r <= 0x4_0000,
{
    if a < b {
        (b - a) as u32
    } else {
        (a - b) as u32
    }
}

/// The sums of a quarter that do not need its mean.
fn measure_sums(orig: &[u16], pred: &[u16], q: usize) -> (r: (u32, i32, u32, u32))
    requires
        q < 4,
        orig@.len() >= 64,
        pred@.len() >= 64,
    ensures
        r.0 == arith::sum(16, |k: int| cost::abs(residual(orig@, pred@, q as int, k))),
        r.1 == arith::sum(16, |k: int| residual(orig@, pred@, q as int, k)),
        r.2 == arith::sum(16, |k: int| step_x(orig@, q as int, k)),
        r.3 == arith::sum(16, |k: int| step_y(orig@, q as int, k)),
        r.0 <= 0x10_0000,
        -0x10_0000 <= r.1 <= 0x10_0000,
        r.2 <= 0x10_0000,
        r.3 <= 0x10_0000,
{
    let ghost fa = |k: int| cost::abs(residual(orig@, pred@, q as int, k));
    let ghost fs = |k: int| residual(orig@, pred@, q as int, k);
    let ghost fx = |k: int| step_x(orig@, q as int, k);
    let ghost fy = |k: int| step_y(orig@, q as int, k);
    let (mut total, mut signed, mut across, mut down): (u32, i32, u32, u32) = (0, 0, 0, 0);
    for k in 0..16usize
        invariant
            q < 4,
            orig@.len() >= 64,
            pred@.len() >= 64,
            fa == (|k: int| cost::abs(residual(orig@, pred@, q as int, k))),
            fs == (|k: int| residual(orig@, pred@, q as int, k)),
            fx == (|k: int| step_x(orig@, q as int, k)),
            fy == (|k: int| step_y(orig@, q as int, k)),
            total == arith::sum(k as int, fa),
            signed == arith::sum(k as int, fs),
            across == arith::sum(k as int, fx),
            down == arith::sum(k as int, fy),
            total <= 0x1_0000 * k,
            -0x1_0000 * k <= signed <= 0x1_0000 * k,
            across <= 0x1_0000 * k,
            down <= 0x1_0000 * k,
    {
        let at: usize = ((q / 2) * 4 + k / 4) * 8 + (q % 2) * 4 + k % 4;
        assert(at == place(q as int, k as int));
        assert(k % 4 != 0 ==> at >= 1);
        assert(k / 4 != 0 ==> at >= 8);
        let (o, p): (i32, i32) = (orig[at] as i32, pred[at] as i32);
        assert(fa(k as int) == cost::abs(o - p));
        assert(fs(k as int) == o - p);
        total += distance(o, p);
        signed += o - p;
        assert(fx(k as int) == step_x(orig@, q as int, k as int));
        assert(fy(k as int) == step_y(orig@, q as int, k as int));
        if k % 4 != 0 {
            across += distance(o, orig[at - 1] as i32);
        }
        if k / 4 != 0 {
            down += distance(o, orig[at - 8] as i32);
        }
    }
    (total, signed, across, down)
}

/// Measures a quarter.
pub fn measure(orig: &[u16], pred: &[u16], q: usize) -> (r: Quarter)
    requires
        q < 4,
        orig@.len() >= 64,
        pred@.len() >= 64,
    ensures
        r == quarter(orig@, pred@, q as int),
        r.bounded(),
{
    let (total, signed, across, down): (u32, i32, u32, u32) = measure_sums(orig, pred, q);
    let mean: i32 = if signed >= 0 {
        (signed + 8) / 16
    } else {
        -((8 - signed) / 16)
    };
    let ghost f = |k: int| cost::abs(residual(orig@, pred@, q as int, k) - mean);
    let mut centred: u32 = 0;
    for k in 0..16usize
        invariant
            q < 4,
            orig@.len() >= 64,
            pred@.len() >= 64,
            -0x1_0001 <= mean <= 0x1_0001,
            f == (|k: int| cost::abs(residual(orig@, pred@, q as int, k) - mean)),
            centred == arith::sum(k as int, f),
            centred <= 0x2_0000 * k,
    {
        let at: usize = ((q / 2) * 4 + k / 4) * 8 + (q % 2) * 4 + k % 4;
        assert(at == place(q as int, k as int));
        let d: i32 = orig[at] as i32 - pred[at] as i32;
        assert(f(k as int) == cost::abs(d - mean));
        centred += distance(d, mean);
    }
    Quarter { total, mean, centred, across, down }
}

fn orientation_of(m: &Quarter) -> (r: u32)
    requires
        m.bounded(),
        m.steps() > 0,
    ensures
        r == m.orientation(),
{
    let steps: u32 = m.across + m.down;
    (m.across * 256 + steps / 2) / steps
}

/// Two of the quarters show directions that differ.
fn is_mixed(m: &[Quarter; 4], scale: u64) -> (r: bool)
    requires
        1 <= scale <= 0x1_0000_0000,
        forall|i: int| 0 <= i < 4 ==> (#[trigger] m@[i]).bounded(),
    ensures
        r == mixed(m@, scale as int),
{
    for i in 0..4usize
        invariant
            1 <= scale <= 0x1_0000_0000,
            forall|a: int| 0 <= a < 4 ==> (#[trigger] m@[a]).bounded(),
            forall|a: int, b: int|
                0 <= a < i && 0 <= b < 4 && directed(#[trigger] m@[a], scale as int) && directed(
                    #[trigger] m@[b],
                    scale as int,
                ) ==> m@[a].orientation() - m@[b].orientation() < 88,
    {
        assert(m@[i as int].bounded());
        if (m[i].across + m[i].down) as u64 >= 12 * scale {
            let a: u32 = orientation_of(&m[i]);
            for j in 0..4usize
                invariant
                    1 <= scale <= 0x1_0000_0000,
                    i < 4,
                    forall|a: int| 0 <= a < 4 ==> (#[trigger] m@[a]).bounded(),
                    directed(m@[i as int], scale as int),
                    a == m@[i as int].orientation(),
                    forall|b: int|
                        0 <= b < j && directed(#[trigger] m@[b], scale as int)
                            ==> m@[i as int].orientation() - m@[b].orientation() < 88,
            {
                assert(m@[j as int].bounded());
                if (m[j].across + m[j].down) as u64 >= 12 * scale {
                    let b: u32 = orientation_of(&m[j]);
                    if a >= b && a - b >= 88 {
                        assert(directed(m@[i as int], scale as int));
                        assert(directed(m@[j as int], scale as int));
                        return true;
                    }
                }
            }
        }
    }
    false
}

fn highest_of(a: i32, b: i32, c: i32, d: i32) -> (r: i32)
    ensures
        r == highest(a as int, b as int, c as int, d as int),
{
    let x: i32 = if a >= b {
        a
    } else {
        b
    };
    let y: i32 = if c >= d {
        c
    } else {
        d
    };
    if x >= y {
        x
    } else {
        y
    }
}

/// The measures of the quarters speak for modes of their own.
fn quarters_pay(m: &[Quarter; 4], gain_floor: u64, scale: u64) -> (r: bool)
    requires
        1 <= scale <= 0x1_0000_0000,
        forall|i: int| 0 <= i < 4 ==> (#[trigger] m@[i]).bounded(),
    ensures
        r == pays(m@, gain_floor as int, scale as int),
{
    assert(m@[0].bounded() && m@[1].bounded() && m@[2].bounded() && m@[3].bounded());
    let total: u64 = m[0].total as u64 + m[1].total as u64 + m[2].total as u64 + m[3].total as u64;
    let centred: u64 = m[0].centred as u64 + m[1].centred as u64 + m[2].centred as u64
        + m[3].centred as u64;
    if total <= centred {
        return false;
    }
    let gain: u64 = total - centred;
    if gain <= gain_floor || gain <= 8 * scale || gain * 100 < total * 15 {
        return false;
    }
    let high: i32 = highest_of(m[0].mean, m[1].mean, m[2].mean, m[3].mean);
    let low: i32 = highest_of(-m[0].mean, -m[1].mean, -m[2].mean, -m[3].mean);
    if (high + low) as u64 >= 5 * scale {
        return true;
    }
    let steps: u64 = m[0].across as u64 + m[0].down as u64 + m[1].across as u64 + m[1].down as u64
        + m[2].across as u64 + m[2].down as u64 + m[3].across as u64 + m[3].down as u64;
    steps >= 64 * scale && is_mixed(m, scale)
}

/// Whether an 8x8 block is worth four modes in place of the one that gives
/// `parent_pred`. The floors are what the transformed differences must exceed, and
/// what taking the means off must save.
pub fn choose_nxn_proxy(
    orig: &[u16],
    parent_pred: &[u16],
    satd_floor: u64,
    gain_floor: u64,
    bit_depth: u8,
) -> (r: bool)
    requires
        8 <= bit_depth <= 16,
        orig@.len() >= 64,
        parent_pred@.len() >= 64,
    ensures
        r == (cost::satd_of(orig@, parent_pred@, 8) > satd_floor && pays(
            quarters(orig@, parent_pred@),
            gain_floor as int,
            pow2((bit_depth - 8) as nat) as int,
        )),
{
    if satd_scalar(orig, parent_pred, 8) as u64 <= satd_floor {
        return false;
    }
    proof {
        lemma2_to64();
        lemma_pow2_pos((bit_depth - 8) as nat);
        if bit_depth < 16 {
            lemma_pow2_strictly_increases((bit_depth - 8) as nat, 8);
        }
    }
    let scale: u64 = pow2_i64((bit_depth - 8) as u32) as u64;
    let m: [Quarter; 4] = [
        measure(orig, parent_pred, 0),
        measure(orig, parent_pred, 1),
        measure(orig, parent_pred, 2),
        measure(orig, parent_pred, 3),
    ];
    proof {
        assert(m@ =~= quarters(orig@, parent_pred@));
    }
    quarters_pay(&m, gain_floor, scale)
}

} // verus!
