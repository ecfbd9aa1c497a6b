//! Sign-data hiding: in each group of sixteen levels the parity of the sum of
//! magnitudes carries the sign of the first non-zero level.
use crate::arith;
use crate::arith::shr_i64;
use crate::quant;
use crate::quant::Quantizer;
use crate::transform;
use vstd::arithmetic::power2::*;
use vstd::prelude::*;

verus! {

/// A change of one level: what it costs, where it is, and by how much the
/// magnitude changes.
pub struct Change {
    pub cost: int,
    pub pos: int,
    pub by: int,
}

/// What the choice of a changed level rests on: the coefficients, the scan of the
/// block, and its quantisation.
pub struct Hider {
    pub coeff: Seq<i32>,
    pub n: int,
    pub scan: Seq<(usize, usize)>,
    pub qp: int,
    pub bit_depth: int,
    /// Measure the error from the rounded level rather than from the level itself.
    pub rounded: bool,
}

impl Hider {
    /// The scan covers the block, and the arithmetic has room for the block.
    pub open spec fn wf(self) -> bool {
        &&& quant::quant_ok(self.n, self.qp, self.bit_depth)
        &&& self.coeff.len() >= self.n * self.n
        &&& self.scan.len() == self.n * self.n
        &&& forall|k: int|
            0 <= k < self.scan.len() ==> (#[trigger] self.scan[k]).0 < self.n && self.scan[k].1
                < self.n
    }

    /// No position comes twice in the scan.
    pub open spec fn distinct(self) -> bool {
        forall|i: int, j: int|
            0 <= i < j < self.scan.len() ==> #[trigger] self.scan[i] != #[trigger] self.scan[j]
    }

    /// Number of groups.
    pub open spec fn groups(self) -> int {
        self.n * self.n / 16
    }

    /// Place in the block of position `i` of group `g`.
    pub open spec fn at(self, g: int, i: int) -> int {
        self.scan[16 * g + i].0 * self.n + self.scan[16 * g + i].1
    }

    /// Level `i` of group `g`.
    pub open spec fn level(self, l: Seq<i16>, g: int, i: int) -> int {
        l[self.at(g, i)] as int
    }

    /// First non-zero level of group `g` from position `i` on, or 16.
    pub open spec fn first(self, l: Seq<i16>, g: int, i: int) -> int
        decreases 16 - i,
    {
        if i >= 16 || self.level(l, g, i) != 0 {
            i
        } else {
            self.first(l, g, i + 1)
        }
    }

    /// Last non-zero level of group `g` below position `i`, or -1.
    pub open spec fn last(self, l: Seq<i16>, g: int, i: int) -> int
        decreases i,
    {
        if i <= 0 {
            -1
        } else if self.level(l, g, i - 1) != 0 {
            i - 1
        } else {
            self.last(l, g, i - 1)
        }
    }

    /// Sum of the magnitudes of group `g`.
    pub open spec fn total(self, l: Seq<i16>, g: int) -> int {
        arith::sum(16, |i: int| quant::mag(self.level(l, g, i)))
    }

    /// The group hides a sign: its non-zero levels span at least five positions.
    pub open spec fn hides(self, l: Seq<i16>, g: int) -> bool {
        self.last(l, g, 16) - self.first(l, g, 0) >= 4
    }

    /// The first non-zero level is negative.
    pub open spec fn sign(self, l: Seq<i16>, g: int) -> bool {
        self.level(l, g, self.first(l, g, 0)) < 0
    }

    /// The parity of group `g` says what the sign is.
    pub open spec fn agrees(self, l: Seq<i16>, g: int) -> bool {
        self.hides(l, g) ==> self.sign(l, g) == (self.total(l, g) % 2 == 1)
    }

    /// How far the coefficient lies above its level, in steps of a 256th.
    pub open spec fn delta(self, l: Seq<i16>, g: int, i: int) -> int {
        let c = self.coeff[self.at(g, i)] as int;
        let bits = quant::q_bits(self.n, self.qp, self.bit_depth);
        let m = if self.rounded {
            quant::raw_level(c, self.n, self.qp, self.bit_depth)
        } else {
            quant::mag(self.level(l, g, i))
        };
        (quant::scaled(c, self.qp) - m * pow2(bits as nat)) / pow2((bits - 8) as nat) as int
    }

    /// The change of position `i` of group `g`; none where it would hide another
    /// sign.
    pub open spec fn candidate(self, l: Seq<i16>, g: int, i: int) -> Option<Change> {
        let d = self.delta(l, g, i);
        let f = self.first(l, g, 0);
        let v = self.level(l, g, i);
        if v != 0 {
            if d > 0 {
                Some(Change { cost: -d, pos: i, by: 1 })
            } else if i == f && quant::mag(v) == 1 {
                None
            } else {
                Some(Change { cost: d, pos: i, by: -1 })
            }
        } else if i < f && (self.coeff[self.at(g, i)] < 0) != self.sign(l, g) {
            None
        } else {
            Some(Change { cost: -d, pos: i, by: 1 })
        }
    }

    /// The cheapest change among the positions from `i` to `top`, the last one
    /// where there are several.
    pub open spec fn best(self, l: Seq<i16>, g: int, i: int, top: int) -> Option<Change>
        decreases top + 1 - i,
    {
        if i > top {
            None
        } else {
            let b = self.best(l, g, i + 1, top);
            match self.candidate(l, g, i) {
                Some(c) if b is None || c.cost < (b->0).cost => Some(c),
                _ => b,
            }
        }
    }

    /// Level `v` of a coefficient `c` after its magnitude was to change; at the
    /// ends of the range it shrinks.
    pub open spec fn changed(self, v: int, c: int, change: int) -> int {
        let k = if v == 32767 || v == -32768 {
            -1
        } else {
            change
        };
        arith::clip(
            -32768,
            32767,
            if c >= 0 {
                v + k
            } else {
                v - k
            },
        )
    }

    /// The levels after group `g` was made to agree; `last_group` tells that no
    /// later group has a non-zero level.
    pub open spec fn group_hidden(self, l: Seq<i16>, g: int, last_group: bool) -> Seq<i16> {
        if !self.hides(l, g) || self.sign(l, g) == (self.total(l, g) % 2 == 1) {
            l
        } else {
            let top = if last_group {
                self.last(l, g, 16)
            } else {
                15
            };
            let b = self.best(l, g, 0, top)->0;
            let p = self.at(g, b.pos);
            l.update(p, self.changed(l[p] as int, self.coeff[p] as int, b.by) as i16)
        }
    }

    /// The levels after the groups from `g` down were made to agree; `found` tells
    /// that a later group has a non-zero level.
    pub open spec fn hidden(self, l: Seq<i16>, g: int, found: bool) -> Seq<i16>
        decreases g + 1,
    {
        if g < 0 {
            l
        } else if self.first(l, g, 0) == 16 {
            self.hidden(l, g - 1, found)
        } else {
            self.hidden(self.group_hidden(l, g, !found), g - 1, true)
        }
    }
}

pub proof fn lemma_first(h: Hider, l: Seq<i16>, g: int, i: int)
    requires
        0 <= i <= 16,
    ensures
        ({
            let f = h.first(l, g, i);
            &&& i <= f <= 16
            &&& f < 16 ==> h.level(l, g, f) != 0
            &&& forall|k: int| i <= k < f ==> #[trigger] h.level(l, g, k) == 0
        }),
    decreases 16 - i,
{
    if i < 16 && h.level(l, g, i) == 0 {
        lemma_first(h, l, g, i + 1);
    }
}

pub proof fn lemma_last(h: Hider, l: Seq<i16>, g: int, i: int)
    requires
        0 <= i <= 16,
    ensures
        ({
            let f = h.last(l, g, i);
            &&& -1 <= f < i
            &&& f >= 0 ==> h.level(l, g, f) != 0
            &&& forall|k: int| f < k < i ==> #[trigger] h.level(l, g, k) == 0
        }),
    decreases i,
{
    if i > 0 && h.level(l, g, i - 1) == 0 {
        lemma_last(h, l, g, i - 1);
    }
}

/// Places in the block are inside it.
pub proof fn lemma_at(h: Hider, g: int, i: int)
    requires
        h.wf(),
        0 <= g < h.groups(),
        0 <= i < 16,
    ensures
        0 <= h.at(g, i) < h.n * h.n,
        h.scan[16 * g + i].0 * h.n <= h.at(g, i),
        16 * g + i < h.n * h.n,
        h.n * h.n <= 4096,
{
    let n = h.n;
    transform::lemma_area(n);
    let p = h.scan[16 * g + i];
    transform::lemma_row_fits(p.0 as int, n);
}

/// A group that hides a sign has a change that keeps it.
pub proof fn lemma_best(h: Hider, l: Seq<i16>, g: int, i: int, top: int)
    requires
        0 <= i,
        top <= 15,
    ensures
        ({
            let b = h.best(l, g, i, top);
            &&& b is Some ==> i <= (b->0).pos <= top && h.candidate(l, g, (b->0).pos) == b
            &&& b is None ==> forall|k: int| i <= k <= top ==> #[trigger] h.candidate(l, g, k) is None
        }),
    decreases top + 1 - i,
{
    if i <= top {
        lemma_best(h, l, g, i + 1, top);
    }
}

/// Position `i` of group `g` in the block.
pub fn place(scan: &[(usize, usize)], n: usize, g: usize, i: usize, Ghost(h): Ghost<Hider>) -> (r: usize)
    requires
        h.wf(),
        h.n == n,
        h.scan == scan@,
        g < h.groups(),
        i < 16,
    ensures
        r == h.at(g as int, i as int),
        r < n * n,
        n * n <= 4096,
{
    proof {
        lemma_at(h, g as int, i as int);
    }
    let p = scan[16 * g + i];
    assert(p == h.scan[16 * g + i]);
    p.0 * n + p.1
}

/// How far a coefficient lies above its level.
fn error_of(
    q: &Quantizer,
    level: i16,
    c: i32,
    rounded: bool,
    Ghost(h): Ghost<Hider>,
    Ghost(l): Ghost<Seq<i16>>,
    Ghost(g): Ghost<int>,
    Ghost(i): Ghost<int>,
) -> (r: i64)
    requires
        h.wf(),
        q.wf(h.n, h.qp, h.bit_depth),
        rounded == h.rounded,
        level == h.level(l, g, i),
        c == h.coeff[h.at(g, i)],
    ensures
        r == h.delta(l, g, i),
        -0x6000_0000_0000_0000 <= r <= 0x6000_0000_0000_0000,
{
    proof {
        quant::lemma_quant_bounds(h.n, h.qp, h.bit_depth);
        lemma2_to64_rest();
        if q.bits < 47 {
            lemma_pow2_strictly_increases(q.bits as nat, 47);
        }
        lemma_pow2_pos((q.bits - 8) as nat);
    }
    let s: i64 = q.scale_of(c, Ghost(h.n), Ghost(h.qp), Ghost(h.bit_depth));
    let p: i64 = arith::pow2_i64(q.bits);
    let m: i64 = if rounded {
        q.raw(c, Ghost(h.n), Ghost(h.qp), Ghost(h.bit_depth))
    } else {
        quant::magnitude(level as i32)
    };
    proof {
        if !rounded {
            assert(m * p <= 0x8000 * 0x8000_0000_0000) by (nonlinear_arith)
                requires
                    0 <= m <= 0x8000,
                    0 <= p <= 0x8000_0000_0000,
            ;
        }
        assert(0 <= m * p) by (nonlinear_arith)
            requires
                0 <= m,
                0 <= p,
        ;
    }
    let d: i64 = s - m * p;
    let r: i64 = shr_i64(d, q.bits - 8);
    proof {
        let w = pow2((q.bits - 8) as nat) as int;
        let t = d as int;
        assert(-0x6000_0000_0000_0000 <= t / w <= 0x6000_0000_0000_0000) by (nonlinear_arith)
            requires
                1 <= w,
                -0x5000_0000_0000_0000 <= t <= 0x5000_0000_0000_0000,
        ;
    }
    r
}

/// Where the non-zero levels of a group begin and end, and whether the sum of
/// their magnitudes is odd.
fn survey(
    levels: &[i16],
    scan: &[(usize, usize)],
    n: usize,
    g: usize,
    Ghost(h): Ghost<Hider>,
) -> (r: (usize, usize, bool))
    requires
        h.wf(),
        h.n == n,
        h.scan == scan@,
        g < h.groups(),
        levels@.len() >= n * n,
    ensures
        r.0 == h.first(levels@, g as int, 0),
        r.0 == 16 || r.1 == h.last(levels@, g as int, 16),
        r.2 == (h.total(levels@, g as int) % 2 == 1),
        r.0 == 16 || r.0 <= r.1 < 16,
{
    let ghost l = levels@;
    let ghost gg = g as int;
    let ghost f = |i: int| quant::mag(h.level(l, gg, i));
    let mut first: usize = 16;
    let mut last: usize = 0;
    let mut sum: i64 = 0;
    for i in 0..16usize
        invariant
            h.wf(),
            h.n == n,
            h.scan == scan@,
            g < h.groups(),
            gg == g,
            l == levels@,
            levels@.len() >= n * n,
            f == (|i: int| quant::mag(h.level(l, gg, i))),
            sum == arith::sum(i as int, f),
            0 <= sum <= 32768 * i,
            first == 16 ==> forall|k: int| 0 <= k < i ==> #[trigger] h.level(l, gg, k) == 0,
            first != 16 ==> first <= last < i && h.level(l, gg, first as int) != 0 && h.level(
                l,
                gg,
                last as int,
            ) != 0 && (forall|k: int| 0 <= k < first ==> #[trigger] h.level(l, gg, k) == 0) && (
            forall|k: int| last < k < i ==> #[trigger] h.level(l, gg, k) == 0),
    {
        let v: i16 = levels[place(scan, n, g, i, Ghost(h))];
        assert(v == h.level(l, gg, i as int));
        sum = sum + quant::magnitude(v as i32);
        assert(f(i as int) == quant::mag(v as int));
        if v != 0 {
            if first == 16 {
                first = i;
            }
            last = i;
        }
    }
    proof {
        lemma_first(h, l, gg, 0);
        lemma_last(h, l, gg, 16);
        if first != 16 {
            let a = h.first(l, gg, 0);
            let b = h.last(l, gg, 16);
            assert(h.level(l, gg, first as int) != 0);
            assert(h.level(l, gg, last as int) != 0);
            assert(a < 16 ==> h.level(l, gg, a) != 0);
            assert(b >= 0 ==> h.level(l, gg, b) != 0);
        } else {
            assert(h.first(l, gg, 0) < 16 ==> h.level(l, gg, h.first(l, gg, 0)) != 0);
        }
    }
    (first, last, sum % 2 == 1)
}

/// Makes group `g` agree.
fn hide_group(
    levels: &mut [i16],
    coeff: &[i32],
    n: usize,
    scan: &[(usize, usize)],
    q: &Quantizer,
    rounded: bool,
    g: usize,
    first: usize,
    last: usize,
    odd: bool,
    last_group: bool,
    Ghost(h): Ghost<Hider>,
)
    requires
        h.wf(),
        h.n == n,
        h.scan == scan@,
        h.coeff == coeff@,
        h.rounded == rounded,
        q.wf(h.n, h.qp, h.bit_depth),
        g < h.groups(),
        old(levels)@.len() >= n * n,
        first == h.first(old(levels)@, g as int, 0),
        last == h.last(old(levels)@, g as int, 16),
        first <= last < 16,
        odd == (h.total(old(levels)@, g as int) % 2 == 1),
    ensures
        final(levels)@ == h.group_hidden(old(levels)@, g as int, last_group),
        final(levels)@.len() == old(levels)@.len(),
{
    let ghost l = levels@;
    let ghost gg = g as int;
    if last - first < 4 {
        return;
    }
    let sign: bool = levels[place(scan, n, g, first, Ghost(h))] < 0;
    assert(sign == h.sign(l, gg));
    if sign == odd {
        return;
    }
    let top: usize = if last_group {
        last
    } else {
        15
    };
    let mut found: bool = false;
    let mut cost: i64 = 0;
    let mut pos: usize = 0;
    let mut by: i32 = 0;
    let mut left: usize = top + 1;
    while left > 0
        invariant
            h.wf(),
            h.n == n,
            h.scan == scan@,
            h.coeff == coeff@,
            h.rounded == rounded,
            q.wf(h.n, h.qp, h.bit_depth),
            g < h.groups(),
            gg == g,
            l == levels@,
            levels@.len() >= n * n,
            first == h.first(l, gg, 0),
            sign == h.sign(l, gg),
            top <= 15,
            left <= top + 1,
            found == h.best(l, gg, left as int, top as int) is Some,
            found ==> h.best(l, gg, left as int, top as int) == Some(
                Change { cost: cost as int, pos: pos as int, by: by as int },
            ) && pos <= 15 && -1 <= by <= 1,
        decreases left,
    {
        let i: usize = left - 1;
        let p: usize = place(scan, n, g, i, Ghost(h));
        proof {
            lemma_at(h, gg, i as int);
        }
        let v: i16 = levels[p];
        let c: i32 = coeff[p];
        let d: i64 = error_of(
            q,
            v,
            c,
            rounded,
            Ghost(h),
            Ghost(l),
            Ghost(gg),
            Ghost(i as int),
        );
        let mut ok: bool = true;
        let mut this: i64 = -d;
        let mut k: i32 = 1;
        if v != 0 {
            if d <= 0 {
                if i == first && (v == 1 || v == -1) {
                    ok = false;
                } else {
                    this = d;
                    k = -1;
                }
            }
        } else if i < first && (c < 0) != sign {
            ok = false;
        }
        assert(ok == h.candidate(l, gg, i as int) is Some);
        assert(ok ==> h.candidate(l, gg, i as int) == Some(
            Change { cost: this as int, pos: i as int, by: k as int },
        ));
        if ok && (!found || this < cost) {
            found = true;
            cost = this;
            pos = i;
            by = k;
        }
        left = left - 1;
    }
    proof {
        lemma_best(h, l, gg, 0, top as int);
        lemma_last(h, l, gg, 16);
        assert(h.candidate(l, gg, last as int) is Some);
    }
    let p: usize = place(scan, n, g, pos, Ghost(h));
    proof {
        lemma_at(h, gg, pos as int);
    }
    let v: i32 = levels[p] as i32;
    let k: i32 = if v == 32767 || v == -32768 {
        -1
    } else {
        by
    };
    let w: i32 = if coeff[p] >= 0 {
        v + k
    } else {
        v - k
    };
    levels[p] = if w < -32768 {
        -32768
    } else if w > 32767 {
        32767
    } else {
        w as i16
    };
}

/// Makes every group of the block agree, from the last one to the first.
pub fn sign_bit_hiding_hdq(
    levels: &mut [i16],
    coeff: &[i32],
    n: usize,
    scan: &[(usize, usize)],
    qp: u8,
    bit_depth: u8,
    use_rounded_magnitude: bool,
)
    requires
        (Hider {
            coeff: coeff@,
            n: n as int,
            scan: scan@,
            qp: qp as int,
            bit_depth: bit_depth as int,
            rounded: use_rounded_magnitude,
        }).wf(),
        old(levels)@.len() >= n * n,
    ensures
        ({
            let h = Hider {
                coeff: coeff@,
                n: n as int,
                scan: scan@,
                qp: qp as int,
                bit_depth: bit_depth as int,
                rounded: use_rounded_magnitude,
            };
            final(levels)@ == h.hidden(old(levels)@, h.groups() - 1, false)
        }),
        final(levels)@.len() == old(levels)@.len(),
{
    let ghost h = Hider {
        coeff: coeff@,
        n: n as int,
        scan: scan@,
        qp: qp as int,
        bit_depth: bit_depth as int,
        rounded: use_rounded_magnitude,
    };
    let q = Quantizer::new(n, qp, bit_depth);
    proof {
        transform::lemma_area(n as int);
    }
    let mut left: usize = n * n / 16;
    let mut found: bool = false;
    while left > 0
        invariant
            h.wf(),
            h.n == n,
            h.scan == scan@,
            h.coeff == coeff@,
            h.rounded == use_rounded_magnitude,
            q.wf(h.n, h.qp, h.bit_depth),
            left <= h.groups(),
            levels@.len() == old(levels)@.len(),
            levels@.len() >= n * n,
            h.hidden(levels@, left - 1, found) == h.hidden(old(levels)@, h.groups() - 1, false),
        decreases left,
    {
        let g: usize = left - 1;
        let (first, last, odd) = survey(levels, scan, n, g, Ghost(h));
        if first < 16 {
            hide_group(
                levels,
                coeff,
                n,
                scan,
                &q,
                use_rounded_magnitude,
                g,
                first,
                last,
                odd,
                !found,
                Ghost(h),
            );
            found = true;
        }
        left = left - 1;
    }
}

impl Hider {
    /// Every non-zero level has the sign of its coefficient.
    pub open spec fn signs_ok(self, l: Seq<i16>) -> bool {
        forall|p: int|
            0 <= p < self.n * self.n ==> (#[trigger] l[p] != 0 ==> (l[p] < 0) == (self.coeff[p]
                < 0))
    }
}

/// Different positions of the scan are different places in the block.
pub proof fn lemma_at_injective(h: Hider, g: int, i: int, g2: int, i2: int)
    requires
        h.wf(),
        h.distinct(),
        0 <= g < h.groups(),
        0 <= g2 < h.groups(),
        0 <= i < 16,
        0 <= i2 < 16,
        h.at(g, i) == h.at(g2, i2),
    ensures
        g == g2,
        i == i2,
{
    lemma_at(h, g, i);
    lemma_at(h, g2, i2);
    let a = h.scan[16 * g + i];
    let b = h.scan[16 * g2 + i2];
    transform::lemma_at(a.0 as int, a.1 as int, h.n);
    transform::lemma_at(b.0 as int, b.1 as int, h.n);
    assert(a == b);
    if 16 * g + i < 16 * g2 + i2 {
        assert(h.scan[16 * g + i] != h.scan[16 * g2 + i2]);
    } else if 16 * g2 + i2 < 16 * g + i {
        assert(h.scan[16 * g2 + i2] != h.scan[16 * g + i]);
    }
}

/// A group depends on its own levels only.
proof fn lemma_group_frame(h: Hider, l: Seq<i16>, m: Seq<i16>, g: int, i: int)
    requires
        0 <= i <= 16,
        forall|k: int| 0 <= k < 16 ==> #[trigger] h.level(l, g, k) == h.level(m, g, k),
    ensures
        h.first(l, g, i) == h.first(m, g, i),
        h.last(l, g, 16 - i) == h.last(m, g, 16 - i),
        h.total(l, g) == h.total(m, g),
    decreases 16 - i,
{
    if i < 16 {
        lemma_group_frame(h, l, m, g, i + 1);
        assert(h.level(l, g, i) == h.level(m, g, i));
        assert(h.level(l, g, 15 - i) == h.level(m, g, 15 - i));
    }
    let f = |k: int| quant::mag(h.level(l, g, k));
    let e = |k: int| quant::mag(h.level(m, g, k));
    assert forall|k: int| 0 <= k < 16 implies #[trigger] f(k) == e(k) by {
        assert(h.level(l, g, k) == h.level(m, g, k));
    }
    arith::lemma_sum_ext(16, f, e);
}

/// Changing one term of a sum changes the sum by as much.
proof fn lemma_sum_update(n: int, f: spec_fn(int) -> int, e: spec_fn(int) -> int, j: int)
    requires
        0 <= j < n,
        forall|k: int| 0 <= k < n && k != j ==> #[trigger] f(k) == e(k),
    ensures
        arith::sum(n, e) == arith::sum(n, f) - f(j) + e(j),
    decreases n,
{
    if j == n - 1 {
        arith::lemma_sum_ext(n - 1, f, e);
    } else {
        lemma_sum_update(n - 1, f, e, j);
    }
}

/// A group agrees once it was made to, its signs stay right, and no other place
/// changes.
proof fn lemma_group_hidden(h: Hider, l: Seq<i16>, g: int, last_group: bool)
    requires
        h.wf(),
        h.distinct(),
        l.len() >= h.n * h.n,
        h.signs_ok(l),
        0 <= g < h.groups(),
    ensures
        h.agrees(h.group_hidden(l, g, last_group), g),
        h.signs_ok(h.group_hidden(l, g, last_group)),
        h.group_hidden(l, g, last_group).len() == l.len(),
        forall|g2: int, i: int|
            0 <= g2 < h.groups() && g2 != g && 0 <= i < 16 ==> #[trigger] h.level(
                h.group_hidden(l, g, last_group),
                g2,
                i,
            ) == h.level(l, g2, i),
{
    let m = h.group_hidden(l, g, last_group);
    if h.hides(l, g) && h.sign(l, g) != (h.total(l, g) % 2 == 1) {
        let top = if last_group {
            h.last(l, g, 16)
        } else {
            15
        };
        lemma_first(h, l, g, 0);
        lemma_last(h, l, g, 16);
        lemma_best(h, l, g, 0, top);
        let f = h.first(l, g, 0);
        let e = h.last(l, g, 16);
        assert(h.candidate(l, g, e) is Some);
        let b = h.best(l, g, 0, top)->0;
        let p = h.at(g, b.pos);
        lemma_at(h, g, b.pos);
        let v = l[p] as int;
        let c = h.coeff[p] as int;
        let w = h.changed(v, c, b.by);
        assert(l[p] != 0 ==> (l[p] < 0) == (h.coeff[p] < 0));
        assert(-32768 <= w <= 32767);
        assert(quant::mag(w) == quant::mag(v) + 1 || quant::mag(w) == quant::mag(v) - 1);
        assert(w != 0 ==> (w < 0) == (c < 0));
        assert(m == l.update(p, w as i16));
        assert forall|g2: int, i: int|
            0 <= g2 < h.groups() && 0 <= i < 16 && !(g2 == g && i == b.pos) implies #[trigger] h.level(
            m,
            g2,
            i,
        ) == h.level(l, g2, i) by {
            lemma_at(h, g2, i);
            if h.at(g2, i) == p {
                lemma_at_injective(h, g2, i, g, b.pos);
            }
        }
        assert(h.level(m, g, b.pos) == w);
        let fl = |k: int| quant::mag(h.level(l, g, k));
        let fm = |k: int| quant::mag(h.level(m, g, k));
        assert forall|k: int| 0 <= k < 16 && k != b.pos implies #[trigger] fl(k) == fm(k) by {
            assert(h.level(m, g, k) == h.level(l, g, k));
        }
        lemma_sum_update(16, fl, fm, b.pos);
        assert(h.total(m, g) == h.total(l, g) - quant::mag(v) + quant::mag(w));
        assert((h.total(m, g) % 2 == 1) == h.sign(l, g));
        lemma_first(h, m, g, 0);
        let f2 = h.first(m, g, 0);
        assert(h.level(m, g, f) == if f == b.pos { w } else { h.level(l, g, f) });
        if b.pos < f {
            assert(v == 0) by {
                assert(h.level(l, g, b.pos) == 0);
            }
            assert(f2 == b.pos) by {
                if f2 < b.pos {
                    assert(h.level(m, g, f2) == h.level(l, g, f2));
                    assert(h.level(l, g, f2) == 0);
                }
                if f2 > b.pos {
                    assert(h.level(m, g, b.pos) == 0);
                }
            }
        } else {
            assert(h.level(m, g, f) != 0);
            assert(f2 == f) by {
                if f2 < f {
                    assert(h.level(m, g, f2) == h.level(l, g, f2));
                    assert(h.level(l, g, f2) == 0);
                }
                if f2 > f {
                    assert(h.level(m, g, f) == 0);
                }
            }
        }
        assert(h.sign(m, g) == h.sign(l, g));
    }
}

proof fn lemma_hidden(h: Hider, l: Seq<i16>, g: int, found: bool)
    requires
        h.wf(),
        h.distinct(),
        l.len() >= h.n * h.n,
        h.signs_ok(l),
        -1 <= g < h.groups(),
    ensures
        h.signs_ok(h.hidden(l, g, found)),
        h.hidden(l, g, found).len() == l.len(),
        forall|g2: int| 0 <= g2 <= g ==> #[trigger] h.agrees(h.hidden(l, g, found), g2),
        forall|g2: int, i: int|
            g < g2 < h.groups() && 0 <= i < 16 ==> #[trigger] h.level(
                h.hidden(l, g, found),
                g2,
                i,
            ) == h.level(l, g2, i),
    decreases g + 1,
{
    if g >= 0 {
        let r = h.hidden(l, g, found);
        if h.first(l, g, 0) == 16 {
            lemma_hidden(h, l, g - 1, found);
            lemma_group_frame(h, l, r, g, 0);
            lemma_first(h, l, g, 0);
            lemma_last(h, l, g, 16);
            assert(h.agrees(r, g));
        } else {
            let m = h.group_hidden(l, g, !found);
            lemma_group_hidden(h, l, g, !found);
            lemma_hidden(h, m, g - 1, true);
            lemma_group_frame(h, m, r, g, 0);
            lemma_first(h, m, g, 0);
            assert(h.agrees(m, g));
            if h.hides(r, g) {
                lemma_last(h, m, g, 16);
                assert(h.level(r, g, h.first(r, g, 0)) == h.level(m, g, h.first(m, g, 0)));
            }
            assert(h.agrees(r, g));
        }
    }
}

/// After sign hiding, the parity of every group that hides a sign says what the
/// sign of its first non-zero level is, and every level keeps the sign of its
/// coefficient.
pub proof fn law_parity_carries_the_sign(h: Hider, l: Seq<i16>)
    requires
        h.wf(),
        h.distinct(),
        l.len() >= h.n * h.n,
        h.signs_ok(l),
    ensures
        forall|g: int|
            0 <= g < h.groups() ==> #[trigger] h.agrees(h.hidden(l, h.groups() - 1, false), g),
        h.signs_ok(h.hidden(l, h.groups() - 1, false)),
{
    transform::lemma_area(h.n);
    lemma_hidden(h, l, h.groups() - 1, false);
}

} // verus!
