//! Block vectors of intra block copy.
use crate::arith::{pow2_i64, shr_i32};
use vstd::arithmetic::power2::*;
use vstd::prelude::*;

verus! {

/// Map entry of a block that is not a copy.
pub const BV_INTRA: i32 = i32::MIN;

/// A block vector as a map entry: `x` in the high half, `y` in the low one.
pub open spec fn packed(x: int, y: int) -> int {
    x * 65536 + y % 65536
}

/// The block vector of a map entry.
pub open spec fn unpacked(entry: int) -> Option<(int, int)> {
    if entry == BV_INTRA {
        None
    } else {
        let low = entry % 65536;
        Some(
            (
                entry / 65536,
                if low < 32768 {
                    low
                } else {
                    low - 65536
                },
            ),
        )
    }
}

/// A block vector in one word.
pub fn pack_bv(x: i16, y: i16) -> (r: i32)
    ensures
        r == packed(x as int, y as int),
{
    let low: i32 = if y < 0 {
        y as i32 + 65536
    } else {
        y as i32
    };
    x as i32 * 65536 + low
}

/// The vector of a block, as mathematical integers.
pub open spec fn bv_view(v: Option<(i16, i16)>) -> Option<(int, int)> {
    match v {
        None => None,
        Some(p) => Some((p.0 as int, p.1 as int)),
    }
}

/// The block vector in a word, if the word holds one.
pub fn unpack_bv(packed: i32) -> (r: Option<(i16, i16)>)
    ensures
        bv_view(r) == unpacked(packed as int),
{
    if packed == BV_INTRA {
        return None;
    }
    proof {
        lemma2_to64();
    }
    let high: i32 = shr_i32(packed, 16);
    let low: i32 = packed - high * 65536;
    let y: i32 = if low < 32768 {
        low
    } else {
        low - 65536
    };
    Some((high as i16, y as i16))
}

/// Unpacking gives back what was packed, for every vector but the one whose entry
/// stands for a block that is not a copy.
pub proof fn law_unpack_undoes_pack(x: i16, y: i16)
    requires
        !(x == i16::MIN && y == 0),
    ensures
        unpacked(packed(x as int, y as int)) == Some((x as int, y as int)),
{
}

/// Boundary strength across an edge between two blocks: 2 next to a block that is
/// not a copy, else whether the vectors differ.
pub open spec fn strength(current: int, neighbor: int) -> int {
    match (unpacked(current), unpacked(neighbor)) {
        (Some(a), Some(b)) => if a != b {
            1
        } else {
            0
        },
        _ => 2,
    }
}

/// The strength of the edge between two blocks, by their vectors.
pub fn boundary_strength(current: i32, neighbor: i32) -> (r: u8)
    ensures
        r == strength(current as int, neighbor as int),
{
    match (unpack_bv(current), unpack_bv(neighbor)) {
        (Some(a), Some(b)) => if a.0 != b.0 || a.1 != b.1 {
            1
        } else {
            0
        },
        _ => 2,
    }
}

/// Boundary strength does not depend on the side that is looked from.
pub proof fn law_strength_is_symmetric(a: i32, b: i32)
    ensures
        strength(a as int, b as int) == strength(b as int, a as int),
{
}

/// What a block vector is checked against: a square block of side `size` at
/// `(x, y)` in a picture that is coded in blocks of side `2^ctb_log2`.
#[derive(Clone, Copy)]
pub struct CuGeom {
    pub x: usize,
    pub y: usize,
    pub size: usize,
    pub pic_w: usize,
    pub pic_h: usize,
    pub ctb_log2: u32,
}

/// The first and last sample of the block that is copied.
#[derive(Clone, Copy, PartialEq, Eq, Structural, Debug)]
pub struct SourceArea {
    pub x0: usize,
    pub y0: usize,
    pub x1: usize,
    pub y1: usize,
}

impl CuGeom {
    pub open spec fn ok(self) -> bool {
        &&& self.x <= i32::MAX
        &&& self.y <= i32::MAX
        &&& 1 <= self.size <= i32::MAX
        &&& self.pic_w <= i32::MAX
        &&& self.pic_h <= i32::MAX
        &&& self.ctb_log2 <= 30
    }

    /// The source of vector `(bvx, bvy)` lies inside the picture.
    pub open spec fn inside(self, bvx: int, bvy: int) -> bool {
        &&& 0 <= self.x + bvx
        &&& 0 <= self.y + bvy
        &&& self.x + bvx + self.size <= self.pic_w
        &&& self.y + bvy + self.size <= self.pic_h
    }

    /// The source lies wholly to the left of the block or wholly above it.
    pub open spec fn apart(self, bvx: int, bvy: int) -> bool {
        bvx + self.size <= 0 || bvy + self.size <= 0
    }

    /// The source does not reach past the coded part of the picture: for each row
    /// of coding blocks that it lies above, it may end one coding block further to
    /// the right.
    pub open spec fn behind_wavefront(self, bvx: int, bvy: int) -> bool {
        let ctb = pow2(self.ctb_log2 as nat) as int;
        (self.x + bvx + self.size - 1) / ctb - self.x as int / ctb <= self.y as int / ctb - (self.y
            + bvy + self.size - 1) / ctb
    }

    pub open spec fn allows(self, bvx: int, bvy: int) -> bool {
        self.inside(bvx, bvy) && self.apart(bvx, bvy) && self.behind_wavefront(bvx, bvy)
    }
}

/// The block that a vector copies from, where the vector is allowed.
pub fn source_area(cu: &CuGeom, bvx: i32, bvy: i32) -> (r: Option<SourceArea>)
    requires
        cu.ok(),
    ensures
        r is Some <==> cu.allows(bvx as int, bvy as int),
        r matches Some(a) ==> {
            &&& a.x0 == cu.x + bvx
            &&& a.y0 == cu.y + bvy
            &&& a.x1 == cu.x + bvx + cu.size - 1
            &&& a.y1 == cu.y + bvy + cu.size - 1
        },
{
    let size: i64 = cu.size as i64;
    let src_x: i64 = cu.x as i64 + bvx as i64;
    let src_y: i64 = cu.y as i64 + bvy as i64;
    let x1: i64 = src_x + size - 1;
    let y1: i64 = src_y + size - 1;
    if src_x < 0 || src_y < 0 || x1 >= cu.pic_w as i64 || y1 >= cu.pic_h as i64 {
        return None;
    }
    if bvx as i64 + size > 0 && bvy as i64 + size > 0 {
        return None;
    }
    let ctb: i64 = pow2_i64(cu.ctb_log2);
    proof {
        lemma_quotient(x1 as int, ctb as int);
        lemma_quotient(cu.x as int, ctb as int);
        lemma_quotient(y1 as int, ctb as int);
        lemma_quotient(cu.y as int, ctb as int);
    }
    let left: i64 = x1 / ctb - cu.x as i64 / ctb;
    let right: i64 = cu.y as i64 / ctb - y1 / ctb;
    if left > right {
        return None;
    }
    Some(SourceArea { x0: src_x as usize, y0: src_y as usize, x1: x1 as usize, y1: y1 as usize })
}

proof fn lemma_quotient(a: int, b: int)
    requires
        0 <= a,
        1 <= b,
    ensures
        0 <= a / b <= a,
{
    assert(0 <= a / b <= a) by (nonlinear_arith)
        requires
            0 <= a,
            1 <= b,
    ;
}

/// No sample of an allowed source belongs to the block that is predicted.
pub proof fn law_source_and_block_are_disjoint(cu: CuGeom, bvx: i32, bvy: i32, i: int, j: int)
    requires
        cu.ok(),
        cu.allows(bvx as int, bvy as int),
        0 <= i < cu.size,
        0 <= j < cu.size,
    ensures
        ({
            let (px, py) = (cu.x + bvx + j, cu.y + bvy + i);
            &&& 0 <= px < cu.pic_w
            &&& 0 <= py < cu.pic_h
            &&& !(cu.x <= px < cu.x + cu.size && cu.y <= py < cu.y + cu.size)
        }),
{
}

/// The first of some candidates that is there.
pub open spec fn first_of(
    a: Option<(i16, i16)>,
    b: Option<(i16, i16)>,
) -> Option<(i16, i16)> {
    if a is Some {
        a
    } else {
        b
    }
}

/// The two predictors from the vectors of the left neighbours `a0`, `a1` and the
/// upper ones `b0`, `b1`, `b2`: the first left one and the first upper one, each
/// value once, then zeros.
pub open spec fn predictors(
    a0: Option<(i16, i16)>,
    a1: Option<(i16, i16)>,
    b0: Option<(i16, i16)>,
    b1: Option<(i16, i16)>,
    b2: Option<(i16, i16)>,
) -> ((i16, i16), (i16, i16)) {
    let left = first_of(a0, a1);
    let up = first_of(b0, first_of(b1, b2));
    let zero = (0i16, 0i16);
    match (left, up) {
        (Some(a), Some(b)) => if a == b {
            (a, zero)
        } else {
            (a, b)
        },
        (Some(a), None) => (a, zero),
        (None, Some(b)) => (b, zero),
        (None, None) => (zero, zero),
    }
}

/// The predictors from the neighbours' vectors.
pub fn predictors_from(
    a0: Option<(i16, i16)>,
    a1: Option<(i16, i16)>,
    b0: Option<(i16, i16)>,
    b1: Option<(i16, i16)>,
    b2: Option<(i16, i16)>,
) -> (r: [(i16, i16); 2])
    ensures
        (r@[0], r@[1]) == predictors(a0, a1, b0, b1, b2),
{
    let left: Option<(i16, i16)> = if a0.is_some() {
        a0
    } else {
        a1
    };
    let up: Option<(i16, i16)> = if b0.is_some() {
        b0
    } else if b1.is_some() {
        b1
    } else {
        b2
    };
    match (left, up) {
        (Some(a), Some(b)) => if a.0 == b.0 && a.1 == b.1 {
            [a, (0, 0)]
        } else {
            [a, b]
        },
        (Some(a), None) => [a, (0, 0)],
        (None, Some(b)) => [b, (0, 0)],
        (None, None) => [(0, 0), (0, 0)],
    }
}

/// `r` is what the neighbour at `(px, py)` offers: nothing outside the picture or
/// where it is not available, else its vector.
pub open spec fn neighbour<A: Fn(usize, usize) -> bool, M: Fn(usize, usize) -> Option<(i16, i16)>>(
    available: &A,
    motion: &M,
    px: int,
    py: int,
    r: Option<(i16, i16)>,
) -> bool {
    if px < 0 || py < 0 {
        r is None
    } else {
        ||| available.ensures((px as usize, py as usize), false) && r is None
        ||| available.ensures((px as usize, py as usize), true) && motion.ensures(
            (px as usize, py as usize),
            r,
        )
    }
}

fn neighbour_at<A: Fn(usize, usize) -> bool, M: Fn(usize, usize) -> Option<(i16, i16)>>(
    available: &A,
    motion: &M,
    px: i64,
    py: i64,
) -> (r: Option<(i16, i16)>)
    requires
        px <= 0x7fff_ffff,
        py <= 0x7fff_ffff,
        forall|x: usize, y: usize| #[trigger] available.requires((x, y)),
        forall|x: usize, y: usize| #[trigger] motion.requires((x, y)),
    ensures
        neighbour(available, motion, px as int, py as int, r),
{
    if px < 0 || py < 0 {
        return None;
    }
    let (x, y): (usize, usize) = (px as usize, py as usize);
    if !available(x, y) {
        return None;
    }
    motion(x, y)
}

/// The vector predictors of the block of side `size` at `(x, y)`, where
/// `available` tells which positions are decoded and `motion` reads the vector
/// that covers one.
pub fn amvp_predictors<
    A: Fn(usize, usize) -> bool,
    M: Fn(usize, usize) -> Option<(i16, i16)>,
>(x: usize, y: usize, size: usize, available: &A, motion: &M) -> (r: [(i16, i16); 2])
    requires
        x + size <= i32::MAX,
        y + size <= i32::MAX,
        1 <= size,
        forall|px: usize, py: usize| #[trigger] available.requires((px, py)),
        forall|px: usize, py: usize| #[trigger] motion.requires((px, py)),
    ensures
        exists|
            a0: Option<(i16, i16)>,
            a1: Option<(i16, i16)>,
            b0: Option<(i16, i16)>,
            b1: Option<(i16, i16)>,
            b2: Option<(i16, i16)>,
        |
            {
                &&& neighbour(available, motion, x - 1, y + size, a0)
                &&& neighbour(available, motion, x - 1, y + size - 1, a1)
                &&& neighbour(available, motion, x + size, y - 1, b0)
                &&& neighbour(available, motion, x + size - 1, y - 1, b1)
                &&& neighbour(available, motion, x - 1, y - 1, b2)
                &&& (r@[0], r@[1]) == #[trigger] predictors(a0, a1, b0, b1, b2)
            },
{
    let (xi, yi, n): (i64, i64, i64) = (x as i64, y as i64, size as i64);
    let a0: Option<(i16, i16)> = neighbour_at(available, motion, xi - 1, yi + n);
    let a1: Option<(i16, i16)> = neighbour_at(available, motion, xi - 1, yi + n - 1);
    let b0: Option<(i16, i16)> = neighbour_at(available, motion, xi + n, yi - 1);
    let b1: Option<(i16, i16)> = neighbour_at(available, motion, xi + n - 1, yi - 1);
    let b2: Option<(i16, i16)> = neighbour_at(available, motion, xi - 1, yi - 1);
    predictors_from(a0, a1, b0, b1, b2)
}

/// The difference that is coded for a vector against its predictor.
pub fn mvd_for(bv: (i16, i16), mvp: (i16, i16)) -> (r: (i32, i32))
    ensures
        r.0 == bv.0 - mvp.0,
        r.1 == bv.1 - mvp.1,
        mvp.0 + r.0 == bv.0,
        mvp.1 + r.1 == bv.1,
{
    (bv.0 as i32 - mvp.0 as i32, bv.1 as i32 - mvp.1 as i32)
}

/// A vector keeps the chroma planes on whole samples: it is even along each axis
/// that they are subsampled on.
pub fn parity_ok(bvx: i32, bvy: i32, sub_w: usize, sub_h: usize) -> (r: bool)
    ensures
        r == ((sub_w == 1 || bvx as int % 2 == 0) && (sub_h == 1 || bvy as int % 2 == 0)),
        1 <= sub_w <= 2 && 1 <= sub_h <= 2 ==> (r <==> bvx as int % sub_w as int == 0 && bvy as int
            % sub_h as int == 0),
{
    (sub_w == 1 || is_even(bvx)) && (sub_h == 1 || is_even(bvy))
}

fn is_even(v: i32) -> (r: bool)
    ensures
        r == (v as int % 2 == 0),
{
    proof {
        lemma2_to64();
    }
    2 * shr_i32(v, 1) == v
}

} // verus!
