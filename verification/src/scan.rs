//! Coefficient scan orders.
use vstd::prelude::*;

verus! {

/// Up-right diagonal scan of a 4x4 block, as `(row, col)`.
pub const DIAG_SCAN_4X4: [(usize, usize); 16] = [
    (0, 0), (1, 0), (0, 1), (2, 0), (1, 1), (0, 2), (3, 0), (2, 1),
    (1, 2), (0, 3), (3, 1), (2, 2), (1, 3), (3, 2), (2, 3), (3, 3),
];

/// Row by row scan of a 4x4 block, as `(row, col)`.
pub const HORIZ_SCAN_4X4: [(usize, usize); 16] = [
    (0, 0), (0, 1), (0, 2), (0, 3), (1, 0), (1, 1), (1, 2), (1, 3),
    (2, 0), (2, 1), (2, 2), (2, 3), (3, 0), (3, 1), (3, 2), (3, 3),
];

/// Column by column scan of a 4x4 block, as `(row, col)`.
pub const VERT_SCAN_4X4: [(usize, usize); 16] = [
    (0, 0), (1, 0), (2, 0), (3, 0), (0, 1), (1, 1), (2, 1), (3, 1),
    (0, 2), (1, 2), (2, 2), (3, 2), (0, 3), (1, 3), (2, 3), (3, 3),
];

/// Up-right diagonal scan of the four 4x4 sub-blocks of an 8x8 block, as
/// `(column, row)`.
pub const SB_DIAG_2X2: [(usize, usize); 4] = [
    (0, 0), (0, 1), (1, 0), (1, 1),
];

/// Row by row scan of the four 4x4 sub-blocks of an 8x8 block, as
/// `(column, row)`.
pub const SB_HORIZ_2X2: [(usize, usize); 4] = [
    (0, 0), (1, 0), (0, 1), (1, 1),
];

/// Up-right diagonal scan of the sub-blocks of a 16x16 block, as
/// `(column, row)`.
pub const SB_DIAG_4X4: [(usize, usize); 16] = [
    (0, 0), (0, 1), (1, 0), (0, 2), (1, 1), (2, 0), (0, 3), (1, 2),
    (2, 1), (3, 0), (1, 3), (2, 2), (3, 1), (2, 3), (3, 2), (3, 3),
];

/// Up-right diagonal scan of the sub-blocks of a 32x32 block, as
/// `(column, row)`.
pub const SB_DIAG_8X8: [(usize, usize); 64] = [
    (0, 0), (0, 1), (1, 0), (0, 2), (1, 1), (2, 0), (0, 3), (1, 2),
    (2, 1), (3, 0), (0, 4), (1, 3), (2, 2), (3, 1), (4, 0), (0, 5),
    (1, 4), (2, 3), (3, 2), (4, 1), (5, 0), (0, 6), (1, 5), (2, 4),
    (3, 3), (4, 2), (5, 1), (6, 0), (0, 7), (1, 6), (2, 5), (3, 4),
    (4, 3), (5, 2), (6, 1), (7, 0), (1, 7), (2, 6), (3, 5), (4, 4),
    (5, 3), (6, 2), (7, 1), (2, 7), (3, 6), (4, 5), (5, 4), (6, 3),
    (7, 2), (3, 7), (4, 6), (5, 5), (6, 4), (7, 3), (4, 7), (5, 6),
    (6, 5), (7, 4), (5, 7), (6, 6), (7, 5), (6, 7), (7, 6), (7, 7),
];

/// Up-right diagonal scan of an 8x8 block, one 4x4 sub-block after the other, as
/// `(row, col)`.
pub const ZIGZAG: [(usize, usize); 64] = [
    (0, 0), (1, 0), (0, 1), (2, 0), (1, 1), (0, 2), (3, 0), (2, 1),
    (1, 2), (0, 3), (3, 1), (2, 2), (1, 3), (3, 2), (2, 3), (3, 3),
    (4, 0), (5, 0), (4, 1), (6, 0), (5, 1), (4, 2), (7, 0), (6, 1),
    (5, 2), (4, 3), (7, 1), (6, 2), (5, 3), (7, 2), (6, 3), (7, 3),
    (0, 4), (1, 4), (0, 5), (2, 4), (1, 5), (0, 6), (3, 4), (2, 5),
    (1, 6), (0, 7), (3, 5), (2, 6), (1, 7), (3, 6), (2, 7), (3, 7),
    (4, 4), (5, 4), (4, 5), (6, 4), (5, 5), (4, 6), (7, 4), (6, 5),
    (5, 6), (4, 7), (7, 5), (6, 6), (5, 7), (7, 6), (6, 7), (7, 7),
];

/// The scans of the four block sizes: diagonal (0), row by row (1) or column by
/// column (2), where the latter two exist for 4x4 and 8x8 blocks.
pub open spec fn scan_ok(log2: int, scan_idx: int) -> bool {
    &&& 2 <= log2 <= 5
    &&& 0 <= scan_idx <= 2
    &&& log2 > 3 ==> scan_idx == 0
}

/// Sub-blocks per side.
pub open spec fn sb_side(log2: int) -> int {
    if log2 == 2 {
        1
    } else if log2 == 3 {
        2
    } else if log2 == 4 {
        4
    } else {
        8
    }
}

/// Samples per side.
pub open spec fn side(log2: int) -> int {
    4 * sb_side(log2)
}

/// Number of coefficients.
pub open spec fn area(log2: int) -> int {
    16 * num_sb(log2)
}

/// Number of 4x4 sub-blocks.
pub open spec fn num_sb(log2: int) -> int {
    if log2 == 2 {
        1
    } else if log2 == 3 {
        4
    } else if log2 == 4 {
        16
    } else {
        64
    }
}

/// Column and row of sub-block `i` in scan order.
pub open spec fn sb_pos(log2: int, scan_idx: int, i: int) -> (int, int) {
    let p = if log2 == 2 {
        (0usize, 0usize)
    } else if log2 == 3 {
        if scan_idx == 1 {
            SB_HORIZ_2X2@[i]
        } else {
            SB_DIAG_2X2@[i]
        }
    } else if log2 == 4 {
        SB_DIAG_4X4@[i]
    } else {
        SB_DIAG_8X8@[i]
    };
    (p.0 as int, p.1 as int)
}

/// Row and column, inside its sub-block, of scan position `k`.
pub open spec fn inner_pos(scan_idx: int, k: int) -> (int, int) {
    let p = if scan_idx == 1 {
        HORIZ_SCAN_4X4@[k]
    } else if scan_idx == 2 {
        VERT_SCAN_4X4@[k]
    } else {
        DIAG_SCAN_4X4@[k]
    };
    (p.0 as int, p.1 as int)
}

/// Row and column of scan position `k` of a block.
pub open spec fn scan_pos(log2: int, scan_idx: int, k: int) -> (int, int) {
    let sb = sb_pos(log2, scan_idx, k / 16);
    let p = inner_pos(scan_idx, k % 16);
    (4 * sb.1 + p.0, 4 * sb.0 + p.1)
}

/// Number of positions on the first `d` diagonals.
pub closed spec fn triangle(d: int) -> int {
    if d <= 0 {
        0
    } else if d == 1 {
        1
    } else if d == 2 {
        3
    } else if d == 3 {
        6
    } else if d == 4 {
        10
    } else if d == 5 {
        15
    } else if d == 6 {
        21
    } else {
        28
    }
}

/// Where `(x, y)` comes in the diagonal scan of an `n` by `n` grid.
pub closed spec fn diag_index(n: int, x: int, y: int) -> int {
    if x + y < n {
        triangle(x + y) + x
    } else {
        n * n - 1 - triangle(2 * n - 2 - x - y) - (n - 1 - x)
    }
}

/// Where sub-block `(x, y)` comes in the scan.
pub closed spec fn sb_index(log2: int, scan_idx: int, x: int, y: int) -> int {
    if log2 == 3 && scan_idx == 1 {
        2 * y + x
    } else {
        diag_index(sb_side(log2), x, y)
    }
}

/// Where `(row, col)` comes in the scan of a 4x4 block.
spec fn inner_index(scan_idx: int, row: int, col: int) -> int {
    if scan_idx == 1 {
        4 * row + col
    } else if scan_idx == 2 {
        4 * col + row
    } else {
        diag_index(4, col, row)
    }
}

/// The scan position of `(row, col)`.
pub closed spec fn scan_index(log2: int, scan_idx: int, row: int, col: int) -> int {
    16 * sb_index(log2, scan_idx, col / 4, row / 4) + inner_index(scan_idx, row % 4, col % 4)
}

/// Sub-block positions are inside the block, and each comes once.
pub proof fn lemma_sb_pos(log2: int, scan_idx: int, i: int)
    requires
        scan_ok(log2, scan_idx),
        0 <= i < num_sb(log2),
    ensures
        0 <= sb_pos(log2, scan_idx, i).0 < sb_side(log2),
        0 <= sb_pos(log2, scan_idx, i).1 < sb_side(log2),
        sb_index(log2, scan_idx, sb_pos(log2, scan_idx, i).0, sb_pos(log2, scan_idx, i).1) == i,
{
}

/// Two sub-blocks at one position are one.
pub proof fn lemma_sb_pos_injective(log2: int, scan_idx: int, i: int, j: int)
    requires
        scan_ok(log2, scan_idx),
        0 <= i < num_sb(log2),
        0 <= j < num_sb(log2),
        sb_pos(log2, scan_idx, i) == sb_pos(log2, scan_idx, j),
    ensures
        i == j,
{
    lemma_sb_pos(log2, scan_idx, i);
    lemma_sb_pos(log2, scan_idx, j);
}

proof fn lemma_sb_index(log2: int, scan_idx: int, x: int, y: int)
    requires
        scan_ok(log2, scan_idx),
        0 <= x < sb_side(log2),
        0 <= y < sb_side(log2),
    ensures
        0 <= sb_index(log2, scan_idx, x, y) < num_sb(log2),
        sb_pos(log2, scan_idx, sb_index(log2, scan_idx, x, y)) == (x, y),
{
}

proof fn lemma_inner_pos(scan_idx: int, k: int)
    requires
        0 <= scan_idx <= 2,
        0 <= k < 16,
    ensures
        0 <= inner_pos(scan_idx, k).0 < 4,
        0 <= inner_pos(scan_idx, k).1 < 4,
        inner_index(scan_idx, inner_pos(scan_idx, k).0, inner_pos(scan_idx, k).1) == k,
{
}

proof fn lemma_inner_index(scan_idx: int, row: int, col: int)
    requires
        0 <= scan_idx <= 2,
        0 <= row < 4,
        0 <= col < 4,
    ensures
        0 <= inner_index(scan_idx, row, col) < 16,
        inner_pos(scan_idx, inner_index(scan_idx, row, col)) == (row, col),
{
}

/// Every scan position is inside the block, and `scan_index` finds it again.
#[verifier::spinoff_prover]
#[verifier::rlimit(60)]
pub proof fn lemma_scan_pos(log2: int, scan_idx: int, k: int)
    requires
        scan_ok(log2, scan_idx),
        0 <= k < area(log2),
    ensures
        0 <= scan_pos(log2, scan_idx, k).0 < side(log2),
        0 <= scan_pos(log2, scan_idx, k).1 < side(log2),
        scan_index(log2, scan_idx, scan_pos(log2, scan_idx, k).0, scan_pos(log2, scan_idx, k).1)
            == k,
{
    lemma_sb_pos(log2, scan_idx, k / 16);
    lemma_inner_pos(scan_idx, k % 16);
}

/// A scan visits every position of the block exactly once.
pub proof fn law_scan_is_a_bijection(log2: int, scan_idx: int)
    requires
        scan_ok(log2, scan_idx),
    ensures
        forall|row: int, col: int|
            0 <= row < side(log2) && 0 <= col < side(log2) ==> {
                &&& 0 <= #[trigger] scan_index(log2, scan_idx, row, col) < area(log2)
                &&& scan_pos(log2, scan_idx, scan_index(log2, scan_idx, row, col)) == (row, col)
            },
        forall|k: int|
            0 <= k < area(log2) ==> {
                let p = #[trigger] scan_pos(log2, scan_idx, k);
                &&& 0 <= p.0 < side(log2)
                &&& 0 <= p.1 < side(log2)
                &&& scan_index(log2, scan_idx, p.0, p.1) == k
            },
{
    assert forall|row: int, col: int|
        0 <= row < side(log2) && 0 <= col < side(log2) implies {
        &&& 0 <= #[trigger] scan_index(log2, scan_idx, row, col) < area(log2)
        &&& scan_pos(log2, scan_idx, scan_index(log2, scan_idx, row, col)) == (row, col)
    } by {
        lemma_sb_index(log2, scan_idx, col / 4, row / 4);
        lemma_inner_index(scan_idx, row % 4, col % 4);
        let i = sb_index(log2, scan_idx, col / 4, row / 4);
        let k = inner_index(scan_idx, row % 4, col % 4);
        assert((16 * i + k) / 16 == i && (16 * i + k) % 16 == k);
    }
    assert forall|k: int| 0 <= k < area(log2) implies {
        let p = #[trigger] scan_pos(log2, scan_idx, k);
        &&& 0 <= p.0 < side(log2)
        &&& 0 <= p.1 < side(log2)
        &&& scan_index(log2, scan_idx, p.0, p.1) == k
    } by {
        lemma_scan_pos(log2, scan_idx, k);
    }
}

/// The listed scan of 8x8 blocks is the diagonal one.
pub proof fn lemma_zigzag(k: int)
    requires
        0 <= k < 64,
    ensures
        scan_pos(3, 0, k) == (ZIGZAG@[k].0 as int, ZIGZAG@[k].1 as int),
{
}

/// Column and row of sub-block `i` in scan order.
pub fn sb_at(log2: u32, scan_idx: u8, i: usize) -> (r: (usize, usize))
    requires
        scan_ok(log2 as int, scan_idx as int),
        i < num_sb(log2 as int),
    ensures
        (r.0 as int, r.1 as int) == sb_pos(log2 as int, scan_idx as int, i as int),
        r.0 < sb_side(log2 as int),
        r.1 < sb_side(log2 as int),
{
    proof {
        lemma_sb_pos(log2 as int, scan_idx as int, i as int);
    }
    if log2 == 2 {
        (0, 0)
    } else if log2 == 3 {
        if scan_idx == 1 {
            SB_HORIZ_2X2[i]
        } else {
            SB_DIAG_2X2[i]
        }
    } else if log2 == 4 {
        SB_DIAG_4X4[i]
    } else {
        SB_DIAG_8X8[i]
    }
}

/// Sub-blocks per side.
pub fn sb_side_of(log2: u32) -> (r: usize)
    requires
        2 <= log2 <= 5,
    ensures
        r == sb_side(log2 as int),
{
    if log2 == 2 {
        1
    } else if log2 == 3 {
        2
    } else if log2 == 4 {
        4
    } else {
        8
    }
}

/// Row and column of scan position `k`.
pub fn pos_at(log2: u32, scan_idx: u8, k: usize) -> (r: (usize, usize))
    requires
        scan_ok(log2 as int, scan_idx as int),
        k < area(log2 as int),
    ensures
        (r.0 as int, r.1 as int) == scan_pos(log2 as int, scan_idx as int, k as int),
        r.0 < side(log2 as int),
        r.1 < side(log2 as int),
{
    let sb = sb_at(log2, scan_idx, k / 16);
    let p = if scan_idx == 1 {
        HORIZ_SCAN_4X4[k % 16]
    } else if scan_idx == 2 {
        VERT_SCAN_4X4[k % 16]
    } else {
        DIAG_SCAN_4X4[k % 16]
    };
    proof {
        lemma_scan_pos(log2 as int, scan_idx as int, k as int);
        lemma_inner_pos(scan_idx as int, k as int % 16);
    }
    (4 * sb.1 + p.0, 4 * sb.0 + p.1)
}

/// The scan of a whole block, sub-block after sub-block, as `(row, col)`.
pub fn coeff_scan(log2: u32, scan_idx: u8) -> (r: Vec<(usize, usize)>)
    requires
        scan_ok(log2 as int, scan_idx as int),
    ensures
        r@ == scan_list(log2 as int, scan_idx as int),
{
    let w: usize = sb_side_of(log2);
    let n: usize = 16 * (w * w);
    let mut r: Vec<(usize, usize)> = Vec::new();
    for k in 0..n
        invariant
            scan_ok(log2 as int, scan_idx as int),
            n == area(log2 as int),
            r@.len() == k,
            forall|i: int|
                0 <= i < k ==> #[trigger] r@[i] == scan_list(log2 as int, scan_idx as int)[i],
    {
        r.push(pos_at(log2, scan_idx, k));
    }
    assert(r@ =~= scan_list(log2 as int, scan_idx as int));
    r
}

/// The scan of a whole block.
pub open spec fn scan_list(log2: int, scan_idx: int) -> Seq<(usize, usize)> {
    Seq::new(
        area(log2) as nat,
        |k: int|
            (
                scan_pos(log2, scan_idx, k).0 as usize,
                scan_pos(log2, scan_idx, k).1 as usize,
            ),
    )
}

/// The scan that an intra block uses: small blocks with a nearly horizontal
/// prediction are scanned column by column, those with a nearly vertical one row
/// by row.
pub open spec fn scan_idx_of(mode: int, log2: int, is_luma: bool, is_444: bool) -> int {
    if log2 == 2 || (log2 == 3 && (is_luma || is_444)) {
        if 6 <= mode <= 14 {
            2
        } else if 22 <= mode <= 30 {
            1
        } else {
            0
        }
    } else {
        0
    }
}

/// The scan of a block, by its mode and size.
pub fn scan_idx_for(mode: u8, log2: u32, is_luma: bool, is_444: bool) -> (r: u8)
    ensures
        r == scan_idx_of(mode as int, log2 as int, is_luma, is_444),
        2 <= log2 <= 5 ==> scan_ok(log2 as int, r as int),
{
    if log2 == 2 || (log2 == 3 && (is_luma || is_444)) {
        if 6 <= mode && mode <= 14 {
            2
        } else if 22 <= mode && mode <= 30 {
            1
        } else {
            0
        }
    } else {
        0
    }
}

} // verus!
