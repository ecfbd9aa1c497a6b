//! What the index of the blocks of a picture lists.
use crate::blockhash;
use crate::refs;
use crate::transform;
use vstd::prelude::*;

verus! {

/// The place of block number `i` of a level.
spec fn place_of(w: int, level: int, i: int) -> (u32, u32) {
    let cols = blockhash::grid(w, blockhash::side(level));
    (((i % cols) * 8) as u32, ((i / cols) * 8) as u32)
}

/// The number of the block at a place.
spec fn number_of(w: int, level: int, p: (u32, u32)) -> int {
    (p.1 as int / 8) * blockhash::grid(w, blockhash::side(level)) + p.0 as int / 8
}

/// The place of a block fits the words that hold it, and gives its number.
proof fn lemma_place(w: int, h: int, level: int, i: int)
    requires
        0 <= w <= 0x7fff_ffff,
        0 <= h <= 0x7fff_ffff,
        0 <= level <= 2,
        ({
            let size = blockhash::side(level);
            0 <= i < blockhash::grid(w, size) * blockhash::grid(h, size)
        }),
    ensures
        ({
            let size = blockhash::side(level);
            let cols = blockhash::grid(w, size);
            let p = place_of(w, level, i);
            &&& p.0 == (i % cols) * 8
            &&& p.1 == (i / cols) * 8
            &&& p.0 + size <= w
            &&& p.1 + size <= h
            &&& number_of(w, level, p) == i
        }),
{
    let size = blockhash::side(level);
    let (cols, rows) = (blockhash::grid(w, size), blockhash::grid(h, size));
    blockhash::lemma_grid(w, h, size, i);
    let (bx, by) = (i % cols, i / cols);
    assert(by * cols + bx == i) by (nonlinear_arith)
        requires
            bx == i % cols,
            by == i / cols,
            0 < cols,
    ;
}

/// An entry of a list is the place of a block with its hash.
spec fn entry_ok(y: Seq<u16>, w: int, level: int, hash: u64, n: int, p: (u32, u32)) -> bool {
    let i = number_of(w, level, p);
    &&& 0 <= i < n
    &&& blockhash::indexed(y, w, level, hash, i)
    &&& p == place_of(w, level, i)
}

/// A list holds the places of the blocks with its hash, one after another.
proof fn lemma_listed(y: Seq<u16>, w: int, h: int, level: int, hash: u64, n: int)
    requires
        0 <= w <= 0x7fff_ffff,
        0 <= h <= 0x7fff_ffff,
        0 <= level <= 2,
        ({
            let size = blockhash::side(level);
            0 <= n <= blockhash::grid(w, size) * blockhash::grid(h, size)
        }),
    ensures
        ({
            let l = blockhash::listed(y, w, level, hash, n);
            &&& forall|k: int|
                0 <= k < l.len() ==> entry_ok(y, w, level, hash, n, #[trigger] l[k])
            &&& forall|k: int, j: int|
                0 <= k < j < l.len() ==> number_of(w, level, #[trigger] l[k]) < number_of(
                    w,
                    level,
                    #[trigger] l[j],
                )
            &&& forall|i: int|
                0 <= i < n && #[trigger] blockhash::indexed(y, w, level, hash, i) ==> l.contains(
                    place_of(w, level, i),
                )
        }),
    decreases n,
{
    if n > 0 {
        lemma_listed(y, w, h, level, hash, n - 1);
        lemma_place(w, h, level, n - 1);
        let rest = blockhash::listed(y, w, level, hash, n - 1);
        let l = blockhash::listed(y, w, level, hash, n);
        assert forall|k: int| 0 <= k < l.len() implies entry_ok(
            y,
            w,
            level,
            hash,
            n,
            #[trigger] l[k],
        ) by {
            if k < rest.len() {
                assert(entry_ok(y, w, level, hash, n - 1, rest[k]));
            }
        }
        assert forall|k: int, j: int| 0 <= k < j < l.len() implies number_of(
            w,
            level,
            #[trigger] l[k],
        ) < number_of(w, level, #[trigger] l[j]) by {
            assert(entry_ok(y, w, level, hash, n - 1, rest[k]));
        }
        assert forall|i: int|
            0 <= i < n && #[trigger] blockhash::indexed(y, w, level, hash, i) implies l.contains(
            place_of(w, level, i),
        ) by {
            let p = place_of(w, level, i);
            if i < n - 1 {
                assert(rest.contains(p));
                let k = choose|k: int| 0 <= k < rest.len() && rest[k] == p;
                assert(l[k] == p);
            } else {
                assert(l[l.len() - 1] == p);
            }
        }
    }
}

/// A place on the grid has a number.
proof fn lemma_number(w: int, h: int, level: int, px: int, py: int)
    requires
        0 <= w <= 0x7fff_ffff,
        0 <= h <= 0x7fff_ffff,
        0 <= level <= 2,
        0 <= px,
        0 <= py,
        px % 8 == 0,
        py % 8 == 0,
        px + blockhash::side(level) <= w,
        py + blockhash::side(level) <= h,
    ensures
        ({
            let size = blockhash::side(level);
            let i = number_of(w, level, (px as u32, py as u32));
            &&& 0 <= i < blockhash::grid(w, size) * blockhash::grid(h, size)
            &&& place_of(w, level, i) == (px as u32, py as u32)
            &&& i % blockhash::grid(w, size) * 8 == px
            &&& i / blockhash::grid(w, size) * 8 == py
        }),
{
    let size = blockhash::side(level);
    let (cols, rows) = (blockhash::grid(w, size), blockhash::grid(h, size));
    let (bx, by) = (px / 8, py / 8);
    assert(0 <= bx < cols && 0 <= by < rows);
    transform::lemma_at(by, bx, cols);
    refs::lemma_inside(by, bx, cols, rows);
    assert(rows * cols == cols * rows) by (nonlinear_arith);
}

/// Of two places the one with the smaller number comes first, row by row.
proof fn lemma_raster(cols: int, bx: int, by: int, cx: int, cy: int)
    requires
        0 <= bx < cols,
        0 <= cx < cols,
        by * cols + bx < cy * cols + cx,
    ensures
        by < cy || (by == cy && bx < cx),
{
    if by > cy {
        assert(by * cols >= cy * cols + cols) by (nonlinear_arith)
            requires
                by >= cy + 1,
                0 <= cols,
        ;
    }
}

/// The list of a hash holds exactly the places that have it, each once, in raster
/// order; sizes that are not indexed have no list.
pub proof fn law_a_list_holds_the_places_of_its_hash(
    y: Seq<u16>,
    w: int,
    h: int,
    size: int,
    hash: u64,
)
    requires
        0 <= w <= 0x7fff_ffff,
        0 <= h <= 0x7fff_ffff,
    ensures
        ({
            let l = blockhash::matching(y, w, h, size, hash);
            &&& forall|px: u32, py: u32|
                #![trigger l.contains((px, py))]
                l.contains((px, py)) <==> blockhash::place_hash(
                    y,
                    w,
                    h,
                    size,
                    px as int,
                    py as int,
                ) == Some(hash)
            &&& forall|k: int, j: int|
                0 <= k < j < l.len() ==> (#[trigger] l[k]).1 < (#[trigger] l[j]).1 || (l[k].1
                    == l[j].1 && l[k].0 < l[j].0)
            &&& blockhash::level_of(size) is None ==> l.len() == 0
        }),
{
    let l = blockhash::matching(y, w, h, size, hash);
    match blockhash::level_of(size) {
        Some(level) => {
            assert(blockhash::side(level) == size);
            let (cols, rows) = (blockhash::grid(w, size), blockhash::grid(h, size));
            let n = cols * rows;
            assert(0 <= n) by (nonlinear_arith)
                requires
                    0 <= cols,
                    0 <= rows,
                    n == cols * rows,
            ;
            lemma_listed(y, w, h, level, hash, n);
            assert forall|px: u32, py: u32|
                #![trigger l.contains((px, py))]
                l.contains((px, py)) == (blockhash::place_hash(
                    y,
                    w,
                    h,
                    size,
                    px as int,
                    py as int,
                ) == Some(hash)) by {
                let p = (px, py);
                if l.contains(p) {
                    let k = choose|k: int| 0 <= k < l.len() && l[k] == p;
                    assert(entry_ok(y, w, level, hash, n, l[k]));
                    lemma_place(w, h, level, number_of(w, level, p));
                }
                if blockhash::place_hash(y, w, h, size, px as int, py as int) == Some(hash) {
                    lemma_number(w, h, level, px as int, py as int);
                    let i = number_of(w, level, p);
                    assert(blockhash::indexed(y, w, level, hash, i));
                }
            }
            assert forall|k: int, j: int| 0 <= k < j < l.len() implies (#[trigger] l[k]).1 < (
            #[trigger] l[j]).1 || (l[k].1 == l[j].1 && l[k].0 < l[j].0) by {
                assert(entry_ok(y, w, level, hash, n, l[k]));
                assert(entry_ok(y, w, level, hash, n, l[j]));
                let (a, b) = (number_of(w, level, l[k]), number_of(w, level, l[j]));
                lemma_place(w, h, level, a);
                lemma_place(w, h, level, b);
                blockhash::lemma_grid(w, h, size, a);
                blockhash::lemma_grid(w, h, size, b);
                lemma_raster(
                    cols,
                    l[k].0 as int / 8,
                    l[k].1 as int / 8,
                    l[j].0 as int / 8,
                    l[j].1 as int / 8,
                );
            }
        },
        None => {
            assert forall|px: u32, py: u32|
                #![trigger l.contains((px, py))]
                l.contains((px, py)) == (blockhash::place_hash(
                    y,
                    w,
                    h,
                    size,
                    px as int,
                    py as int,
                ) == Some(hash)) by {}
        },
    }
}

/// Blocks with the same samples at two places of the index are in the same list, or
/// both flat and in none.
pub proof fn law_equal_blocks_share_a_list(
    y: Seq<u16>,
    w: int,
    h: int,
    size: int,
    px: int,
    py: int,
    qx: int,
    qy: int,
)
    requires
        blockhash::level_of(size) is Some,
        px % 8 == 0 && py % 8 == 0 && px + size <= w && py + size <= h,
        qx % 8 == 0 && qy % 8 == 0 && qx + size <= w && qy + size <= h,
        blockhash::same_block(y, w, size, px, py, qx, qy),
    ensures
        blockhash::place_hash(y, w, h, size, px, py) == blockhash::place_hash(
            y,
            w,
            h,
            size,
            qx,
            qy,
        ),
{
    let level = blockhash::level_of(size).unwrap();
    blockhash::law_equal_blocks_hash_equal(y, w, level, px, py, qx, qy);
    lemma_flat(y, w, size, px, py, qx, qy);
    assert(blockhash::same_block(y, w, size, qx, qy, px, py)) by {
        assert forall|i: int, j: int|
            0 <= i < size && 0 <= j < size implies #[trigger] blockhash::in_block(
            y,
            w,
            qx,
            qy,
            i,
            j,
        ) == blockhash::in_block(y, w, px, py, i, j) by {
            assert(blockhash::in_block(y, w, px, py, i, j) == blockhash::in_block(
                y,
                w,
                qx,
                qy,
                i,
                j,
            ));
        }
    }
    lemma_flat(y, w, size, qx, qy, px, py);
}

/// A block with the samples of a flat one is flat.
proof fn lemma_flat(
    y: Seq<u16>,
    w: int,
    size: int,
    px: int,
    py: int,
    qx: int,
    qy: int,
)
    requires
        0 < size,
        blockhash::same_block(y, w, size, px, py, qx, qy),
    ensures
        blockhash::is_flat(y, w, size, px, py) ==> blockhash::is_flat(y, w, size, qx, qy),
{
    if blockhash::is_flat(y, w, size, px, py) {
        assert forall|r: int, c: int|
            qy <= r < qy + size && qx <= c < qx + size implies #[trigger] blockhash::sample(
            y,
            w,
            r,
            c,
        ) == blockhash::sample(y, w, qy, qx) by {
            let (i, j) = (r - qy, c - qx);
            assert(blockhash::in_block(y, w, px, py, i, j) == blockhash::in_block(
                y,
                w,
                qx,
                qy,
                i,
                j,
            ));
            assert(blockhash::in_block(y, w, px, py, 0, 0) == blockhash::in_block(
                y,
                w,
                qx,
                qy,
                0,
                0,
            ));
            assert(blockhash::sample(y, w, py + i, px + j) == blockhash::sample(y, w, py, px));
        }
    }
}

} // verus!
