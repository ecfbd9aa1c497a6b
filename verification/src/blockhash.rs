//! An index of the blocks of a picture by their contents.
use crate::refs;
use std::collections::HashMap;
use vstd::prelude::*;

verus! {

/// Sides of the blocks that are indexed, the smallest first.
pub const SIZES: [usize; 3] = [8, 16, 32];

/// The longest list of candidates that one block takes from the index.
pub const MAX_CANDIDATES: usize = 12;

pub const HASH_BASIS: u64 = 0xcbf2_9ce4_8422_2325;

pub const HASH_PRIME: u64 = 0x0000_0100_0000_01b3;

/// A hash after one more value.
pub open spec fn mix(h: u64, v: u64) -> u64 {
    (h ^ v).wrapping_mul(HASH_PRIME)
}

/// The hash of a sequence of values.
pub open spec fn hash_of(s: Seq<u64>) -> u64
    decreases s.len(),
{
    if s.len() == 0 {
        HASH_BASIS
    } else {
        mix(hash_of(s.drop_last()), s.last())
    }
}

/// The sample in row `r` and column `c` of a plane.
pub open spec fn sample(y: Seq<u16>, w: int, r: int, c: int) -> u16 {
    y[r * w + c]
}

/// Side of the blocks of a level.
pub open spec fn side(level: int) -> int {
    if level == 0 {
        8
    } else if level == 1 {
        16
    } else {
        32
    }
}

/// The samples of the 8x8 block at `(x, y0)`, row by row.
pub open spec fn samples8(y: Seq<u16>, w: int, x: int, y0: int) -> Seq<u64> {
    Seq::new(64, |k: int| in_block(y, w, x, y0, k / 8, k % 8) as u64)
}

/// The hash of the block of a level at `(x, y0)`: of its samples, or of the hashes
/// of its four quarters.
pub open spec fn block_hash(y: Seq<u16>, w: int, level: int, x: int, y0: int) -> u64
    decreases level,
{
    if level <= 0 {
        hash_of(samples8(y, w, x, y0))
    } else {
        let s = side(level - 1);
        hash_of(
            seq![
                block_hash(y, w, level - 1, x, y0),
                block_hash(y, w, level - 1, x + s, y0),
                block_hash(y, w, level - 1, x, y0 + s),
                block_hash(y, w, level - 1, x + s, y0 + s),
            ],
        )
    }
}

/// All samples of a block are equal.
pub open spec fn is_flat(y: Seq<u16>, w: int, size: int, x: int, y0: int) -> bool {
    forall|r: int, c: int|
        y0 <= r < y0 + size && x <= c < x + size ==> #[trigger] sample(y, w, r, c) == sample(
            y,
            w,
            y0,
            x,
        )
}

/// The sample in row `i` and column `j` of the block at `(x, y0)`.
pub open spec fn in_block(y: Seq<u16>, w: int, x: int, y0: int, i: int, j: int) -> u16 {
    sample(y, w, y0 + i, x + j)
}

/// Two blocks have the same samples.
pub open spec fn same_block(
    y: Seq<u16>,
    w: int,
    size: int,
    x: int,
    y0: int,
    x2: int,
    y2: int,
) -> bool {
    forall|i: int, j: int|
        0 <= i < size && 0 <= j < size ==> #[trigger] in_block(y, w, x, y0, i, j) == in_block(
            y,
            w,
            x2,
            y2,
            i,
            j,
        )
}

/// Blocks with the same samples have the same hash.
pub proof fn law_equal_blocks_hash_equal(
    y: Seq<u16>,
    w: int,
    level: int,
    x: int,
    y0: int,
    x2: int,
    y2: int,
)
    requires
        0 <= level <= 2,
        same_block(y, w, side(level), x, y0, x2, y2),
    ensures
        block_hash(y, w, level, x, y0) == block_hash(y, w, level, x2, y2),
    decreases level, 1int,
{
    if level == 0 {
        assert(samples8(y, w, x, y0) =~= samples8(y, w, x2, y2));
    } else {
        let s = side(level - 1);
        lemma_quarter(y, w, level, x, y0, x2, y2, 0, 0);
        lemma_quarter(y, w, level, x, y0, x2, y2, s, 0);
        lemma_quarter(y, w, level, x, y0, x2, y2, 0, s);
        lemma_quarter(y, w, level, x, y0, x2, y2, s, s);
    }
}

proof fn lemma_quarter(
    y: Seq<u16>,
    w: int,
    level: int,
    x: int,
    y0: int,
    x2: int,
    y2: int,
    dx: int,
    dy: int,
)
    requires
        1 <= level <= 2,
        same_block(y, w, side(level), x, y0, x2, y2),
        dx == 0 || dx == side(level - 1),
        dy == 0 || dy == side(level - 1),
    ensures
        block_hash(y, w, level - 1, x + dx, y0 + dy) == block_hash(
            y,
            w,
            level - 1,
            x2 + dx,
            y2 + dy,
        ),
    decreases level, 0int,
{
    let s = side(level - 1);
    assert forall|i: int, j: int| 0 <= i < s && 0 <= j < s implies #[trigger] in_block(
        y,
        w,
        x + dx,
        y0 + dy,
        i,
        j,
    ) == in_block(y, w, x2 + dx, y2 + dy, i, j) by {
        let (a, b) = (dy + i, dx + j);
        assert(in_block(y, w, x, y0, a, b) == in_block(y, w, x2, y2, a, b));
    }
    law_equal_blocks_hash_equal(y, w, level - 1, x + dx, y0 + dy, x2 + dx, y2 + dy);
}

proof fn lemma_hash_push(s: Seq<u64>, v: u64)
    ensures
        hash_of(s.push(v)) == mix(hash_of(s), v),
{
    assert(s.push(v).drop_last() =~= s);
}

/// Hash of four values.
fn combine(a: u64, b: u64, c: u64, d: u64) -> (r: u64)
    ensures
        r == hash_of(seq![a, b, c, d]),
{
    proof {
        lemma_hash_push(Seq::empty(), a);
        lemma_hash_push(seq![a], b);
        lemma_hash_push(seq![a, b], c);
        lemma_hash_push(seq![a, b, c], d);
        assert(Seq::empty().push(a) =~= seq![a]);
        assert(seq![a].push(b) =~= seq![a, b]);
        assert(seq![a, b].push(c) =~= seq![a, b, c]);
        assert(seq![a, b, c].push(d) =~= seq![a, b, c, d]);
    }
    let h: u64 = (HASH_BASIS ^ a).wrapping_mul(HASH_PRIME);
    let h: u64 = (h ^ b).wrapping_mul(HASH_PRIME);
    let h: u64 = (h ^ c).wrapping_mul(HASH_PRIME);
    (h ^ d).wrapping_mul(HASH_PRIME)
}

/// A block of side `size` at `(x, y0)` lies inside a plane.
pub open spec fn fits(w: int, h: int, size: int, x: int, y0: int) -> bool {
    0 <= x && 0 <= y0 && x + size <= w && y0 + size <= h
}

/// Hash, flatness and first sample of the 8x8 block at `(x, y0)`.
fn hash_8x8(y: &[u16], stride: usize, x: usize, y0: usize, Ghost(h): Ghost<int>) -> (r: (
    u64,
    bool,
    u16,
))
    requires
        y@.len() >= stride * h,
        fits(stride as int, h, 8, x as int, y0 as int),
    ensures
        r.0 == block_hash(y@, stride as int, 0, x as int, y0 as int),
        r.1 == is_flat(y@, stride as int, 8, x as int, y0 as int),
        r.2 == sample(y@, stride as int, y0 as int, x as int),
{
    let len: usize = y.len();
    proof {
        assert(stride * h == h * stride) by (nonlinear_arith);
        refs::lemma_inside(y0 as int, x as int, stride as int, h);
    }
    let first: u16 = y[y0 * stride + x];
    let mut flat: bool = true;
    let mut hash: u64 = HASH_BASIS;
    let ghost all = samples8(y@, stride as int, x as int, y0 as int);
    assert(all.take(0) =~= Seq::empty());
    for k in 0..64usize
        invariant
            len == y@.len(),
            y@.len() >= h * stride,
            fits(stride as int, h, 8, x as int, y0 as int),
            all == samples8(y@, stride as int, x as int, y0 as int),
            first == sample(y@, stride as int, y0 as int, x as int),
            hash == hash_of(all.take(k as int)),
            flat == (forall|i: int| 0 <= i < k ==> #[trigger] all[i] == first),
    {
        let (i, j): (usize, usize) = (k / 8, k % 8);
        proof {
            assert(h <= h * stride) by (nonlinear_arith)
                requires
                    0 <= h,
                    1 <= stride,
            ;
            refs::lemma_inside(y0 + i, x + j, stride as int, h);
        }
        let v: u16 = y[(y0 + i) * stride + (x + j)];
        assert(all[k as int] == v);
        assert(all.take(k + 1) =~= all.take(k as int).push(v as u64));
        proof {
            lemma_hash_push(all.take(k as int), v as u64);
        }
        flat = flat && v == first;
        hash = (hash ^ (v as u64)).wrapping_mul(HASH_PRIME);
    }
    proof {
        assert(all.take(64) =~= all);
        if flat {
            assert forall|r: int, c: int|
                y0 <= r < y0 + 8 && x <= c < x + 8 implies #[trigger] sample(
                y@,
                stride as int,
                r,
                c,
            ) == first by {
                let k = (r - y0) * 8 + (c - x);
                assert(all[k] == first);
            }
        } else {
            let k = choose|i: int| 0 <= i < 64 && #[trigger] all[i] != first;
            assert(sample(y@, stride as int, y0 + k / 8, x + k % 8) != first);
        }
    }
    (hash, flat, first)
}

/// The blocks of one size on the grid of every eighth sample.
struct Level {
    cols: usize,
    rows: usize,
    hash: Vec<u64>,
    flat: Vec<bool>,
    first: Vec<u16>,
}

/// How many blocks of side `size` start on the grid along a length.
pub open spec fn grid(len: int, size: int) -> int {
    if len >= size {
        (len - size) / 8 + 1
    } else {
        0
    }
}

fn grid_of(len: usize, size: usize) -> (r: usize)
    requires
        size >= 8,
    ensures
        r == grid(len as int, size as int),
        r <= len,
{
    if len >= size {
        (len - size) / 8 + 1
    } else {
        0
    }
}

impl Level {
    /// Entry number `i` describes its block.
    spec fn entry_ok(self, y: Seq<u16>, w: int, level: int, i: int) -> bool {
        let (bx, by) = (i % self.cols as int, i / self.cols as int);
        &&& self.hash@[i] == block_hash(y, w, level, bx * 8, by * 8)
        &&& self.flat@[i] == is_flat(y, w, side(level), bx * 8, by * 8)
        &&& self.first@[i] == sample(y, w, by * 8, bx * 8)
    }

    /// The first `n` entries are there and describe their blocks.
    spec fn filled(self, y: Seq<u16>, w: int, h: int, level: int, n: int) -> bool {
        &&& self.cols == grid(w, side(level))
        &&& self.rows == grid(h, side(level))
        &&& self.hash@.len() == n
        &&& self.flat@.len() == n
        &&& self.first@.len() == n
        &&& forall|i: int| 0 <= i < n ==> #[trigger] self.entry_ok(y, w, level, i)
    }

    spec fn wf(self, y: Seq<u16>, w: int, h: int, level: int) -> bool {
        self.filled(y, w, h, level, self.cols * self.rows)
    }
}

/// A block on the grid fits the plane, and its number gives its place.
pub proof fn lemma_grid(w: int, h: int, size: int, i: int)
    requires
        8 <= size,
        0 <= w,
        0 <= h,
        0 <= i < grid(w, size) * grid(h, size),
    ensures
        ({
            let (cols, rows) = (grid(w, size), grid(h, size));
            let (bx, by) = (i % cols, i / cols);
            &&& 0 <= bx < cols
            &&& 0 <= by < rows
            &&& fits(w, h, size, bx * 8, by * 8)
        }),
{
    let (cols, rows) = (grid(w, size), grid(h, size));
    assert(0 < cols) by (nonlinear_arith)
        requires
            0 <= i < cols * rows,
            0 <= cols,
    ;
    assert(0 <= i / cols < rows) by (nonlinear_arith)
        requires
            0 <= i < cols * rows,
            0 < cols,
    ;
}

/// The blocks of the smallest size.
fn build_base(y: &[u16], src_w: usize, src_h: usize) -> (r: Level)
    requires
        y@.len() >= src_w * src_h,
    ensures
        r.wf(y@, src_w as int, src_h as int, 0),
{
    let len: usize = y.len();
    let cols: usize = grid_of(src_w, 8);
    let rows: usize = grid_of(src_h, 8);
    proof {
        lemma_count(src_w as int, src_h as int, cols as int, rows as int);
    }
    let count: usize = cols * rows;
    let mut t: Level = Level { cols, rows, hash: Vec::new(), flat: Vec::new(), first: Vec::new() };
    for i in 0..count
        invariant
            y@.len() >= src_w * src_h,
            t.cols == cols,
            cols == grid(src_w as int, 8),
            rows == grid(src_h as int, 8),
            count == cols * rows,
            t.filled(y@, src_w as int, src_h as int, 0, i as int),
    {
        proof {
            lemma_grid(src_w as int, src_h as int, 8, i as int);
        }
        let (bx, by): (usize, usize) = (i % cols, i / cols);
        let ghost before = t;
        let (hash, flat, first): (u64, bool, u16) = hash_8x8(
            y,
            src_w,
            bx * 8,
            by * 8,
            Ghost(src_h as int),
        );
        t.hash.push(hash);
        t.flat.push(flat);
        t.first.push(first);
        proof {
            assert forall|k: int| 0 <= k < i + 1 implies #[trigger] t.entry_ok(
                y@,
                src_w as int,
                0,
                k,
            ) by {
                if k < i {
                    assert(before.entry_ok(y@, src_w as int, 0, k));
                }
            }
        }
    }
    t
}

proof fn lemma_count(w: int, h: int, cols: int, rows: int)
    requires
        0 <= cols <= w,
        0 <= rows <= h,
    ensures
        0 <= cols * rows <= w * h,
{
    assert(0 <= cols * rows <= w * h) by (nonlinear_arith)
        requires
            0 <= cols <= w,
            0 <= rows <= h,
    ;
}

/// A block is flat where its quarters are, with one value.
proof fn lemma_flat_quarters(y: Seq<u16>, w: int, level: int, x: int, y0: int)
    requires
        1 <= level <= 2,
    ensures
        ({
            let s = side(level - 1);
            is_flat(y, w, side(level), x, y0) == {
                &&& is_flat(y, w, s, x, y0)
                &&& is_flat(y, w, s, x + s, y0)
                &&& is_flat(y, w, s, x, y0 + s)
                &&& is_flat(y, w, s, x + s, y0 + s)
                &&& sample(y, w, y0, x + s) == sample(y, w, y0, x)
                &&& sample(y, w, y0 + s, x) == sample(y, w, y0, x)
                &&& sample(y, w, y0 + s, x + s) == sample(y, w, y0, x)
            }
        }),
{
}

/// The blocks of a level from those of half their size.
fn build_next(
    child: &Level,
    level: usize,
    src_w: usize,
    src_h: usize,
    Ghost(y): Ghost<Seq<u16>>,
    Ghost(len): Ghost<int>,
) -> (r: Level)
    requires
        1 <= level <= 2,
        src_w * src_h <= len <= usize::MAX,
        child.wf(y, src_w as int, src_h as int, level - 1),
    ensures
        r.wf(y, src_w as int, src_h as int, level as int),
{
    let size: usize = SIZES[level];
    let step: usize = size / 16;
    let cols: usize = grid_of(src_w, size);
    let rows: usize = grid_of(src_h, size);
    proof {
        lemma_count(src_w as int, src_h as int, cols as int, rows as int);
    }
    let count: usize = cols * rows;
    let mut t: Level = Level { cols, rows, hash: Vec::new(), flat: Vec::new(), first: Vec::new() };
    for i in 0..count
        invariant
            1 <= level <= 2,
            size == side(level as int),
            step == size / 16,
            child.wf(y, src_w as int, src_h as int, level - 1),
            t.cols == cols,
            cols == grid(src_w as int, size as int),
            rows == grid(src_h as int, size as int),
            count == cols * rows,
            t.filled(y, src_w as int, src_h as int, level as int, i as int),
    {
        let ghost s = side(level - 1);
        proof {
            lemma_grid(src_w as int, src_h as int, size as int, i as int);
        }
        let (bx, by): (usize, usize) = (i % cols, i / cols);
        let q0: usize = child_at(
            child,
            bx,
            by,
            Ghost(y),
            Ghost(src_w as int),
            Ghost(src_h as int),
            Ghost(level - 1),
        );
        let q1: usize = child_at(
            child,
            bx + step,
            by,
            Ghost(y),
            Ghost(src_w as int),
            Ghost(src_h as int),
            Ghost(level - 1),
        );
        let q2: usize = child_at(
            child,
            bx,
            by + step,
            Ghost(y),
            Ghost(src_w as int),
            Ghost(src_h as int),
            Ghost(level - 1),
        );
        let q3: usize = child_at(
            child,
            bx + step,
            by + step,
            Ghost(y),
            Ghost(src_w as int),
            Ghost(src_h as int),
            Ghost(level - 1),
        );
        let ghost before = t;
        proof {
            lemma_flat_quarters(y, src_w as int, level as int, bx * 8, by * 8);
            assert(step * 8 == s);
        }
        let first: u16 = child.first[q0];
        let flat: bool = child.flat[q0] && child.flat[q1] && child.flat[q2] && child.flat[q3]
            && child.first[q1] == first && child.first[q2] == first && child.first[q3] == first;
        let hash: u64 = combine(
            child.hash[q0],
            child.hash[q1],
            child.hash[q2],
            child.hash[q3],
        );
        t.hash.push(hash);
        t.flat.push(flat);
        t.first.push(first);
        proof {
            assert forall|k: int| 0 <= k < i + 1 implies #[trigger] t.entry_ok(
                y,
                src_w as int,
                level as int,
                k,
            ) by {
                if k < i {
                    assert(before.entry_ok(y, src_w as int, level as int, k));
                }
            }
        }
    }
    t
}

/// Number of the block at `(bx, by)` of the grid.
fn child_at(
    child: &Level,
    bx: usize,
    by: usize,
    Ghost(y): Ghost<Seq<u16>>,
    Ghost(w): Ghost<int>,
    Ghost(h): Ghost<int>,
    Ghost(level): Ghost<int>,
) -> (i: usize)
    requires
        child.wf(y, w, h, level),
        bx < child.cols,
        by < child.rows,
    ensures
        i < child.cols * child.rows,
        i < child.hash@.len(),
        i == by * child.cols + bx,
        child.hash@[i as int] == block_hash(y, w, level, bx * 8, by * 8),
        child.flat@[i as int] == is_flat(y, w, side(level), bx * 8, by * 8),
        child.first@[i as int] == sample(y, w, by * 8, bx * 8),
{
    let len: usize = child.hash.len();
    proof {
        refs::lemma_inside(by as int, bx as int, child.cols as int, child.rows as int);
        assert(child.rows * child.cols == child.cols * child.rows) by (nonlinear_arith);
        crate::transform::lemma_at(by as int, bx as int, child.cols as int);
        assert(child.entry_ok(y, w, level, by * child.cols + bx));
    }
    by * child.cols + bx
}

/// The block number `i` of a level is indexed under `hash`.
pub open spec fn indexed(y: Seq<u16>, w: int, level: int, hash: u64, i: int) -> bool {
    let (bx, by) = (i % grid(w, side(level)), i / grid(w, side(level)));
    !is_flat(y, w, side(level), bx * 8, by * 8) && block_hash(y, w, level, bx * 8, by * 8) == hash
}

/// The positions among the first `n` blocks of a level that are indexed under
/// `hash`, in raster order.
pub open spec fn listed(y: Seq<u16>, w: int, level: int, hash: u64, n: int) -> Seq<(u32, u32)>
    decreases n,
{
    if n <= 0 {
        Seq::empty()
    } else {
        let rest = listed(y, w, level, hash, n - 1);
        let (bx, by) = ((n - 1) % grid(w, side(level)), (n - 1) / grid(w, side(level)));
        if indexed(y, w, level, hash, n - 1) {
            rest.push(((bx * 8) as u32, (by * 8) as u32))
        } else {
            rest
        }
    }
}

/// The lists of all hashes after the first `n` blocks of a level.
spec fn buckets_ok(
    m: Map<u64, Vec<(u32, u32)>>,
    y: Seq<u16>,
    w: int,
    level: int,
    n: int,
) -> bool {
    forall|hash: u64|
        if #[trigger] m.contains_key(hash) {
            m[hash]@ == listed(y, w, level, hash, n)
        } else {
            listed(y, w, level, hash, n).len() == 0
        }
}

/// Lists the blocks of a level by their hash.
fn build_buckets(
    t: &Level,
    Ghost(y): Ghost<Seq<u16>>,
    Ghost(w): Ghost<int>,
    Ghost(h): Ghost<int>,
    Ghost(level): Ghost<int>,
) -> (m: HashMap<u64, Vec<(u32, u32)>>)
    requires
        0 <= level <= 2,
        0 <= w <= 0x7fff_ffff,
        0 <= h <= 0x7fff_ffff,
        t.wf(y, w, h, level),
    ensures
        buckets_ok(m@, y, w, level, t.cols * t.rows),
{
    broadcast use vstd::std_specs::hash::group_hash_axioms;

    let mut m: HashMap<u64, Vec<(u32, u32)>> = HashMap::new();
    let count: usize = t.hash.len();
    for i in 0..count
        invariant
            0 <= level <= 2,
            0 <= w <= 0x7fff_ffff,
            0 <= h <= 0x7fff_ffff,
            t.wf(y, w, h, level),
            count == t.cols * t.rows,
            buckets_ok(m@, y, w, level, i as int),
    {
        proof {
            lemma_grid(w, h, side(level), i as int);
            assert(t.entry_ok(y, w, level, i as int));
        }
        if !t.flat[i] {
            let (bx, by): (usize, usize) = (i % t.cols, i / t.cols);
            let key: u64 = t.hash[i];
            let ghost before = m@;
            let mut list: Vec<(u32, u32)> = match m.remove(&key) {
                Some(v) => v,
                None => Vec::new(),
            };
            assert(list@ =~= listed(y, w, level, key, i as int)) by {
                assert(before.contains_key(key) || !before.contains_key(key));
            }
            list.push((bx as u32 * 8, by as u32 * 8));
            m.insert(key, list);
            proof {
                assert forall|hash: u64|
                    if #[trigger] m@.contains_key(hash) {
                        m@[hash]@ == listed(y, w, level, hash, i + 1)
                    } else {
                        listed(y, w, level, hash, i + 1).len() == 0
                    } by {
                    assert(before.contains_key(hash) || !before.contains_key(hash));
                }
            }
        } else {
            proof {
                assert forall|hash: u64|
                    if #[trigger] m@.contains_key(hash) {
                        m@[hash]@ == listed(y, w, level, hash, i + 1)
                    } else {
                        listed(y, w, level, hash, i + 1).len() == 0
                    } by {
                }
            }
        }
    }
    m
}

/// The hashes of all blocks of a picture on the grid of every eighth sample, and
/// the positions that each hash occurs at. Flat blocks are left out.
pub struct HashTable {
    levels: Vec<Level>,
    buckets: Vec<HashMap<u64, Vec<(u32, u32)>>>,
    none: Vec<(u32, u32)>,
    w: usize,
    h: usize,
    source: Ghost<Seq<u16>>,
}

/// Number of a size among the indexed ones.
pub open spec fn level_of(size: int) -> Option<int> {
    if size == 8 {
        Some(0)
    } else if size == 16 {
        Some(1)
    } else if size == 32 {
        Some(2)
    } else {
        None
    }
}

fn size_index(size: usize) -> (r: Option<usize>)
    ensures
        match r {
            Some(l) => level_of(size as int) == Some(l as int) && l < 3,
            None => level_of(size as int) is None,
        },
{
    if size == 8 {
        Some(0)
    } else if size == 16 {
        Some(1)
    } else if size == 32 {
        Some(2)
    } else {
        None
    }
}

/// Hash of the block of side `size` at `(px, py)`, where that is an indexed size and
/// place and the block is not flat.
pub open spec fn place_hash(y: Seq<u16>, w: int, h: int, size: int, px: int, py: int) -> Option<u64> {
    match level_of(size) {
        Some(l) => if px % 8 == 0 && py % 8 == 0 && px + size <= w && py + size <= h && !is_flat(
            y,
            w,
            size,
            px,
            py,
        ) {
            Some(block_hash(y, w, l, px, py))
        } else {
            None
        },
        None => None,
    }
}

/// The places that a hash is listed under.
pub open spec fn matching(y: Seq<u16>, w: int, h: int, size: int, hash: u64) -> Seq<(u32, u32)> {
    match level_of(size) {
        Some(l) => listed(y, w, l, hash, grid(w, size) * grid(h, size)),
        None => Seq::empty(),
    }
}

impl HashTable {
    /// The picture that the table was made of.
    pub closed spec fn source(self) -> Seq<u16> {
        self.source@
    }

    pub closed spec fn width(self) -> int {
        self.w as int
    }

    pub closed spec fn height(self) -> int {
        self.h as int
    }

    pub closed spec fn wf(self) -> bool {
        &&& self.levels@.len() == 3
        &&& self.buckets@.len() == 3
        &&& self.none@.len() == 0
        &&& forall|l: int|
            0 <= l < 3 ==> {
                &&& (#[trigger] self.levels@[l]).wf(self.source@, self.w as int, self.h as int, l)
                &&& buckets_ok(
                    self.buckets@[l]@,
                    self.source@,
                    self.w as int,
                    l,
                    self.levels@[l].cols * self.levels@[l].rows,
                )
            }
    }

    /// Indexes a plane of `src_w` by `src_h` samples.
    pub fn build(y: &[u16], src_w: usize, src_h: usize) -> (r: Self)
        requires
            y@.len() >= src_w * src_h,
            src_w <= 0x7fff_ffff,
            src_h <= 0x7fff_ffff,
        ensures
            r.wf(),
            r.source() == y@,
            r.width() == src_w,
            r.height() == src_h,
    {
        let ghost (w, h) = (src_w as int, src_h as int);
        let len: usize = y.len();
        let l0: Level = build_base(y, src_w, src_h);
        let l1: Level = build_next(&l0, 1, src_w, src_h, Ghost(y@), Ghost(len as int));
        let l2: Level = build_next(&l1, 2, src_w, src_h, Ghost(y@), Ghost(len as int));
        let b0: HashMap<u64, Vec<(u32, u32)>> = build_buckets(&l0, Ghost(y@), Ghost(w), Ghost(h), Ghost(0));
        let b1: HashMap<u64, Vec<(u32, u32)>> = build_buckets(&l1, Ghost(y@), Ghost(w), Ghost(h), Ghost(1));
        let b2: HashMap<u64, Vec<(u32, u32)>> = build_buckets(&l2, Ghost(y@), Ghost(w), Ghost(h), Ghost(2));
        let mut levels: Vec<Level> = Vec::new();
        levels.push(l0);
        levels.push(l1);
        levels.push(l2);
        let mut buckets: Vec<HashMap<u64, Vec<(u32, u32)>>> = Vec::new();
        buckets.push(b0);
        buckets.push(b1);
        buckets.push(b2);
        HashTable { levels, buckets, none: Vec::new(), w: src_w, h: src_h, source: Ghost(y@) }
    }

    /// Hash of the block of side `size` at `(x, y)`, where that is an indexed size
    /// and place and the block is not flat.
    pub fn hash_at(&self, size: usize, x: usize, y: usize) -> (r: Option<u64>)
        requires
            self.wf(),
        ensures
            r == place_hash(
                self.source(),
                self.width(),
                self.height(),
                size as int,
                x as int,
                y as int,
            ),
    {
        let level: usize = match size_index(size) {
            Some(l) => l,
            None => {
                return None;
            },
        };
        let table: &Level = &self.levels[level];
        let (bx, by): (usize, usize) = (x / 8, y / 8);
        if x % 8 != 0 || y % 8 != 0 || bx >= table.cols || by >= table.rows {
            return None;
        }
        let i: usize = child_at(
            table,
            bx,
            by,
            Ghost(self.source@),
            Ghost(self.w as int),
            Ghost(self.h as int),
            Ghost(level as int),
        );
        if table.flat[i] {
            return None;
        }
        Some(table.hash[i])
    }

    /// The places of the blocks of side `size` that hash to `hash` and are not
    /// flat, in raster order.
    pub fn matches(&self, size: usize, hash: u64) -> (r: &[(u32, u32)])
        requires
            self.wf(),
        ensures
            r@ == matching(self.source(), self.width(), self.height(), size as int, hash),
    {
        broadcast use vstd::std_specs::hash::group_hash_axioms;

        match size_index(size) {
            Some(l) => {
                assert(self.levels@[l as int].wf(self.source@, self.w as int, self.h as int, l as int));
                let m: &HashMap<u64, Vec<(u32, u32)>> = &self.buckets[l];
                match m.get(&hash) {
                    Some(v) => v.as_slice(),
                    None => {
                        assert(!m@.contains_key(hash));
                        self.none.as_slice()
                    },
                }
            },
            None => self.none.as_slice(),
        }
    }
}

/// A block that is not flat is among the places of its own hash.
pub proof fn law_indexed_block_is_listed(y: Seq<u16>, w: int, level: int, i: int, n: int)
    requires
        0 <= i < n,
        ({
            let (bx, by) = (i % grid(w, side(level)), i / grid(w, side(level)));
            !is_flat(y, w, side(level), bx * 8, by * 8)
        }),
    ensures
        ({
            let (bx, by) = (i % grid(w, side(level)), i / grid(w, side(level)));
            listed(y, w, level, block_hash(y, w, level, bx * 8, by * 8), n).contains(
                ((bx * 8) as u32, (by * 8) as u32),
            )
        }),
    decreases n,
{
    let (bx, by) = (i % grid(w, side(level)), i / grid(w, side(level)));
    let hash = block_hash(y, w, level, bx * 8, by * 8);
    let p = ((bx * 8) as u32, (by * 8) as u32);
    let all = listed(y, w, level, hash, n);
    let rest = listed(y, w, level, hash, n - 1);
    if i == n - 1 {
        assert(all[all.len() - 1] == p);
    } else {
        law_indexed_block_is_listed(y, w, level, i, n - 1);
        let k = choose|k: int| 0 <= k < rest.len() && rest[k] == p;
        assert(all[k] == p);
    }
}

} // verus!
