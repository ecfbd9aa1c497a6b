//! Maps of a picture: how deep coding units are split, which modes and parameters
//! they have, and where the edges of blocks are.
use crate::refs;
use crate::transform;
use vstd::prelude::*;

verus! {

/// Entry `x` of a map after a rectangle of it was filled.
pub open spec fn filled_at<T>(
    map: Seq<T>,
    stride: int,
    r0: int,
    c0: int,
    rows: int,
    cols: int,
    v: T,
    x: int,
) -> T {
    if r0 <= x / stride < r0 + rows && c0 <= x % stride < c0 + cols {
        v
    } else {
        map[x]
    }
}

/// A map after a rectangle of it was filled.
pub open spec fn filled<T>(
    map: Seq<T>,
    stride: int,
    r0: int,
    c0: int,
    rows: int,
    cols: int,
    v: T,
) -> Seq<T> {
    Seq::new(map.len(), |x: int| filled_at(map, stride, r0, c0, rows, cols, v, x))
}

/// A rectangle lies inside a map.
pub open spec fn rect_fits(len: int, stride: int, r0: int, c0: int, rows: int, cols: int) -> bool {
    &&& 0 <= r0
    &&& 0 <= c0
    &&& 0 < stride
    &&& c0 + cols <= stride
    &&& (r0 + rows) * stride <= len
}

/// Fills a rectangle of a map.
pub fn fill_rect<T: Copy>(
    map: &mut Vec<T>,
    stride: usize,
    r0: usize,
    c0: usize,
    rows: usize,
    cols: usize,
    v: T,
)
    requires
        rect_fits(
            old(map)@.len() as int,
            stride as int,
            r0 as int,
            c0 as int,
            rows as int,
            cols as int,
        ),
    ensures
        final(map)@ == filled(
            old(map)@,
            stride as int,
            r0 as int,
            c0 as int,
            rows as int,
            cols as int,
            v,
        ),
{
    let len: usize = map.len();
    for r in 0..rows
        invariant
            map@.len() == old(map)@.len(),
            len == map@.len(),
            rect_fits(
                map@.len() as int,
                stride as int,
                r0 as int,
                c0 as int,
                rows as int,
                cols as int,
            ),
            forall|x: int|
                0 <= x < map@.len() ==> #[trigger] map@[x] == filled_at(
                    old(map)@,
                    stride as int,
                    r0 as int,
                    c0 as int,
                    r as int,
                    cols as int,
                    v,
                    x,
                ),
    {
        let ghost now = map@;
        proof {
            assert(r0 + rows <= (r0 + rows) * stride) by (nonlinear_arith)
                requires
                    0 <= r0 + rows,
                    1 <= stride,
            ;
        }
        for c in 0..cols
            invariant
                map@.len() == old(map)@.len(),
                now.len() == map@.len(),
                len == map@.len(),
                r < rows,
                r0 + rows <= len,
                rect_fits(
                    map@.len() as int,
                    stride as int,
                    r0 as int,
                    c0 as int,
                    rows as int,
                    cols as int,
                ),
                forall|x: int|
                    0 <= x < map@.len() ==> #[trigger] map@[x] == if x / stride as int == r0 + r
                        && c0 <= x % stride as int && x % (stride as int) < c0 + c {
                        v
                    } else {
                        now[x]
                    },
        {
            proof {
                refs::lemma_inside(r0 + r, c0 + c, stride as int, r0 + rows);
                transform::lemma_at(r0 + r, c0 + c, stride as int);
            }
            let ghost before = map@;
            let at: usize = (r0 + r) * stride + (c0 + c);
            map.set(at, v);
            proof {
                assert forall|x: int| 0 <= x < map@.len() implies #[trigger] map@[x] == (if x
                    / stride as int == r0 + r && c0 <= x % stride as int && x % (stride as int) < c0
                    + c + 1 {
                    v
                } else {
                    now[x]
                }) by {
                    if x != at {
                        assert(map@[x] == before[x]);
                        vstd::arithmetic::div_mod::lemma_fundamental_div_mod(x, stride as int);
                        assert(stride * (x / stride as int) == (x / stride as int) * stride)
                            by (nonlinear_arith);
                    }
                }
            }
        }
        proof {
            assert forall|x: int| 0 <= x < map@.len() implies #[trigger] map@[x] == filled_at(
                old(map)@,
                stride as int,
                r0 as int,
                c0 as int,
                r + 1,
                cols as int,
                v,
                x,
            ) by {
                assert(now[x] == now[x]);
            }
        }
    }
    assert(map@ =~= filled(
        old(map)@,
        stride as int,
        r0 as int,
        c0 as int,
        rows as int,
        cols as int,
        v,
    ));
}

/// The neighbour at `(r, c)` of an 8x8 map is split deeper than `depth`.
pub open spec fn deeper(depths: Seq<u8>, stride: int, r: int, c: int, depth: int) -> bool {
    r >= 0 && c >= 0 && depths[r * stride + c] > depth
}

/// Context of the flag that splits a coding unit: how many of the neighbours to
/// the left and above are split deeper.
pub open spec fn split_context(depths: Seq<u8>, row: int, col: int, depth: int, stride: int) -> int {
    let (br, bc) = (row / 8, col / 8);
    (if deeper(depths, stride, br, bc - 1, depth) {
        1int
    } else {
        0
    }) + (if deeper(depths, stride, br - 1, bc, depth) {
        1int
    } else {
        0
    })
}

/// The context of a split flag: how many of its neighbours lie deeper.
pub fn split_cu_context(depths: &[u8], row: usize, col: usize, depth: u8, stride: usize) -> (r:
    usize)
    requires
        col / 8 < stride,
        (row as int / 8 + 1) * stride <= depths@.len(),
    ensures
        r == split_context(depths@, row as int, col as int, depth as int, stride as int),
        r <= 2,
{
    let len: usize = depths.len();
    let (br, bc): (usize, usize) = (row / 8, col / 8);
    proof {
        refs::lemma_inside(br as int, bc as int, stride as int, br + 1);
        if br > 0 {
            refs::lemma_inside(br - 1, bc as int, stride as int, br + 1);
        }
    }
    let left: usize = if bc > 0 && depths[br * stride + bc - 1] > depth {
        1
    } else {
        0
    };
    let above: usize = if br > 0 && depths[(br - 1) * stride + bc] > depth {
        1
    } else {
        0
    };
    left + above
}

/// Records the depth of a coding unit.
pub fn fill_cu_depth(
    depths: &mut Vec<u8>,
    row: usize,
    col: usize,
    size: usize,
    depth: u8,
    stride: usize,
)
    requires
        rect_fits(
            old(depths)@.len() as int,
            stride as int,
            row as int / 8,
            col as int / 8,
            size as int / 8,
            size as int / 8,
        ),
    ensures
        final(depths)@ == filled(
            old(depths)@,
            stride as int,
            row as int / 8,
            col as int / 8,
            size as int / 8,
            size as int / 8,
            depth,
        ),
{
    fill_rect(depths, stride, row / 8, col / 8, size / 8, size / 8, depth);
}

/// The parameters after those of a coding unit were recorded; a picture of one
/// parameter has no map.
pub open spec fn qp_filled(map: Seq<u8>, stride: int, row: int, col: int, size: int, qp: u8) -> Seq<
    u8,
> {
    if map.len() == 0 {
        map
    } else {
        filled(map, stride, row / 4, col / 4, size / 4, size / 4, qp)
    }
}

/// Records the quantisation parameter of a coding unit.
pub fn fill_cu_qp(map: &mut Vec<u8>, stride: usize, row: usize, col: usize, size: usize, qp: u8)
    requires
        old(map)@.len() == 0 || rect_fits(
            old(map)@.len() as int,
            stride as int,
            row as int / 4,
            col as int / 4,
            size as int / 4,
            size as int / 4,
        ),
    ensures
        final(map)@ == qp_filled(
            old(map)@,
            stride as int,
            row as int,
            col as int,
            size as int,
            qp,
        ),
{
    if map.len() == 0 {
        return ;
    }
    fill_rect(map, stride, row / 4, col / 4, size / 4, size / 4, qp);
}

/// Context of the flag that splits a transform block of a size.
pub open spec fn split_transform_ctx(size: int) -> int {
    if size == 32 {
        0
    } else if size == 16 {
        1
    } else {
        2
    }
}

/// The context of a transform split flag.
pub fn split_transform_context(size: usize) -> (r: usize)
    requires
        size == 8 || size == 16 || size == 32,
    ensures
        r == split_transform_ctx(size as int),
        r <= 2,
{
    if size == 32 {
        0
    } else if size == 16 {
        1
    } else {
        2
    }
}

/// How a coding unit is cut into transform blocks.
#[derive(Clone, Copy, Debug, PartialEq, Eq, Structural)]
pub enum TuLayout {
    Unsplit,
    Split,
    Recursive,
}

/// The left edge of the square of side `side` at `(r, c)` covers entry `(gy, gx)`
/// of a 4x4 map.
pub open spec fn box_v(r: int, c: int, side: int, gy: int, gx: int) -> bool {
    c != 0 && c % 8 == 0 && gx == c / 4 && r / 4 <= gy < (r + side) / 4
}

/// The upper edge of the square covers entry `(gy, gx)`.
pub open spec fn box_h(r: int, c: int, side: int, gy: int, gx: int) -> bool {
    r != 0 && r % 8 == 0 && gy == r / 4 && c / 4 <= gx < (c + side) / 4
}

/// An edge of the square of one orientation.
pub open spec fn boxed(vertical: bool, r: int, c: int, side: int, gy: int, gx: int) -> bool {
    if vertical {
        box_v(r, c, side, gy, gx)
    } else {
        box_h(r, c, side, gy, gx)
    }
}

/// An edge of a square or of one of the squares that it is cut into.
pub open spec fn tree_marks(
    vertical: bool,
    split: Seq<bool>,
    node: int,
    row: int,
    col: int,
    size: int,
    gy: int,
    gx: int,
) -> bool
    decreases size,
{
    let child = size / 2;
    ||| boxed(vertical, row, col, size, gy, gx)
    ||| size > 4 && split[node] && {
        ||| tree_marks(vertical, split, node * 4 + 1, row, col, child, gy, gx)
        ||| tree_marks(vertical, split, node * 4 + 2, row, col + child, child, gy, gx)
        ||| tree_marks(vertical, split, node * 4 + 3, row + child, col, child, gy, gx)
        ||| tree_marks(vertical, split, node * 4 + 4, row + child, col + child, child, gy, gx)
    }
}

/// An edge of a coding unit or of one of its transform blocks.
pub open spec fn unit_marks(
    vertical: bool,
    layout: TuLayout,
    split: Seq<bool>,
    row: int,
    col: int,
    size: int,
    gy: int,
    gx: int,
) -> bool {
    let child = size / 2;
    match layout {
        TuLayout::Unsplit => boxed(vertical, row, col, size, gy, gx),
        TuLayout::Split => {
            ||| boxed(vertical, row, col, size, gy, gx)
            ||| boxed(vertical, row, col, child, gy, gx)
            ||| boxed(vertical, row, col + child, child, gy, gx)
            ||| boxed(vertical, row + child, col, child, gy, gx)
            ||| boxed(vertical, row + child, col + child, child, gy, gx)
        },
        TuLayout::Recursive => tree_marks(vertical, split, 0, row, col, size, gy, gx),
    }
}

/// Every marked edge lies on the grid of eight samples, and none on the border of
/// the picture.
pub proof fn law_edges_are_on_the_grid(
    vertical: bool,
    layout: TuLayout,
    split: Seq<bool>,
    row: int,
    col: int,
    size: int,
    gy: int,
    gx: int,
)
    requires
        0 <= row,
        0 <= col,
        0 <= size,
        unit_marks(vertical, layout, split, row, col, size, gy, gx),
    ensures
        vertical ==> gx > 0 && gx % 2 == 0,
        !vertical ==> gy > 0 && gy % 2 == 0,
{
    if layout is Recursive {
        lemma_tree_grid(vertical, split, 0, row, col, size, gy, gx);
    }
}

proof fn lemma_tree_grid(
    vertical: bool,
    split: Seq<bool>,
    node: int,
    row: int,
    col: int,
    size: int,
    gy: int,
    gx: int,
)
    requires
        0 <= row,
        0 <= col,
        0 <= size,
        tree_marks(vertical, split, node, row, col, size, gy, gx),
    ensures
        vertical ==> gx > 0 && gx % 2 == 0,
        !vertical ==> gy > 0 && gy % 2 == 0,
    decreases size,
{
    let child = size / 2;
    if !boxed(vertical, row, col, size, gy, gx) {
        if tree_marks(vertical, split, node * 4 + 1, row, col, child, gy, gx) {
            lemma_tree_grid(vertical, split, node * 4 + 1, row, col, child, gy, gx);
        } else if tree_marks(vertical, split, node * 4 + 2, row, col + child, child, gy, gx) {
            lemma_tree_grid(vertical, split, node * 4 + 2, row, col + child, child, gy, gx);
        } else if tree_marks(vertical, split, node * 4 + 3, row + child, col, child, gy, gx) {
            lemma_tree_grid(vertical, split, node * 4 + 3, row + child, col, child, gy, gx);
        } else {
            lemma_tree_grid(
                vertical,
                split,
                node * 4 + 4,
                row + child,
                col + child,
                child,
                gy,
                gx,
            );
        }
    }
}

/// A map of flags after some were set.
pub open spec fn flags_set(
    before: Seq<bool>,
    after: Seq<bool>,
    stride: int,
    f: spec_fn(int, int) -> bool,
) -> bool {
    &&& after.len() == before.len()
    &&& forall|x: int|
        0 <= x < before.len() ==> #[trigger] after[x] == (before[x] || f(x / stride, x % stride))
}

/// Setting some flags and others is setting both.
proof fn lemma_flags_add(
    a: Seq<bool>,
    b: Seq<bool>,
    c: Seq<bool>,
    stride: int,
    f: spec_fn(int, int) -> bool,
    g: spec_fn(int, int) -> bool,
    h: spec_fn(int, int) -> bool,
)
    requires
        flags_set(a, b, stride, f),
        flags_set(b, c, stride, g),
        forall|y: int, x: int| #[trigger] h(y, x) == (f(y, x) || g(y, x)),
    ensures
        flags_set(a, c, stride, h),
{
    assert forall|x: int| 0 <= x < a.len() implies #[trigger] c[x] == (a[x] || h(
        x / stride,
        x % stride,
    )) by {
        assert(b[x] == (a[x] || f(x / stride, x % stride)));
    }
}

/// The square of side `side` at `(r, c)` lies inside a 4x4 map.
pub open spec fn square_fits(len: int, stride: int, r: int, c: int, side: int) -> bool {
    &&& 0 <= r
    &&& 0 <= c
    &&& 0 <= side
    &&& 0 < stride
    &&& (c + side) / 4 <= stride
    &&& ((r + side) / 4) * stride <= len
    &&& r + side <= 0x7fff_ffff
    &&& c + side <= 0x7fff_ffff
}

/// Marks the left edge of a square.
fn mark_left(edge: &mut Vec<bool>, stride: usize, r: usize, c: usize, side: usize)
    requires
        square_fits(old(edge)@.len() as int, stride as int, r as int, c as int, side as int),
        side >= 4,
    ensures
        flags_set(
            old(edge)@,
            final(edge)@,
            stride as int,
            |y: int, x: int| boxed(true, r as int, c as int, side as int, y, x),
        ),
{
    if c != 0 && c % 8 == 0 {
        fill_rect(edge, stride, r / 4, c / 4, (r + side) / 4 - r / 4, 1, true);
    }
}

/// Marks the upper edge of a square.
fn mark_top(edge: &mut Vec<bool>, stride: usize, r: usize, c: usize, side: usize)
    requires
        square_fits(old(edge)@.len() as int, stride as int, r as int, c as int, side as int),
        side >= 4,
    ensures
        flags_set(
            old(edge)@,
            final(edge)@,
            stride as int,
            |y: int, x: int| boxed(false, r as int, c as int, side as int, y, x),
        ),
{
    if r != 0 && r % 8 == 0 {
        proof {
            let (a, b) = (r as int / 4 + 1, (r + side) / 4);
            assert(a * stride <= b * stride) by (nonlinear_arith)
                requires
                    a <= b,
                    0 <= stride,
            ;
        }
        fill_rect(edge, stride, r / 4, c / 4, 1, (c + side) / 4 - c / 4, true);
    }
}

/// Node numbers below this one have children in a tree of eighty-five nodes.
pub open spec fn node_limit(size: int) -> int {
    if size == 32 {
        1
    } else if size == 16 {
        5
    } else if size == 8 {
        21
    } else {
        85
    }
}

/// A quarter of a square fits where the square does.
proof fn lemma_quarter_fits(len: int, stride: int, r: int, c: int, side: int, dr: int, dc: int)
    requires
        square_fits(len, stride, r, c, side),
        dr == 0 || dr == side / 2,
        dc == 0 || dc == side / 2,
    ensures
        square_fits(len, stride, r + dr, c + dc, side / 2),
{
    let (a, b) = ((r + dr + side / 2) / 4, (r + side) / 4);
    assert(a * stride <= b * stride) by (nonlinear_arith)
        requires
            a <= b,
            0 <= stride,
    ;
}

/// Marks the edges of one orientation of a square and of the squares that it is
/// cut into.
fn mark_tree(
    edge: &mut Vec<bool>,
    vertical: bool,
    stride: usize,
    split: &[bool; 85],
    node: usize,
    row: usize,
    col: usize,
    size: usize,
)
    requires
        square_fits(old(edge)@.len() as int, stride as int, row as int, col as int, size as int),
        size == 4 || size == 8 || size == 16 || size == 32,
        node < node_limit(size as int),
    ensures
        flags_set(
            old(edge)@,
            final(edge)@,
            stride as int,
            |y: int, x: int|
                tree_marks(
                    vertical,
                    split@,
                    node as int,
                    row as int,
                    col as int,
                    size as int,
                    y,
                    x,
                ),
        ),
    decreases size,
{
    let ghost e0 = edge@;
    mark_square(edge, vertical, stride, row, col, size);
    let ghost e1 = edge@;
    if size > 4 && split[node] {
        let child: usize = size / 2;
        let ghost (gr, gc, gs, gn, gk) = (
            row as int,
            col as int,
            child as int,
            node as int,
            size as int,
        );
        proof {
            lemma_quarter_fits(edge@.len() as int, stride as int, gr, gc, gk, 0, 0);
            lemma_quarter_fits(edge@.len() as int, stride as int, gr, gc, gk, 0, gs);
            lemma_quarter_fits(edge@.len() as int, stride as int, gr, gc, gk, gs, 0);
            lemma_quarter_fits(edge@.len() as int, stride as int, gr, gc, gk, gs, gs);
        }
        let ghost f0 = |y: int, x: int| boxed(vertical, gr, gc, gk, y, x);
        let ghost f1 = |y: int, x: int|
            tree_marks(vertical, split@, gn * 4 + 1, gr, gc, gs, y, x);
        let ghost f2 = |y: int, x: int|
            tree_marks(vertical, split@, gn * 4 + 2, gr, gc + gs, gs, y, x);
        let ghost f3 = |y: int, x: int|
            tree_marks(vertical, split@, gn * 4 + 3, gr + gs, gc, gs, y, x);
        let ghost f4 = |y: int, x: int|
            tree_marks(vertical, split@, gn * 4 + 4, gr + gs, gc + gs, gs, y, x);
        let ghost h1 = |y: int, x: int| f0(y, x) || f1(y, x);
        let ghost h2 = |y: int, x: int| h1(y, x) || f2(y, x);
        let ghost h3 = |y: int, x: int| h2(y, x) || f3(y, x);
        let ghost h4 = |y: int, x: int|
            tree_marks(vertical, split@, gn, gr, gc, gk, y, x);
        mark_tree(edge, vertical, stride, split, node * 4 + 1, row, col, child);
        let ghost e2 = edge@;
        mark_tree(edge, vertical, stride, split, node * 4 + 2, row, col + child, child);
        let ghost e3 = edge@;
        mark_tree(edge, vertical, stride, split, node * 4 + 3, row + child, col, child);
        let ghost e4 = edge@;
        mark_tree(edge, vertical, stride, split, node * 4 + 4, row + child, col + child, child);
        proof {
            lemma_flags_add(e0, e1, e2, stride as int, f0, f1, h1);
            lemma_flags_add(e0, e2, e3, stride as int, h1, f2, h2);
            lemma_flags_add(e0, e3, e4, stride as int, h2, f3, h3);
            lemma_flags_add(e0, e4, edge@, stride as int, h3, f4, h4);
        }
    }
}

/// Marks the edge of one orientation of a square.
fn mark_square(
    edge: &mut Vec<bool>,
    vertical: bool,
    stride: usize,
    r: usize,
    c: usize,
    side: usize,
)
    requires
        square_fits(old(edge)@.len() as int, stride as int, r as int, c as int, side as int),
        side >= 4,
    ensures
        flags_set(
            old(edge)@,
            final(edge)@,
            stride as int,
            |y: int, x: int| boxed(vertical, r as int, c as int, side as int, y, x),
        ),
{
    if vertical {
        mark_left(edge, stride, r, c, side);
    } else {
        mark_top(edge, stride, r, c, side);
    }
}

/// Marks the edges of one orientation of a coding unit.
fn mark_unit(
    edge: &mut Vec<bool>,
    vertical: bool,
    stride: usize,
    row: usize,
    col: usize,
    size: usize,
    layout: TuLayout,
    split: &[bool; 85],
)
    requires
        square_fits(old(edge)@.len() as int, stride as int, row as int, col as int, size as int),
        size == 8 || size == 16 || size == 32,
    ensures
        flags_set(
            old(edge)@,
            final(edge)@,
            stride as int,
            |y: int, x: int|
                unit_marks(
                    vertical,
                    layout,
                    split@,
                    row as int,
                    col as int,
                    size as int,
                    y,
                    x,
                ),
        ),
{
    match layout {
        TuLayout::Unsplit => {
            mark_square(edge, vertical, stride, row, col, size);
        },
        TuLayout::Split => {
            let child: usize = size / 2;
            let ghost (gr, gc, gs, gk) = (row as int, col as int, child as int, size as int);
            let ghost e0 = edge@;
            proof {
                lemma_quarter_fits(edge@.len() as int, stride as int, gr, gc, gk, 0, 0);
                lemma_quarter_fits(edge@.len() as int, stride as int, gr, gc, gk, 0, gs);
                lemma_quarter_fits(edge@.len() as int, stride as int, gr, gc, gk, gs, 0);
                lemma_quarter_fits(edge@.len() as int, stride as int, gr, gc, gk, gs, gs);
            }
            let ghost f0 = |y: int, x: int| boxed(vertical, gr, gc, gk, y, x);
            let ghost f1 = |y: int, x: int| boxed(vertical, gr, gc, gs, y, x);
            let ghost f2 = |y: int, x: int| boxed(vertical, gr, gc + gs, gs, y, x);
            let ghost f3 = |y: int, x: int| boxed(vertical, gr + gs, gc, gs, y, x);
            let ghost f4 = |y: int, x: int| boxed(vertical, gr + gs, gc + gs, gs, y, x);
            let ghost h1 = |y: int, x: int| f0(y, x) || f1(y, x);
            let ghost h2 = |y: int, x: int| h1(y, x) || f2(y, x);
            let ghost h3 = |y: int, x: int| h2(y, x) || f3(y, x);
            let ghost h4 = |y: int, x: int|
                unit_marks(vertical, layout, split@, gr, gc, gk, y, x);
            mark_square(edge, vertical, stride, row, col, size);
            let ghost e1 = edge@;
            mark_square(edge, vertical, stride, row, col, child);
            let ghost e2 = edge@;
            mark_square(edge, vertical, stride, row, col + child, child);
            let ghost e3 = edge@;
            mark_square(edge, vertical, stride, row + child, col, child);
            let ghost e4 = edge@;
            mark_square(edge, vertical, stride, row + child, col + child, child);
            proof {
                lemma_flags_add(e0, e1, e2, stride as int, f0, f1, h1);
                lemma_flags_add(e0, e2, e3, stride as int, h1, f2, h2);
                lemma_flags_add(e0, e3, e4, stride as int, h2, f3, h3);
                lemma_flags_add(e0, e4, edge@, stride as int, h3, f4, h4);
            }
        },
        TuLayout::Recursive => {
            mark_tree(edge, vertical, stride, split, 0, row, col, size);
        },
    }
}

/// Marks the edges of a coding unit and of its transform blocks.
pub fn mark_deblock_edges(
    edge_v: &mut Vec<bool>,
    edge_h: &mut Vec<bool>,
    stride: usize,
    row: usize,
    col: usize,
    size: usize,
    layout: TuLayout,
    split: &[bool; 85],
)
    requires
        square_fits(old(edge_v)@.len() as int, stride as int, row as int, col as int, size as int),
        square_fits(old(edge_h)@.len() as int, stride as int, row as int, col as int, size as int),
        size == 8 || size == 16 || size == 32,
    ensures
        flags_set(
            old(edge_v)@,
            final(edge_v)@,
            stride as int,
            |y: int, x: int|
                unit_marks(true, layout, split@, row as int, col as int, size as int, y, x),
        ),
        flags_set(
            old(edge_h)@,
            final(edge_h)@,
            stride as int,
            |y: int, x: int|
                unit_marks(false, layout, split@, row as int, col as int, size as int, y, x),
        ),
{
    mark_unit(edge_v, true, stride, row, col, size, layout, split);
    mark_unit(edge_h, false, stride, row, col, size, layout, split);
}

} // verus!
