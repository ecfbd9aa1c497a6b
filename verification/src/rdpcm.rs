//! Differences along the prediction direction in place of a transform.
use crate::transform;
use vstd::prelude::*;

verus! {

/// The direction along which the residual of a lossless block is differenced.
#[derive(Clone, Copy, Debug, PartialEq, Eq, Structural)]
pub enum ImplicitRdpcm {
    Off,
    Horizontal,
    Vertical,
}

/// The direction that belongs to a prediction mode: only the purely horizontal and
/// the purely vertical mode have one.
pub open spec fn rdpcm_of(mode: int) -> ImplicitRdpcm {
    if mode == 10 {
        ImplicitRdpcm::Horizontal
    } else if mode == 26 {
        ImplicitRdpcm::Vertical
    } else {
        ImplicitRdpcm::Off
    }
}

/// The direction in which a lossless residual is taken as differences.
pub fn implicit_rdpcm_mode(intra_mode: u8) -> (r: ImplicitRdpcm)
    ensures
        r == rdpcm_of(intra_mode as int),
{
    match intra_mode {
        10 => ImplicitRdpcm::Horizontal,
        26 => ImplicitRdpcm::Vertical,
        _ => ImplicitRdpcm::Off,
    }
}

/// Level `x` of a residual block: its difference from the sample before it on the
/// line, or the sample itself at the start of a line.
pub open spec fn forward_at(residual: Seq<i32>, n: int, mode: ImplicitRdpcm, x: int) -> int {
    match mode {
        ImplicitRdpcm::Off => residual[x] as int,
        ImplicitRdpcm::Horizontal => if x == 0 || x % n == 0 {
            residual[x] as int
        } else {
            residual[x] - residual[x - 1]
        },
        ImplicitRdpcm::Vertical => if x < n {
            residual[x] as int
        } else {
            residual[x] - residual[x - n]
        },
    }
}

/// Residual `x` of a block of levels: the sum of the levels on its line up to it.
pub open spec fn inverse_at(levels: Seq<i16>, n: int, mode: ImplicitRdpcm, x: int) -> int
    decreases x,
{
    if x < 0 || n <= 0 {
        0
    } else {
        match mode {
            ImplicitRdpcm::Off => levels[x] as int,
            ImplicitRdpcm::Horizontal => if x == 0 || x % n == 0 {
                levels[x] as int
            } else {
                inverse_at(levels, n, mode, x - 1) + levels[x]
            },
            ImplicitRdpcm::Vertical => if x < n {
                levels[x] as int
            } else {
                inverse_at(levels, n, mode, x - n) + levels[x]
            },
        }
    }
}

/// The differences fit the levels.
pub open spec fn differences_fit(residual: Seq<i32>, count: int) -> bool {
    transform::within(residual, count, 16383)
}

/// Turns a residual block into levels.
pub fn forward_lossless_rdpcm_into(
    residual: &[i32],
    n: usize,
    mode: ImplicitRdpcm,
    levels: &mut [i16],
)
    requires
        1 <= n,
        residual@.len() >= n * n,
        old(levels)@.len() >= n * n,
        differences_fit(residual@, n * n),
    ensures
        final(levels)@.len() == old(levels)@.len(),
        forall|x: int|
            0 <= x < n * n ==> #[trigger] final(levels)@[x] == forward_at(
                residual@,
                n as int,
                mode,
                x,
            ),
        forall|x: int|
            n * n <= x < old(levels)@.len() ==> #[trigger] final(levels)@[x] == old(levels)@[x],
{
    let len: usize = residual.len();
    let count: usize = n * n;
    assert(n <= count) by (nonlinear_arith)
        requires
            1 <= n,
            count == n * n,
    ;
    for x in 0..count
        invariant
            1 <= n,
            count == n * n,
            residual@.len() >= count,
            levels@.len() == old(levels)@.len(),
            levels@.len() >= count,
            differences_fit(residual@, count as int),
            forall|i: int|
                0 <= i < x ==> #[trigger] levels@[i] == forward_at(residual@, n as int, mode, i),
            forall|i: int| x <= i < levels@.len() ==> #[trigger] levels@[i] == old(levels)@[i],
    {
        proof {
            assert(-16383 <= residual@[x as int] <= 16383);
        }
        let v: i32 = match mode {
            ImplicitRdpcm::Off => residual[x],
            ImplicitRdpcm::Horizontal => if x == 0 || x % n == 0 {
                residual[x]
            } else {
                assert(-16383 <= residual@[x - 1] <= 16383);
                residual[x] - residual[x - 1]
            },
            ImplicitRdpcm::Vertical => if x < n {
                residual[x]
            } else {
                assert(-16383 <= residual@[x - n] <= 16383);
                residual[x] - residual[x - n]
            },
        };
        levels[x] = v as i16;
    }
}

proof fn lemma_inverse_bound(levels: Seq<i16>, n: int, mode: ImplicitRdpcm, x: int)
    requires
        0 <= x < n * n,
        1 <= n <= 64,
    ensures
        -32768 * (x + 1) <= inverse_at(levels, n, mode, x) <= 32768 * (x + 1),
        x < 4096,
    decreases x,
{
    assert(n * n <= 4096) by (nonlinear_arith)
        requires
            1 <= n <= 64,
    ;
    if mode is Horizontal && x != 0 && x % n != 0 {
        lemma_inverse_bound(levels, n, mode, x - 1);
    }
    if mode is Vertical && x >= n {
        lemma_inverse_bound(levels, n, mode, x - n);
    }
}

/// Turns levels back into a residual block.
pub fn inverse_lossless_rdpcm_into(
    levels: &[i16],
    n: usize,
    mode: ImplicitRdpcm,
    residual: &mut [i32],
)
    requires
        1 <= n <= 64,
        levels@.len() >= n * n,
        old(residual)@.len() >= n * n,
    ensures
        final(residual)@.len() == old(residual)@.len(),
        forall|x: int|
            0 <= x < n * n ==> #[trigger] final(residual)@[x] == inverse_at(
                levels@,
                n as int,
                mode,
                x,
            ),
        forall|x: int|
            n * n <= x < old(residual)@.len() ==> #[trigger] final(residual)@[x] == old(
                residual,
            )@[x],
{
    let len: usize = levels.len();
    let count: usize = n * n;
    for x in 0..count
        invariant
            1 <= n <= 64,
            count == n * n,
            levels@.len() >= count,
            residual@.len() == old(residual)@.len(),
            residual@.len() >= count,
            forall|i: int|
                0 <= i < x ==> #[trigger] residual@[i] == inverse_at(levels@, n as int, mode, i),
            forall|i: int|
                x <= i < residual@.len() ==> #[trigger] residual@[i] == old(residual)@[i],
    {
        proof {
            lemma_inverse_bound(levels@, n as int, mode, x as int);
            if mode is Horizontal && x != 0 && x as int % n as int != 0 {
                lemma_inverse_bound(levels@, n as int, mode, x - 1);
            }
            if mode is Vertical && x >= n {
                lemma_inverse_bound(levels@, n as int, mode, x - n);
            }
        }
        let v: i32 = match mode {
            ImplicitRdpcm::Off => levels[x] as i32,
            ImplicitRdpcm::Horizontal => if x == 0 || x % n == 0 {
                levels[x] as i32
            } else {
                residual[x - 1] + levels[x] as i32
            },
            ImplicitRdpcm::Vertical => if x < n {
                levels[x] as i32
            } else {
                residual[x - n] + levels[x] as i32
            },
        };
        residual[x] = v;
    }
}

/// Summing up the differences gives the residual back.
pub proof fn law_inverse_undoes_forward(
    residual: Seq<i32>,
    levels: Seq<i16>,
    n: int,
    mode: ImplicitRdpcm,
    x: int,
)
    requires
        1 <= n,
        0 <= x < n * n,
        forall|i: int|
            0 <= i < n * n ==> #[trigger] levels[i] == forward_at(residual, n, mode, i),
    ensures
        inverse_at(levels, n, mode, x) == residual[x],
    decreases x,
{
    assert(levels[x] == forward_at(residual, n, mode, x));
    if mode is Horizontal && x != 0 && x % n != 0 {
        law_inverse_undoes_forward(residual, levels, n, mode, x - 1);
    }
    if mode is Vertical && x >= n {
        law_inverse_undoes_forward(residual, levels, n, mode, x - n);
    }
}

} // verus!
