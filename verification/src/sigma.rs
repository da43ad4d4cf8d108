use vstd::prelude::*;

verus! {

/// The number of sigma points for a state of `state_size` variables.
pub fn sigma_order(state_size: usize) -> (r: usize)
    requires
        2 * state_size + 1 <= usize::MAX,
    ensures
        r == 2 * state_size + 1,
{
    2 * state_size + 1
}

/// How sigma points are generated.
#[derive(Debug, Clone, Copy, PartialEq, Eq, Structural)]
pub enum SigmaPointsType {
    Merwe,
}

/// The functions that a prediction step of the filter uses.
pub struct PredictionConfig<F, M, R> {
    pub next_state: F,
    pub mean_transform: M,
    pub state_sub: R,
}

/// The functions that an update step of the filter uses.
pub struct UpdateConfig<M, MT, MR, SR> {
    pub state_to_meas: M,
    /// transformation for sigma points
    pub mean_transform: MT,
    pub meas_sub: MR,
    pub state_sub: SR,
}

/// Where a cell of the reordered noise matrix takes its value from. The
/// `n`×`n` input is the noise of one variable and its derivatives,
/// `[x x' x'' ...]`; the result, of side `s = n·k`, orders `k` variables each
/// followed by its derivatives, `[x x' x'' y y' y'' ...]`, so it holds `k`
/// copies of the input down its diagonal. A cell inside a diagonal block
/// takes the input entry at the same place within the block (by its
/// column-major position); every other cell is zero (`None`).
pub open spec fn derivative_source(n: int, row: int, col: int) -> Option<int> {
    if row / n == col / n {
        Some((col % n) * n + row % n)
    } else {
        None
    }
}

/// The layout holds one copy of the input per variable, down the diagonal:
/// for a row in the block of variable `b` (rows `b·n .. b·n + n`), a cell
/// takes an input entry exactly when its column lies in the same block, and
/// that entry is the one at the cell's offsets within the block (column
/// offset times `n` plus row offset); a cell whose column lies in another
/// block is zero.
pub proof fn lemma_derivative_source_blocks(n: int, k: int, b: int, row: int, col: int)
    requires
        n > 0,
        0 <= b < k,
        b * n <= row < b * n + n,
        0 <= col < n * k,
    ensures
        (derivative_source(n, row, col) is Some) <==> (b * n <= col < b * n + n),
        b * n <= col < b * n + n ==> derivative_source(n, row, col) == Some(
            (col - b * n) * n + (row - b * n),
        ),
{
    assert(row / n == b && row % n == row - b * n) by (nonlinear_arith)
        requires
            n > 0,
            b * n <= row < b * n + n,
    ;
    if b * n <= col < b * n + n {
        assert(col / n == b && col % n == col - b * n) by (nonlinear_arith)
            requires
                n > 0,
                b * n <= col < b * n + n,
        ;
    } else {
        assert(col / n != b) by (nonlinear_arith)
            requires
                n > 0,
                !(b * n <= col < b * n + n),
        ;
    }
}

/// For every cell of the reordered matrix, stored column by column, the
/// column-major position of the input entry that it holds, or `None` for a
/// cell outside the diagonal blocks.
pub fn order_by_derivative_layout(n: usize, k: usize) -> (r: Vec<Option<usize>>)
    requires
        (n * k) * (n * k) <= usize::MAX,
    ensures
        r@.len() == (n * k) * (n * k),
        forall|i: int|
            0 <= i < r@.len() ==> match #[trigger] r@[i] {
                Some(p) => derivative_source(n as int, i % (n * k) as int, i / (n * k) as int) == Some(
                    p as int,
                ),
                None => derivative_source(n as int, i % (n * k) as int, i / (n * k) as int) is None,
            },
{
    assert(n * k <= (n * k) * (n * k) || n * k == 0) by (nonlinear_arith);
    let s = n * k;
    let total = s * s;
    let mut r: Vec<Option<usize>> = Vec::new();
    let mut i: usize = 0;
    while i < total
        invariant
            s == n * k,
            total == s * s,
            i <= total,
            r@.len() == i,
            forall|j: int|
                0 <= j < i ==> match #[trigger] r@[j] {
                    Some(p) => derivative_source(n as int, j % (s as int), j / (s as int)) == Some(
                        p as int,
                    ),
                    None => derivative_source(n as int, j % (s as int), j / (s as int)) is None,
                },
        decreases total - i,
    {
        assert(s > 0 && n > 0 && k > 0) by (nonlinear_arith)
            requires
                i < total,
                total == s * s,
                s == n * k,
        ;
        let row = i % s;
        let col = i / s;
        assert(col < s) by (nonlinear_arith)
            requires
                col == i / s,
                i < s * s,
                s > 0,
        ;
        assert(n * n <= s * s) by (nonlinear_arith)
            requires
                s == n * k,
                k > 0,
                n > 0,
        ;
        if row / n == col / n {
            let a = col % n;
            let b = row % n;
            assert(a * n + b < n * n) by (nonlinear_arith)
                requires
                    a < n,
                    b < n,
            ;
            r.push(Some(a * n + b));
        } else {
            r.push(None);
        }
        i = i + 1;
    }
    r
}

} // verus!
