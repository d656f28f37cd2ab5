use vstd::prelude::*;
use vstd::arithmetic::div_mod::{lemma_fundamental_div_mod_converse, lemma_mod_mod};

verus! {

/// The position in the list of grid points of the point with coordinates
/// `(i, j, k)` in a grid of `n` points per side: `i` runs slowest, `k` fastest.
pub open spec fn grid_index(n: int, i: int, j: int, k: int) -> int {
    i * n * n + j * n + k
}

/// The offset of coordinate `i` from the centre of a side of `n` points, in
/// half grid spacings.
pub open spec fn doubled_offset(n: int, i: int) -> int {
    2 * i - (n - 1)
}

proof fn lemma_index_steps(n: int, i: int, j: int, k: int)
    requires
        n > 0,
        0 <= i,
        0 <= j,
        0 <= k,
    ensures
        grid_index(n, i, j, k) + 1 == grid_index(n, i, j, k + 1),
        grid_index(n, i, j, n) == grid_index(n, i, j + 1, 0),
        grid_index(n, i, n, 0) == grid_index(n, i + 1, 0, 0),
        grid_index(n, 0, 0, 0) == 0,
        grid_index(n, n, 0, 0) == n * n * n,
{
    assert(i * n * n + n * n == (i + 1) * n * n) by (nonlinear_arith);
    assert(j * n + n == (j + 1) * n) by (nonlinear_arith);
    assert(0 * n * n == 0) by (nonlinear_arith);
    assert(0 * n == 0) by (nonlinear_arith);
}

proof fn lemma_index_below(n: int, i: int, j: int, k: int)
    requires
        0 <= i < n,
        0 <= j < n,
        0 <= k < n,
    ensures
        0 <= grid_index(n, i, j, k) < n * n * n,
        0 <= j * n + k < n * n,
{
    assert(0 <= j * n + k < n * n) by (nonlinear_arith)
        requires 0 <= j < n, 0 <= k < n;
    assert(0 <= i * n * n) by (nonlinear_arith)
        requires 0 <= i, 0 <= n;
    assert(i * n * n + n * n <= n * n * n) by (nonlinear_arith)
        requires 0 <= i < n;
}

/// The centred offsets of all grid points of a grid with `n` points per side,
/// in half grid spacings, listed in the order of `grid_index`. Multiplied by
/// half the spacing they give the rest positions of the points.
pub fn grid_offsets(n: usize) -> (r: Vec<(i64, i64, i64)>)
    requires
        n * n * n <= usize::MAX,
    ensures
        r@.len() == n * n * n,
        forall|i: int, j: int, k: int| 0 <= i < n && 0 <= j < n && 0 <= k < n ==>
            #[trigger] r@[grid_index(n as int, i, j, k)] == (
                doubled_offset(n as int, i) as i64,
                doubled_offset(n as int, j) as i64,
                doubled_offset(n as int, k) as i64,
            ),
{
    let mut r: Vec<(i64, i64, i64)> = Vec::new();
    if n == 0 {
        return r;
    }
    proof {
        if n >= 0x40_0000 {
            assert(n * n * n >= 0x40_0000 * 0x40_0000 * 0x40_0000) by (nonlinear_arith)
                requires n >= 0x40_0000;
        }
    }
    let ni = n as i64;
    let mut i: usize = 0;
    while i < n
        invariant
            0 < n < 0x40_0000,
            ni == n,
            i <= n,
            r@.len() == grid_index(n as int, i as int, 0, 0),
            forall|a: int, b: int, c: int| 0 <= a < i && 0 <= b < n && 0 <= c < n ==>
                #[trigger] r@[grid_index(n as int, a, b, c)] == (
                    doubled_offset(n as int, a) as i64,
                    doubled_offset(n as int, b) as i64,
                    doubled_offset(n as int, c) as i64,
                ),
        decreases n - i,
    {
        let mut j: usize = 0;
        while j < n
            invariant
                0 < n < 0x40_0000,
                ni == n,
                i < n,
                j <= n,
                r@.len() == grid_index(n as int, i as int, j as int, 0),
                forall|a: int, b: int, c: int|
                    0 <= b < n && 0 <= c < n && (0 <= a < i || (a == i && 0 <= b < j)) ==>
                    #[trigger] r@[grid_index(n as int, a, b, c)] == (
                        doubled_offset(n as int, a) as i64,
                        doubled_offset(n as int, b) as i64,
                        doubled_offset(n as int, c) as i64,
                    ),
            decreases n - j,
        {
            let mut k: usize = 0;
            while k < n
                invariant
                    0 < n < 0x40_0000,
                    ni == n,
                    i < n,
                    j < n,
                    k <= n,
                    r@.len() == grid_index(n as int, i as int, j as int, k as int),
                    forall|a: int, b: int, c: int|
                        0 <= b < n && 0 <= c < n
                            && (0 <= a < i || (a == i && 0 <= b < j) || (a == i && b == j && 0 <= c < k)) ==>
                        #[trigger] r@[grid_index(n as int, a, b, c)] == (
                            doubled_offset(n as int, a) as i64,
                            doubled_offset(n as int, b) as i64,
                            doubled_offset(n as int, c) as i64,
                        ),
                decreases n - k,
            {
                let item = (2 * (i as i64) - (ni - 1), 2 * (j as i64) - (ni - 1), 2 * (k as i64) - (ni - 1));
                let ghost here = grid_index(n as int, i as int, j as int, k as int);
                proof {
                    lemma_index_steps(n as int, i as int, j as int, k as int);
                }
                r.push(item);
                proof {
                    assert forall|a: int, b: int, c: int|
                        0 <= b < n && 0 <= c < n
                            && (0 <= a < i || (a == i && 0 <= b < j) || (a == i && b == j && 0 <= c < k + 1)) implies
                        #[trigger] r@[grid_index(n as int, a, b, c)] == (
                            doubled_offset(n as int, a) as i64,
                            doubled_offset(n as int, b) as i64,
                            doubled_offset(n as int, c) as i64,
                        ) by {
                        if a == i && b == j && c == k {
                        } else {
                            lemma_index_order(n as int, a, b, c, i as int, j as int, k as int);
                        }
                    }
                }
                k = k + 1;
            }
            proof {
                lemma_index_steps(n as int, i as int, j as int, 0);
            }
            j = j + 1;
        }
        proof {
            lemma_index_steps(n as int, i as int, 0, 0);
        }
        i = i + 1;
    }
    proof {
        lemma_index_steps(n as int, 0, 0, 0);
    }
    r
}

proof fn lemma_index_order(n: int, a: int, b: int, c: int, i: int, j: int, k: int)
    requires
        0 <= a,
        0 <= b < n,
        0 <= c < n,
        0 <= i,
        0 <= j < n,
        0 <= k < n,
        a < i || (a == i && b < j) || (a == i && b == j && c < k),
    ensures
        grid_index(n, a, b, c) < grid_index(n, i, j, k),
{
    assert(b * n + c < n * n) by (nonlinear_arith)
        requires 0 <= b < n, 0 <= c < n;
    if a < i {
        assert(a * n * n + n * n <= i * n * n) by (nonlinear_arith)
            requires a < i, n > 0;
        assert(0 <= j * n + k) by (nonlinear_arith)
            requires 0 <= j, 0 <= k, n > 0;
    } else if b < j {
        assert(b * n + n <= j * n) by (nonlinear_arith)
            requires b < j, n > 0;
    }
}

/// Whether the grid point at position `idx` of a grid with `n` points per
/// side lies on one of the three central planes (its first, second or third
/// coordinate is the middle one, `n / 2`).
pub fn on_central_plane(idx: usize, n: usize) -> (r: bool)
    requires
        n > 0,
        n * n <= usize::MAX,
    ensures
        forall|i: int, j: int, k: int| 0 <= i < n && 0 <= j < n && 0 <= k < n
            && idx == grid_index(n as int, i, j, k) ==>
            r == (i == n / 2 || j == n / 2 || k == n / 2),
        r == (idx as int / (n * n) == n / 2 || (idx as int % (n * n)) / n as int == n / 2 || idx % n == n / 2),
{
    let nn = n * n;
    let mid = n / 2;
    proof {
        assert(nn > 0) by (nonlinear_arith)
            requires nn == n * n, n > 0;
    }
    let i = idx / nn;
    let rem = idx % nn;
    let j = rem / n;
    let k = rem % n;
    proof {
        assert(nn as int == n * n);
        lemma_mod_mod(idx as int, n as int, n as int);
        assert(k as int == idx as int % n as int);
        assert forall|a: int, b: int, c: int| 0 <= a < n && 0 <= b < n && 0 <= c < n
            && idx == grid_index(n as int, a, b, c) implies a == i && b == j && c == k by {
            lemma_index_below(n as int, a, b, c);
            assert(idx == a * (nn as int) + (b * n + c)) by (nonlinear_arith)
                requires idx == a * n * n + b * n + c, nn == n * n;
            lemma_fundamental_div_mod_converse(idx as int, nn as int, a, b * n + c);
            lemma_fundamental_div_mod_converse(rem as int, n as int, b, c);
        }
    }
    i == mid || j == mid || k == mid
}

} // verus!
