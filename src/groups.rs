//! The constraint groups (rows, columns and blocks) of a grid of block size `n`.
use vstd::prelude::*;
use vstd::arithmetic::div_mod::*;

verus! {

/// Index `j` (`0 <= j < n*n`) of group `g` (`0 <= g < 3*n*n`). Groups come in
/// threes: for each `i`, row `i`, then column `i`, then block `i`.
pub open spec fn group_index(n: int, g: int, j: int) -> int {
    let i = g / 3;
    if g % 3 == 0 {
        i * (n * n) + j
    } else if g % 3 == 1 {
        j * (n * n) + i
    } else {
        (i / n) * (n * n) * (n - 1) + i * n + (j / n) * (n * n) + j % n
    }
}

/// Whether flat index `x` is one of the indices of group `g`.
pub open spec fn in_group(n: int, g: int, x: int) -> bool {
    exists|j: int| 0 <= j < n * n && #[trigger] group_index(n, g, j) == x
}

/// The block formula, rewritten as (row of the cell) * n^2 + (column of the cell).
pub proof fn lemma_block_form(n: int, i: int, j: int)
    requires
        n >= 1,
        0 <= i < n * n,
        0 <= j < n * n,
    ensures
        (i / n) * (n * n) * (n - 1) + i * n + (j / n) * (n * n) + j % n == ((i / n) * n + j / n)
            * (n * n) + ((i % n) * n + j % n),
        0 <= (i / n) * n + j / n < n * n,
        0 <= (i % n) * n + j % n < n * n,
{
    lemma_fundamental_div_mod(i, n);
    lemma_fundamental_div_mod(j, n);
    lemma_mod_pos_bound(i, n);
    lemma_mod_pos_bound(j, n);
    lemma_div_pos_is_pos(i, n);
    lemma_div_pos_is_pos(j, n);
    let q = i / n;
    let r = i % n;
    let s = j / n;
    let t = j % n;
    assert(q < n) by (nonlinear_arith)
        requires
            i == n * q + r,
            0 <= r,
            i < n * n,
            n >= 1,
    ;
    assert(s < n) by (nonlinear_arith)
        requires
            j == n * s + t,
            0 <= t,
            j < n * n,
            n >= 1,
    ;
    assert(q * (n * n) * (n - 1) + i * n + s * (n * n) + t == (q * n + s) * (n * n) + (r * n + t))
        by (nonlinear_arith)
        requires
            i == n * q + r,
    ;
    assert(0 <= q * n + s < n * n) by (nonlinear_arith)
        requires
            0 <= q < n,
            0 <= s < n,
    ;
    assert(0 <= r * n + t < n * n) by (nonlinear_arith)
        requires
            0 <= r < n,
            0 <= t < n,
    ;
}

/// Every index of every group lies in the grid: `0 <= index < n^4`.
pub proof fn lemma_group_index_bounds(n: int, g: int, j: int)
    requires
        n >= 1,
        0 <= g < 3 * n * n,
        0 <= j < n * n,
    ensures
        0 <= group_index(n, g, j) < n * n * n * n,
{
    let i = g / 3;
    let m = n * n;
    assert(3 * n * n == 3 * m) by (nonlinear_arith)
        requires
            m == n * n,
    ;
    assert(0 <= i < m);
    assert(n * n * n * n == m * m) by (nonlinear_arith)
        requires
            m == n * n,
    ;
    if g % 3 == 0 {
        assert(0 <= m * i + j < m * m) by (nonlinear_arith)
            requires
                0 <= i < m,
                0 <= j < m,
        ;
    } else if g % 3 == 1 {
        assert(0 <= j * m + i < m * m) by (nonlinear_arith)
            requires
                0 <= i < m,
                0 <= j < m,
        ;
    } else {
        lemma_block_form(n, i, j);
        let a = (i / n) * n + j / n;
        let b = (i % n) * n + j % n;
        assert(0 <= a * m + b < m * m) by (nonlinear_arith)
            requires
                0 <= a < m,
                0 <= b < m,
        ;
    }
}

/// The row that holds flat index `x`.
pub open spec fn row_of(n: int, x: int) -> int {
    x / (n * n)
}

/// The column that holds flat index `x`.
pub open spec fn col_of(n: int, x: int) -> int {
    x % (n * n)
}

/// The block that holds flat index `x`, numbered row by row.
pub open spec fn block_of(n: int, x: int) -> int {
    (row_of(n, x) / n) * n + col_of(n, x) / n
}

/// For `0 <= x < m*m` with `m >= 1`: `x / m` and `x % m` lie in `0..m`.
proof fn lemma_split(x: int, m: int)
    requires
        m >= 1,
        0 <= x < m * m,
    ensures
        x == (x / m) * m + x % m,
        0 <= x / m < m,
        0 <= x % m < m,
{
    lemma_fundamental_div_mod(x, m);
    lemma_mod_pos_bound(x, m);
    lemma_div_pos_is_pos(x, m);
    let q = x / m;
    let r = x % m;
    assert(q < m) by (nonlinear_arith)
        requires
            x == m * q + r,
            0 <= r,
            x < m * m,
            m >= 1,
    ;
    assert(x == q * m + r) by (nonlinear_arith)
        requires
            x == m * q + r,
    ;
}

/// Coverage: each index of the grid lies in exactly one row group, exactly one
/// column group and exactly one block group, namely those of its row, its column
/// and its block.
pub proof fn lemma_coverage(n: int, x: int)
    requires
        n >= 1,
        0 <= x < n * n * n * n,
    ensures
        0 <= row_of(n, x) < n * n,
        0 <= col_of(n, x) < n * n,
        0 <= block_of(n, x) < n * n,
        forall|i: int| 0 <= i < n * n ==> (#[trigger] in_group(n, 3 * i, x) <==> i == row_of(n, x)),
        forall|i: int|
            0 <= i < n * n ==> (#[trigger] in_group(n, 3 * i + 1, x) <==> i == col_of(n, x)),
        forall|i: int|
            0 <= i < n * n ==> (#[trigger] in_group(n, 3 * i + 2, x) <==> i == block_of(n, x)),
{
    let m = n * n;
    assert(n * n * n * n == m * m) by (nonlinear_arith)
        requires
            m == n * n,
    ;
    lemma_split(x, m);
    let r = x / m;
    let c = x % m;
    lemma_split(r, n);
    lemma_split(c, n);
    let b = (r / n) * n + c / n;
    assert(0 <= b < m) by (nonlinear_arith)
        requires
            0 <= r / n < n,
            0 <= c / n < n,
            b == (r / n) * n + c / n,
            m == n * n,
    ;
    assert forall|i: int| 0 <= i < m implies (#[trigger] in_group(n, 3 * i, x) <==> i == r) by {
        if in_group(n, 3 * i, x) {
            let j = choose|j: int| 0 <= j < m && #[trigger] group_index(n, 3 * i, j) == x;
            lemma_fundamental_div_mod_converse(x, m, i, j);
        }
        if i == r {
            assert(group_index(n, 3 * i, c) == x);
        }
    }
    assert forall|i: int| 0 <= i < m implies (#[trigger] in_group(n, 3 * i + 1, x) <==> i == c) by {
        if in_group(n, 3 * i + 1, x) {
            let j = choose|j: int| 0 <= j < m && #[trigger] group_index(n, 3 * i + 1, j) == x;
            lemma_fundamental_div_mod_converse(x, m, j, i);
        }
        if i == c {
            assert(group_index(n, 3 * i + 1, r) == x);
        }
    }
    assert forall|i: int| 0 <= i < m implies (#[trigger] in_group(n, 3 * i + 2, x) <==> i == b) by {
        if in_group(n, 3 * i + 2, x) {
            let j = choose|j: int| 0 <= j < m && #[trigger] group_index(n, 3 * i + 2, j) == x;
            lemma_block_form(n, i, j);
            lemma_fundamental_div_mod_converse(x, m, (i / n) * n + j / n, (i % n) * n + j % n);
            lemma_split(i, n);
            lemma_split(j, n);
            lemma_fundamental_div_mod_converse(r, n, i / n, j / n);
            lemma_fundamental_div_mod_converse(c, n, i % n, j % n);
        }
        if i == b {
            let j = (r % n) * n + c % n;
            assert(0 <= j < m) by (nonlinear_arith)
                requires
                    0 <= r % n < n,
                    0 <= c % n < n,
                    j == (r % n) * n + c % n,
                    m == n * n,
            ;
            lemma_fundamental_div_mod_converse(i, n, r / n, c / n);
            lemma_fundamental_div_mod_converse(j, n, r % n, c % n);
            lemma_block_form(n, i, j);
            assert(group_index(n, 3 * i + 2, j) == x);
        }
    }
}

/// All constraint groups of a grid of block size `n`, in order: for each `i` in
/// `0..n*n`, row `i`, column `i` and block `i`. For `n == 0` there are none.
pub fn sudoku_indices(n: usize) -> (r: Vec<Vec<usize>>)
    requires
        n * n * n * n <= usize::MAX,
    ensures
        r@.len() == 3 * n * n,
        forall|g: int| 0 <= g < r@.len() ==> #[trigger] r@[g]@.len() == n * n,
        forall|g: int, j: int|
            0 <= g < r@.len() && 0 <= j < n * n ==> #[trigger] r@[g]@[j] as int == group_index(
                n as int,
                g,
                j,
            ),
{
    assert(n * n <= n * n * n * n) by (nonlinear_arith);
    let n2 = n * n;
    let ghost m = n2 as int;
    assert(n * n * n * n == m * m) by (nonlinear_arith)
        requires
            m == n * n,
    ;
    let mut groups: Vec<Vec<usize>> = Vec::new();
    let mut i: usize = 0;
    while i < n2
        invariant
            n2 == m,
            m == n * n,
            m * m <= usize::MAX,
            0 <= i <= n2,
            groups@.len() == 3 * i,
            forall|g: int| 0 <= g < 3 * i ==> #[trigger] groups@[g]@.len() == m,
            forall|g: int, j: int|
                0 <= g < 3 * i && 0 <= j < m ==> #[trigger] groups@[g]@[j] as int == group_index(
                    n as int,
                    g,
                    j,
                ),
        decreases n2 - i,
    {
        let mut row: Vec<usize> = Vec::new();
        let mut col: Vec<usize> = Vec::new();
        let mut block: Vec<usize> = Vec::new();
        let mut k: usize = 0;
        while k < n2
            invariant
                n2 == m,
                m == n * n,
                m * m <= usize::MAX,
                0 <= i < n2,
                0 <= k <= n2,
                row@.len() == k,
                col@.len() == k,
                block@.len() == k,
                forall|j: int| 0 <= j < k ==> #[trigger] row@[j] as int == group_index(n as int, 3 * i, j),
                forall|j: int| 0 <= j < k ==> #[trigger] col@[j] as int == group_index(n as int, 3 * i + 1, j),
                forall|j: int| 0 <= j < k ==> #[trigger] block@[j] as int == group_index(n as int, 3 * i + 2, j),
            decreases n2 - k,
        {
            assert(i * n2 + k < m * m) by (nonlinear_arith)
                requires
                    0 <= i < m,
                    0 <= k < m,
                    n2 == m,
            ;
            assert(k * n2 + i < m * m) by (nonlinear_arith)
                requires
                    0 <= i < m,
                    0 <= k < m,
                    n2 == m,
            ;
            row.push(i * n2 + k);
            col.push(k * n2 + i);
            proof {
                lemma_block_form(n as int, i as int, k as int);
            }
            let a = (i / n) * n + k / n;
            let b = (i % n) * n + k % n;
            assert(a * n2 + b < m * m) by (nonlinear_arith)
                requires
                    0 <= a < m,
                    0 <= b < m,
                    n2 == m,
            ;
            block.push(a * n2 + b);
            k = k + 1;
        }
        groups.push(row);
        groups.push(col);
        groups.push(block);
        i = i + 1;
    }
    assert(3 * n * n == 3 * m) by (nonlinear_arith)
        requires
            m == n * n,
    ;
    groups
}

/// Why no groups can be listed for a block size.
#[derive(Debug, Clone, Copy, PartialEq, Eq, Structural)]
pub enum GroupsError {
    /// The block size is 0.
    InvalidBlockSize,
    /// `n^4` does not fit in a `usize`.
    TooLarge,
}

/// Like [`sudoku_indices`], but rejects a block size of 0, and one whose grid
/// would have more cells than a `usize` can count, instead of requiring them away.
pub fn checked_sudoku_indices(n: usize) -> (r: Result<Vec<Vec<usize>>, GroupsError>)
    ensures
        n == 0 <==> r == Err::<Vec<Vec<usize>>, GroupsError>(GroupsError::InvalidBlockSize),
        (n >= 1 && n * n * n * n > usize::MAX) <==> r == Err::<Vec<Vec<usize>>, GroupsError>(
            GroupsError::TooLarge,
        ),
        r is Ok <==> (n >= 1 && n * n * n * n <= usize::MAX),
        r matches Ok(groups) ==> {
            &&& groups@.len() == 3 * n * n
            &&& forall|g: int| 0 <= g < groups@.len() ==> #[trigger] groups@[g]@.len() == n * n
            &&& forall|g: int, j: int|
                0 <= g < groups@.len() && 0 <= j < n * n ==> #[trigger] groups@[g]@[j] as int
                    == group_index(n as int, g, j)
        },
{
    if n == 0 {
        return Err(GroupsError::InvalidBlockSize);
    }
    let fits = match n.checked_mul(n) {
        None => false,
        Some(sq) => sq.checked_mul(sq).is_some(),
    };
    assert(fits <==> n * n * n * n <= usize::MAX) by (nonlinear_arith)
        requires
            n >= 1,
            fits <==> (n * n <= usize::MAX && (n * n) * (n * n) <= usize::MAX),
    ;
    if !fits {
        return Err(GroupsError::TooLarge);
    }
    Ok(sudoku_indices(n))
}

} // verus!
