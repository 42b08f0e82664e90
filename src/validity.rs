//! Whether a grid breaks a Sudoku rule: a present value repeated in a row, a
//! column or a block.
use vstd::prelude::*;
use std::collections::HashSet;
use crate::Grid;
use crate::groups::{group_index, lemma_group_index_bounds, sudoku_indices};

verus! {

broadcast use vstd::std_specs::hash::group_hash_axioms;

/// `n` is the block size of a grid of `len` cells: `len == n^4`.
pub open spec fn is_root4(n: int, len: int) -> bool {
    n >= 0 && n * n * n * n == len
}

/// `len` is the length of a well-shaped grid.
pub open spec fn has_root4(len: int) -> bool {
    exists|n: int| is_root4(n, len)
}

/// The block size of a well-shaped grid of `len` cells.
pub open spec fn root4(len: int) -> int {
    choose|n: int| is_root4(n, len)
}

/// No two distinct positions of group `g` hold the same present value.
pub open spec fn group_ok(s: Seq<Option<i32>>, n: int, g: int) -> bool {
    forall|j1: int, j2: int|
        0 <= j1 < n * n && 0 <= j2 < n * n && j1 != j2 && (#[trigger] s[group_index(
            n,
            g,
            j1,
        )]).is_some() ==> s[group_index(n, g, j1)] != #[trigger] s[group_index(n, g, j2)]
}

/// Every group of block size `n` is free of repeated values.
pub open spec fn no_conflict(s: Seq<Option<i32>>, n: int) -> bool {
    forall|g: int| 0 <= g < 3 * n * n ==> #[trigger] group_ok(s, n, g)
}

/// A grid is valid when its length is a fourth power `n^4` and none of its
/// groups repeats a present value. Empty cells break no rule.
pub open spec fn valid_grid(s: Seq<Option<i32>>) -> bool {
    has_root4(s.len() as int) && no_conflict(s, root4(s.len() as int))
}

/// `small` keeps some of the values of `big`, cell for cell, and empties the
/// rest.
pub open spec fn sub_grid(small: Seq<Option<i32>>, big: Seq<Option<i32>>) -> bool {
    &&& small.len() == big.len()
    &&& forall|i: int| 0 <= i < small.len() && (#[trigger] small[i]).is_some() ==> big[i] == small[i]
}

/// Validity is monotone: emptying cells of a valid grid leaves it valid. Put the
/// other way, filling cells of an invalid grid never makes it valid.
pub proof fn lemma_valid_monotone(small: Seq<Option<i32>>, big: Seq<Option<i32>>)
    requires
        sub_grid(small, big),
        valid_grid(big),
    ensures
        valid_grid(small),
{
    let n = root4(big.len() as int);
    assert(is_root4(n, big.len() as int));
    assert forall|g: int| 0 <= g < 3 * n * n implies #[trigger] group_ok(small, n, g) by {
        assert(n >= 1) by (nonlinear_arith)
            requires
                n >= 0,
                0 <= g < 3 * n * n,
        ;
        assert(group_ok(big, n, g));
        assert forall|j1: int, j2: int|
            0 <= j1 < n * n && 0 <= j2 < n * n && j1 != j2 && (#[trigger] small[group_index(
                n,
                g,
                j1,
            )]).is_some() implies small[group_index(n, g, j1)] != #[trigger] small[group_index(n, g, j2)] by {
            lemma_group_index_bounds(n, g, j1);
            lemma_group_index_bounds(n, g, j2);
            if small[group_index(n, g, j2)].is_some() {
                assert(big[group_index(n, g, j1)] != big[group_index(n, g, j2)]);
            }
        }
    }
}

/// Some two distinct positions of `s` hold equal values.
pub open spec fn has_repeat(s: Seq<i32>) -> bool {
    exists|a: int, b: int| 0 <= a < s.len() && 0 <= b < s.len() && a != b && s[a] == s[b]
}

/// `a^4 <= b^4` for `0 <= a <= b`, strictly when `a < b`.
pub proof fn lemma_pow4_mono(a: int, b: int)
    requires
        0 <= a <= b,
    ensures
        a * a * a * a <= b * b * b * b,
        a < b ==> a * a * a * a < b * b * b * b,
        1 <= a ==> a <= a * a * a * a,
{
    assert(a * a <= b * b) by (nonlinear_arith)
        requires
            0 <= a <= b,
    ;
    assert(a * a * a <= b * b * b) by (nonlinear_arith)
        requires
            0 <= a <= b,
            a * a <= b * b,
    ;
    assert(a * a * a * a <= b * b * b * b) by (nonlinear_arith)
        requires
            0 <= a <= b,
            a * a * a <= b * b * b,
    ;
    if a < b {
        assert(a * a * a * a < b * b * b * b) by (nonlinear_arith)
            requires
                0 <= a < b,
                a * a <= b * b,
                a * a * a <= b * b * b,
        ;
    }
    if 1 <= a {
        assert(a <= a * a * a * a) by (nonlinear_arith)
            requires
                1 <= a,
        ;
    }
}

/// A grid length has at most one block size.
pub proof fn lemma_root4_unique(n: int, len: int)
    requires
        is_root4(n, len),
    ensures
        has_root4(len),
        root4(len) == n,
{
    let k = root4(len);
    assert(is_root4(k, len));
    if k < n {
        lemma_pow4_mono(k, n);
    } else if n < k {
        lemma_pow4_mono(n, k);
    }
}

/// The block size of a grid of `len` cells, if `len` is a fourth power.
pub(crate) fn block_size(len: usize) -> (r: Option<usize>)
    ensures
        match r {
            Some(n) => is_root4(n as int, len as int),
            None => !has_root4(len as int),
        },
{
    let mut n: usize = 0;
    loop
        invariant
            n * n * n * n <= len,
        decreases len - n,
    {
        proof {
            lemma_pow4_mono(0, n as int);
            lemma_pow4_mono(n as int, n as int);
        }
        assert(n * n <= n * n * n * n) by (nonlinear_arith);
        assert(n * n * n <= n * n * n * n) by (nonlinear_arith);
        let p = n * n * n * n;
        if p == len {
            return Some(n);
        }
        let next = n + 1;
        let ghost k = next as int;
        let fail = match next.checked_mul(next) {
            None => true,
            Some(sq) => match sq.checked_mul(sq) {
                None => true,
                Some(p4) => {
                    assert(p4 == k * k * k * k) by (nonlinear_arith)
                        requires
                            sq == k * k,
                            p4 == sq * sq,
                    ;
                    p4 > len
                },
            },
        };
        if fail {
            proof {
                assert(k * k * k * k > len) by (nonlinear_arith)
                    requires
                        k >= 1,
                        k * k > usize::MAX || (k * k) * (k * k) > usize::MAX || k * k * k * k
                            > len,
                        len <= usize::MAX,
                ;
                assert forall|m: int| !is_root4(m, len as int) by {
                    if 0 <= m && m <= n {
                        lemma_pow4_mono(m, n as int);
                    } else if m > n {
                        lemma_pow4_mono(k, m);
                    }
                }
            }
            return None;
        }
        proof {
            lemma_pow4_mono(k, k);
        }
        n = next;
    }
}

/// Whether two distinct positions of `s` hold the same value.
fn has_duplicates(s: &[i32]) -> (r: bool)
    ensures
        r == has_repeat(s@),
{
    let mut seen: HashSet<i32> = HashSet::new();
    let mut k: usize = 0;
    while k < s.len()
        invariant
            0 <= k <= s@.len(),
            forall|v: i32| seen@.contains(v) <==> exists|a: int| 0 <= a < k && s@[a] == v,
            forall|a: int, b: int| 0 <= a < k && 0 <= b < k && a != b ==> s@[a] != s@[b],
        decreases s@.len() - k,
    {
        let v = s[k];
        if !seen.insert(v) {
            let ghost a = choose|a: int| 0 <= a < k && s@[a] == v;
            assert(s@[a] == s@[k as int]);
            return true;
        }
        k = k + 1;
    }
    false
}

/// Whether `grid` is valid: its length is a fourth power `n^4` and no row,
/// column or block repeats a present value.
pub fn valid_sudoku(grid: &Grid) -> (r: bool)
    ensures
        r == valid_grid(grid@),
{
    let n = match block_size(grid.len()) {
        None => return false,
        Some(n) => n,
    };
    proof {
        lemma_root4_unique(n as int, grid@.len() as int);
    }
    let groups = sudoku_indices(n);
    let mut gi: usize = 0;
    while gi < groups.len()
        invariant
            is_root4(n as int, grid@.len() as int),
            root4(grid@.len() as int) == n,
            groups@.len() == 3 * n * n,
            forall|g: int| 0 <= g < groups@.len() ==> #[trigger] groups@[g]@.len() == n * n,
            forall|g: int, j: int|
                0 <= g < groups@.len() && 0 <= j < n * n ==> #[trigger] groups@[g]@[j] as int
                    == group_index(n as int, g, j),
            0 <= gi <= groups@.len(),
            forall|g: int| 0 <= g < gi ==> #[trigger] group_ok(grid@, n as int, g),
        decreases groups@.len() - gi,
    {
        assert(n >= 1) by (nonlinear_arith)
            requires
                0 <= gi < 3 * n * n,
        ;
        let group = &groups[gi];
        let ghost g = gi as int;
        let mut vs: Vec<i32> = Vec::new();
        let ghost mut pos: Seq<int> = Seq::empty();
        proof {
            assert forall|jj: int| 0 <= jj < n * n implies 0 <= #[trigger] group_index(n as int, g, jj)
                < grid@.len() by {
                lemma_group_index_bounds(n as int, g, jj);
            }
        }
        let mut j: usize = 0;
        while j < group.len()
            invariant
                forall|jj: int| 0 <= jj < n * n ==> 0 <= #[trigger] group_index(n as int, g, jj)
                    < grid@.len(),
                n >= 1,
                0 <= g < 3 * n * n,
                is_root4(n as int, grid@.len() as int),
                group@ == groups@[g]@,
                group@.len() == n * n,
                forall|jj: int| 0 <= jj < n * n ==> #[trigger] group@[jj] as int == group_index(n as int, g, jj),
                0 <= j <= group@.len(),
                vs@.len() == pos.len(),
                forall|a: int| 0 <= a < pos.len() ==> 0 <= #[trigger] pos[a] < j,
                forall|a: int, b: int| 0 <= a < pos.len() && 0 <= b < pos.len() && a != b ==> pos[a] != pos[b],
                forall|a: int| 0 <= a < pos.len() ==> grid@[group_index(n as int, g, #[trigger] pos[a])] == Some(vs@[a]),
                forall|jj: int| 0 <= jj < j && (#[trigger] grid@[group_index(n as int, g, jj)]).is_some() ==> exists|a: int| 0 <= a < pos.len() && pos[a] == jj,
            decreases group@.len() - j,
        {
            let ghost old_pos = pos;
            let idx = group[j];
            if let Some(v) = grid[idx] {
                vs.push(v);
                proof {
                    pos = pos.push(j as int);
                }
            }
            proof {
                assert forall|jj: int|
                    0 <= jj <= j && (#[trigger] grid@[group_index(n as int, g, jj)]).is_some() implies exists|a: int|
                    0 <= a < pos.len() && pos[a] == jj by {
                    if jj < j {
                        let a = choose|a: int| 0 <= a < old_pos.len() && old_pos[a] == jj;
                        assert(pos[a] == jj);
                    } else {
                        assert(pos[pos.len() - 1] == jj);
                    }
                }
            }
            j = j + 1;
        }
        if has_duplicates(vs.as_slice()) {
            proof {
                let (a, b) = choose|a: int, b: int| 0 <= a < vs@.len() && 0 <= b < vs@.len() && a != b && vs@[a] == vs@[b];
                let j1 = pos[a];
                let j2 = pos[b];
                assert(grid@[group_index(n as int, g, j1)] == Some(vs@[a]));
                assert(grid@[group_index(n as int, g, j2)] == Some(vs@[b]));
                assert(!group_ok(grid@, n as int, g));
            }
            return false;
        }
        proof {
            assert forall|j1: int, j2: int|
                0 <= j1 < n * n && 0 <= j2 < n * n && j1 != j2 && (#[trigger] grid@[group_index(
                    n as int,
                    g,
                    j1,
                )]).is_some() implies grid@[group_index(n as int, g, j1)] != #[trigger] grid@[group_index(n as int, g, j2)] by {
                if grid@[group_index(n as int, g, j2)].is_some() {
                    let a = choose|a: int| 0 <= a < pos.len() && pos[a] == j1;
                    let b = choose|b: int| 0 <= b < pos.len() && pos[b] == j2;
                    assert(vs@[a] != vs@[b]);
                }
            }
            assert(group_ok(grid@, n as int, g));
        }
        gi = gi + 1;
    }
    true
}

} // verus!
