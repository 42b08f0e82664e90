//! Backtracking search that completes a grid in place.
use vstd::prelude::*;
use crate::{Grid, IType};
use crate::validity::{
    block_size, lemma_root4_unique, lemma_valid_monotone, root4, sub_grid, valid_grid,
    valid_sudoku,
};

verus! {

/// Every cell of `s` is filled.
pub open spec fn complete(s: Seq<Option<i32>>) -> bool {
    forall|i: int| 0 <= i < s.len() ==> (#[trigger] s[i]).is_some()
}

/// The largest value a solver may write: `n^2` for a grid of `n^4` cells.
pub open spec fn max_value(len: int) -> int {
    root4(len) * root4(len)
}

/// `c` completes `s`: it keeps every filled cell of `s`, fills every empty one
/// with a value in `1..=n^2`, and is valid.
pub open spec fn is_solution(s: Seq<Option<i32>>, c: Seq<Option<i32>>) -> bool {
    &&& sub_grid(s, c)
    &&& complete(c)
    &&& valid_grid(c)
    &&& forall|i: int|
        0 <= i < s.len() && (#[trigger] s[i]).is_none() ==> 1 <= c[i].unwrap() <= max_value(
            s.len() as int,
        )
}

/// Some completion of `s` exists.
pub open spec fn solvable(s: Seq<Option<i32>>) -> bool {
    exists|c: Seq<Option<i32>>| #[trigger] is_solution(s, c)
}

/// The number of empty cells of `s`.
pub open spec fn count_none(s: Seq<Option<i32>>) -> nat
    decreases s.len(),
{
    if s.len() == 0 {
        0
    } else {
        count_none(s.drop_last()) + if s.last().is_none() {
            1nat
        } else {
            0nat
        }
    }
}

/// Filling an empty cell lowers the number of empty cells by one.
proof fn lemma_fill_one(s: Seq<Option<i32>>, i: int, v: i32)
    requires
        0 <= i < s.len(),
        s[i].is_none(),
    ensures
        count_none(s.update(i, Some(v))) + 1 == count_none(s),
    decreases s.len(),
{
    let t = s.update(i, Some(v));
    if i < s.len() - 1 {
        assert(t.drop_last() =~= s.drop_last().update(i, Some(v)));
        lemma_fill_one(s.drop_last(), i, v);
    } else {
        assert(t.drop_last() =~= s.drop_last());
    }
}

/// The first empty cell of `grid`, if any.
fn first_empty(grid: &Grid) -> (r: Option<usize>)
    ensures
        match r {
            Some(i) => i < grid@.len() && grid@[i as int].is_none() && forall|k: int|
                0 <= k < i ==> (#[trigger] grid@[k]).is_some(),
            None => complete(grid@),
        },
{
    let mut i: usize = 0;
    while i < grid.len()
        invariant
            0 <= i <= grid@.len(),
            forall|k: int| 0 <= k < i ==> (#[trigger] grid@[k]).is_some(),
        decreases grid@.len() - i,
    {
        if grid[i].is_none() {
            return Some(i);
        }
        i = i + 1;
    }
    None
}

/// Completes `grid` by backtracking: fills the first empty cell with each value
/// from 1 to `n^2` in turn and recurses. Returns whether a completion exists.
/// On success `grid` holds one; on failure it is left as it was.
pub fn solve_sudoku(grid: &mut Grid) -> (r: bool)
    ensures
        r == solvable(old(grid)@),
        r ==> is_solution(old(grid)@, final(grid)@),
        !r ==> final(grid)@ == old(grid)@,
        valid_grid(old(grid)@) && complete(old(grid)@) ==> r && final(grid)@ == old(grid)@,
    decreases count_none(old(grid)@),
{
    let ghost start = grid@;
    if !valid_sudoku(grid) {
        proof {
            if solvable(start) {
                let c = choose|c: Seq<Option<i32>>| #[trigger] is_solution(start, c);
                lemma_valid_monotone(start, c);
            }
        }
        return false;
    }
    let idx = match first_empty(grid) {
        None => {
            proof {
                assert(is_solution(start, start));
            }
            return true;
        },
        Some(idx) => idx,
    };
    let n = match block_size(grid.len()) {
        Some(n) => n,
        None => return false,
    };
    proof {
        lemma_root4_unique(n as int, start.len() as int);
    }
    assert(n * n <= n * n * n * n) by (nonlinear_arith);
    let side = n * n;
    // A cell holds an `IType`, so no candidate lies beyond its largest value.
    let top: i32 = if side > i32::MAX as usize {
        i32::MAX
    } else {
        side as i32
    };
    let mut v: i64 = 1;
    while v <= top as i64
        invariant
            start == old(grid)@,
            grid@ == start,
            0 <= idx < start.len(),
            start[idx as int].is_none(),
            1 <= v,
            top <= i32::MAX,
            top as int <= max_value(start.len() as int),
            v <= top + 1,
            forall|c: Seq<Option<i32>>|
                #[trigger] is_solution(start, c) ==> !(1 <= c[idx as int].unwrap() < v),
        decreases top + 1 - v,
    {
        grid[idx] = Some(v as IType);
        let ghost filled = grid@;
        proof {
            assert(filled =~= start.update(idx as int, Some(v as i32)));
            lemma_fill_one(start, idx as int, v as i32);
            assert(count_none(grid@) < count_none(start));
        }
        if solve_sudoku(grid) {
            proof {
                assert(is_solution(filled, grid@));
                assert forall|i: int| 0 <= i < start.len() && (#[trigger] start[i]).is_some() implies grid@[i] == start[i] by {
                    assert(filled[i] == start[i]);
                }
                assert forall|i: int| 0 <= i < start.len() && (#[trigger] start[i]).is_none() implies 1 <= grid@[i].unwrap() <= max_value(start.len() as int) by {
                    if i != idx {
                        assert(filled[i].is_none());
                    }
                }
                assert(is_solution(start, grid@));
                assert(solvable(start));
            }
            return true;
        }
        grid[idx] = None;
        proof {
            assert(grid@ =~= start);
            assert forall|c: Seq<Option<i32>>|
                #[trigger] is_solution(start, c) implies !(1 <= c[idx as int].unwrap() < v + 1) by {
                if c[idx as int] == Some(v as i32) {
                    assert forall|i: int| 0 <= i < filled.len() && (#[trigger] filled[i]).is_some() implies c[i] == filled[i] by {
                        if i != idx {
                            assert(start[i].is_some());
                        }
                    }
                    assert forall|i: int| 0 <= i < filled.len() && (#[trigger] filled[i]).is_none() implies 1 <= c[i].unwrap() <= max_value(filled.len() as int) by {
                        assert(start[i].is_none());
                    }
                    assert(is_solution(filled, c));
                }
            }
        }
        v = v + 1;
    }
    proof {
        if solvable(start) {
            let c = choose|c: Seq<Option<i32>>| #[trigger] is_solution(start, c);
            assert(c[idx as int].is_some());
            assert(1 <= c[idx as int].unwrap() <= max_value(start.len() as int));
        }
    }
    false
}

} // verus!
