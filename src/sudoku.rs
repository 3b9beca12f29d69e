//! Backtracking solver for square Sudoku grids.

use vstd::prelude::*;
use crate::grid::{
    at, consistent, extends, first_solution, geometry, idx, is_solution, is_square,
    lemma_box_range, lemma_coords, lemma_full_is_first, lemma_idx, lemma_place_keeps_consistent,
    lemma_placement_from_solution, lemma_root_unique, lex_le, lex_le_antisymmetric, lex_lt_at,
    placement_ok, root, same_box, solved, sq,
};

verus! {

/// Why a grid was not solved.
#[derive(Clone, Copy, Debug, PartialEq, Eq, Structural)]
pub enum SudokuError {
    /// The cells do not make an n x n grid, a cell holds a value above n, or two
    /// filled cells of one row, column or box hold the same value.
    MalformedInput,
    /// The search tried every candidate and found no solution.
    Unsatisfiable,
    /// The side is not a square, so the grid has no square boxes, or it is
    /// larger than a byte can number.
    GeometryUnsupported,
}

/// What solving the cells `g` as a grid of side `n` gives.
pub open spec fn solve_outcome(g: Seq<u8>, n: nat, r: Result<Vec<u8>, SudokuError>) -> bool {
    if g.len() != n * n {
        r == Err::<Vec<u8>, SudokuError>(SudokuError::MalformedInput)
    } else if !is_square(n) || n > 255 {
        r == Err::<Vec<u8>, SudokuError>(SudokuError::GeometryUnsupported)
    } else if !consistent(g, n, root(n)) {
        r == Err::<Vec<u8>, SudokuError>(SudokuError::MalformedInput)
    } else if exists|t: Seq<u8>| is_solution(g, t, n, root(n)) {
        r matches Ok(s) && first_solution(g, s@, n, root(n))
    } else {
        r == Err::<Vec<u8>, SudokuError>(SudokuError::Unsatisfiable)
    }
}

/// The exact square root of `x`, or `None` where `x` is not a square.
///
/// This gives the side of an n x n grid of `x` cells, and the side of the
/// boxes of an n x n grid.
pub fn exact_sqrt(x: usize) -> (r: Option<usize>)
    ensures
        r is Some <==> is_square(x as nat),
        r matches Some(s) ==> s * s == x && s as nat == root(x as nat),
{
    let mut s: usize = 0;
    while (s as u128 + 1) * (s as u128 + 1) <= x as u128
        invariant
            s * s <= x,
            s <= x,
            s < 0x1_0000_0000,
            (s + 1) * (s + 1) <= 0x1_0000_0000_0000_0000,
        decreases x - s,
    {
        assert(s + 1 < 0x1_0000_0000) by (nonlinear_arith)
            requires
                (s + 1) * (s + 1) <= x,
                x <= usize::MAX,
                usize::MAX <= u64::MAX,
        ;
        assert(s + 1 <= (s + 1) * (s + 1)) by (nonlinear_arith);
        assert((s + 2) * (s + 2) <= 0x1_0000_0000_0000_0000) by (nonlinear_arith)
            requires
                s + 1 < 0x1_0000_0000,
        ;
        s = s + 1;
    }
    if s * s == x {
        proof {
            lemma_root_unique(x as nat, s as nat);
        }
        Some(s)
    } else {
        proof {
            assert forall|t: nat| sq(t) != x by {
                if t <= s {
                    assert(t * t <= s * s) by (nonlinear_arith)
                        requires
                            t <= s,
                    ;
                } else {
                    assert(t * t >= (s + 1) * (s + 1)) by (nonlinear_arith)
                        requires
                            t >= s + 1,
                    ;
                }
            }
        }
        None
    }
}

/// Whether `num` may be written at `(row, col)`: no other cell of that row,
/// that column or that box currently holds it. The cell's own value is not
/// looked at.
pub fn is_valid_placement(matrix: &[u8], n: usize, row: usize, col: usize, num: u8) -> (r: bool)
    requires
        matrix@.len() == n * n,
        is_square(n as nat),
        row < n,
        col < n,
    ensures
        r == placement_ok(matrix@, n as nat, root(n as nat), row as int, col as int, num),
{
    let ghost g = matrix@;
    let len = matrix.len();
    let mut c: usize = 0;
    while c < n
        invariant
            c <= n,
            row < n,
            matrix@ == g,
            g.len() == n * n,
            len == g.len(),
            forall|c2: int| 0 <= c2 < c && c2 != col ==> #[trigger] at(g, n as nat, row as int, c2) != num,
        decreases n - c,
    {
        proof {
            lemma_idx(n as nat, row as int, c as int);
        }
        if c != col && matrix[row * n + c] == num {
            assert(at(g, n as nat, row as int, c as int) == num);
            return false;
        }
        c += 1;
    }
    let mut r: usize = 0;
    while r < n
        invariant
            r <= n,
            col < n,
            matrix@ == g,
            g.len() == n * n,
            len == g.len(),
            forall|r2: int| 0 <= r2 < r && r2 != row ==> #[trigger] at(g, n as nat, r2, col as int) != num,
        decreases n - r,
    {
        proof {
            lemma_idx(n as nat, r as int, col as int);
        }
        if r != row && matrix[r * n + col] == num {
            assert(at(g, n as nat, r as int, col as int) == num);
            return false;
        }
        r += 1;
    }
    let b = match exact_sqrt(n) {
        Some(b) => b,
        None => {
            return false;
        },
    };
    let ghost bb = b as nat;
    proof {
        lemma_box_range(bb, row as int, row as int);
        lemma_box_range(bb, col as int, col as int);
    }
    let start_row = (row / b) * b;
    let start_col = (col / b) * b;
    let mut r: usize = start_row;
    while r < start_row + b
        invariant
            start_row <= r <= start_row + b,
            start_row + b <= n,
            start_col + b <= n,
            b > 0,
            b * b == n,
            bb == b,
            bb == root(n as nat),
            row < n,
            col < n,
            start_row == (row / b) * b,
            start_col == (col / b) * b,
            matrix@ == g,
            g.len() == n * n,
            len == g.len(),
            forall|r2: int, c2: int|
                start_row <= r2 < r && start_col <= c2 < start_col + b && (r2 != row || c2 != col)
                    ==> #[trigger] at(g, n as nat, r2, c2) != num,
        decreases start_row + b - r,
    {
        let mut c: usize = start_col;
        while c < start_col + b
            invariant
                start_row <= r < start_row + b,
                start_col <= c <= start_col + b,
                start_row + b <= n,
                start_col + b <= n,
                b > 0,
                b * b == n,
                bb == b,
                bb == root(n as nat),
                row < n,
                col < n,
                start_row == (row / b) * b,
                start_col == (col / b) * b,
                matrix@ == g,
                g.len() == n * n,
            len == g.len(),
                forall|r2: int, c2: int|
                    start_row <= r2 < r && start_col <= c2 < start_col + b && (r2 != row || c2
                        != col) ==> #[trigger] at(g, n as nat, r2, c2) != num,
                forall|c2: int|
                    start_col <= c2 < c && (r != row || c2 != col) ==> #[trigger] at(
                        g,
                        n as nat,
                        r as int,
                        c2,
                    ) != num,
            decreases start_col + b - c,
        {
            proof {
                lemma_idx(n as nat, r as int, c as int);
            }
            if (r != row || c != col) && matrix[r * n + c] == num {
                proof {
                    lemma_box_range(bb, row as int, r as int);
                    lemma_box_range(bb, col as int, c as int);
                    assert(same_box(bb, r as int, c as int, row as int, col as int));
                    assert(at(g, n as nat, r as int, c as int) == num);
                }
                return false;
            }
            c += 1;
        }
        r += 1;
    }
    proof {
        assert forall|r2: int, c2: int|
            0 <= r2 < n && 0 <= c2 < n && same_box(bb, r2, c2, row as int, col as int) && (r2 != row
                || c2 != col) implies #[trigger] at(g, n as nat, r2, c2) != num by {
            lemma_box_range(bb, row as int, r2);
            lemma_box_range(bb, col as int, c2);
        }
    }
    true
}

/// Depth-first search with chronological backtracking. The first empty cell at
/// or after `from` takes each allowed value in ascending order, and the search
/// goes on from the next cell; a dead end writes `0` back.
///
/// Found: the grid holds the first solution of the grid it started from, in
/// row-major lexicographic order. Not found: the grid is as it was, and it has
/// no solution.
fn search(grid: &mut Vec<u8>, n: usize, b: usize, from: usize) -> (found: bool)
    requires
        geometry(n as nat, b as nat),
        consistent(old(grid)@, n as nat, b as nat),
        from <= n * n,
        forall|i: int| 0 <= i < from ==> old(grid)@[i] != 0,
    ensures
        found ==> first_solution(old(grid)@, final(grid)@, n as nat, b as nat),
        !found ==> final(grid)@ == old(grid)@ && forall|t: Seq<u8>|
            !is_solution(old(grid)@, t, n as nat, b as nat),
    decreases n * n - from,
{
    let ghost g0 = grid@;
    assert(n * n <= 65025) by (nonlinear_arith)
        requires
            n <= 255,
    ;
    let total = n * n;
    let mut pos = from;
    while pos < total && grid[pos] != 0
        invariant
            from <= pos <= total,
            total == n * n,
            grid@ == g0,
            g0.len() == total,
            forall|i: int| 0 <= i < pos ==> g0[i] != 0,
        decreases total - pos,
    {
        pos += 1;
    }
    if pos == total {
        proof {
            lemma_full_is_first(g0, n as nat, b as nat);
        }
        return true;
    }
    let row = pos / n;
    let col = pos % n;
    proof {
        lemma_coords(n as nat, pos as int);
        lemma_root_unique(n as nat, b as nat);
        assert forall|t: Seq<u8>| #[trigger] is_solution(g0, t, n as nat, b as nat) implies t[pos as int]
            >= 1 by {
            assert(at(t, n as nat, row as int, col as int) >= 1);
        }
    }
    let mut v: usize = 1;
    while v <= n
        invariant
            1 <= v <= n + 1,
            from <= pos,
            g0 == old(grid)@,
            geometry(n as nat, b as nat),
            root(n as nat) == b,
            is_square(n as nat),
            total == n * n,
            pos < total,
            row < n,
            col < n,
            idx(n as nat, row as int, col as int) == pos,
            grid@ == g0,
            g0.len() == total,
            g0[pos as int] == 0,
            consistent(g0, n as nat, b as nat),
            forall|i: int| 0 <= i < pos ==> g0[i] != 0,
            forall|t: Seq<u8>| #[trigger]
                is_solution(g0, t, n as nat, b as nat) ==> t[pos as int] >= v,
        decreases n + 1 - v,
    {
        let num = v as u8;
        if is_valid_placement(grid.as_slice(), n, row, col, num) {
            grid[pos] = num;
            let ghost g1 = grid@;
            proof {
                lemma_place_keeps_consistent(g0, n as nat, b as nat, row as int, col as int, num);
            }
            if search(grid, n, b, pos + 1) {
                proof {
                    let s = grid@;
                    assert forall|i: int| 0 <= i < g0.len() && #[trigger] g0[i] != 0 implies s[i]
                        == g0[i] by {
                        assert(g1[i] == g0[i]);
                    }
                    assert(is_solution(g0, s, n as nat, b as nat));
                    assert forall|t: Seq<u8>| #[trigger] is_solution(g0, t, n as nat, b as nat) implies lex_le(s, t) by {
                        if t[pos as int] == num {
                            assert(extends(g1, t));
                            assert(is_solution(g1, t, n as nat, b as nat));
                        } else {
                            assert(s[pos as int] == g1[pos as int]);
                            assert forall|j: int| 0 <= j < pos implies #[trigger] s[j] == t[j] by {
                                assert(g0[j] != 0);
                                assert(g1[j] == g0[j]);
                            }
                            assert(lex_lt_at(s, t, pos as int));
                        }
                    }
                }
                return true;
            }
            grid[pos] = 0;
            proof {
                assert(grid@ =~= g0);
                assert forall|t: Seq<u8>| #[trigger] is_solution(g0, t, n as nat, b as nat) implies t[pos as int] != num by {
                    if t[pos as int] == num {
                        assert(extends(g1, t));
                        assert(is_solution(g1, t, n as nat, b as nat));
                    }
                }
            }
        } else {
            proof {
                assert forall|t: Seq<u8>| #[trigger] is_solution(g0, t, n as nat, b as nat) implies t[pos as int] != num by {
                    if t[pos as int] == num {
                        assert(at(t, n as nat, row as int, col as int) == num);
                        lemma_placement_from_solution(g0, t, n as nat, b as nat, row as int, col as int, num);
                    }
                }
            }
        }
        v += 1;
    }
    proof {
        assert forall|t: Seq<u8>| !is_solution(g0, t, n as nat, b as nat) by {
            if is_solution(g0, t, n as nat, b as nat) {
                assert(at(t, n as nat, row as int, col as int) <= n);
            }
        }
    }
    false
}

/// What solving the cells `g` gives when the side of the grid is the square
/// root of their number.
pub open spec fn grid_outcome(g: Seq<u8>, r: Result<Vec<u8>, SudokuError>) -> bool {
    if is_square(g.len()) {
        solve_outcome(g, root(g.len()), r)
    } else {
        r == Err::<Vec<u8>, SudokuError>(SudokuError::MalformedInput)
    }
}

/// Whether every cell of `g` holds `0` or a value in `1..=n`, and no filled
/// cell shares its value with another cell of its row, column or box.
pub fn givens_consistent(g: &Vec<u8>, n: usize, b: usize) -> (r: bool)
    requires
        geometry(n as nat, b as nat),
        g@.len() == n * n,
    ensures
        r == consistent(g@, n as nat, b as nat),
{
    proof {
        lemma_root_unique(n as nat, b as nat);
    }
    assert(n * n <= 65025) by (nonlinear_arith)
        requires
            n <= 255,
    ;
    let mut r: usize = 0;
    while r < n
        invariant
            r <= n,
            geometry(n as nat, b as nat),
            is_square(n as nat),
            root(n as nat) == b,
            g@.len() == n * n,
            n * n <= 65025,
            forall|r2: int, c2: int|
                0 <= r2 < r && 0 <= c2 < n ==> #[trigger] at(g@, n as nat, r2, c2) <= n && (at(
                    g@,
                    n as nat,
                    r2,
                    c2,
                ) != 0 ==> placement_ok(g@, n as nat, b as nat, r2, c2, at(g@, n as nat, r2, c2))),
        decreases n - r,
    {
        let mut c: usize = 0;
        while c < n
            invariant
                r < n,
                c <= n,
                geometry(n as nat, b as nat),
                is_square(n as nat),
                root(n as nat) == b,
                g@.len() == n * n,
                n * n <= 65025,
                forall|r2: int, c2: int|
                    0 <= r2 < r && 0 <= c2 < n ==> #[trigger] at(g@, n as nat, r2, c2) <= n && (at(
                        g@,
                        n as nat,
                        r2,
                        c2,
                    ) != 0 ==> placement_ok(g@, n as nat, b as nat, r2, c2, at(g@, n as nat, r2, c2))),
                forall|c2: int|
                    0 <= c2 < c ==> #[trigger] at(g@, n as nat, r as int, c2) <= n && (at(
                        g@,
                        n as nat,
                        r as int,
                        c2,
                    ) != 0 ==> placement_ok(
                        g@,
                        n as nat,
                        b as nat,
                        r as int,
                        c2,
                        at(g@, n as nat, r as int, c2),
                    )),
            decreases n - c,
        {
            proof {
                lemma_idx(n as nat, r as int, c as int);
            }
            let v = g[r * n + c];
            assert(at(g@, n as nat, r as int, c as int) == v);
            if v as usize > n {
                return false;
            }
            if v != 0 && !is_valid_placement(g.as_slice(), n, r, c, v) {
                return false;
            }
            c += 1;
        }
        r += 1;
    }
    true
}

/// Solves the grid `matrix` of side `n`: the cells in row-major order, `0` for
/// an empty cell. On success the result is the first solution in row-major
/// lexicographic order, which the search reaches first.
pub fn solve_sudoku(matrix: Vec<u8>, n: usize) -> (r: Result<Vec<u8>, SudokuError>)
    ensures
        solve_outcome(matrix@, n as nat, r),
{
    let len = matrix.len();
    assert((n as u128) * (n as u128) <= u128::MAX) by (nonlinear_arith)
        requires
            n <= u64::MAX,
    ;
    if (n as u128) * (n as u128) != len as u128 {
        return Err(SudokuError::MalformedInput);
    }
    if n > 255 {
        return Err(SudokuError::GeometryUnsupported);
    }
    let b = match exact_sqrt(n) {
        Some(b) => b,
        None => {
            return Err(SudokuError::GeometryUnsupported);
        },
    };
    if !givens_consistent(&matrix, n, b) {
        return Err(SudokuError::MalformedInput);
    }
    let mut grid = matrix;
    if search(&mut grid, n, b, 0) {
        Ok(grid)
    } else {
        Err(SudokuError::Unsatisfiable)
    }
}

/// Solves a grid given only by its cells: their number must be the square of
/// the side.
pub fn solve_grid(cells: Vec<u8>) -> (r: Result<Vec<u8>, SudokuError>)
    ensures
        grid_outcome(cells@, r),
{
    match exact_sqrt(cells.len()) {
        Some(n) => solve_sudoku(cells, n),
        None => Err(SudokuError::MalformedInput),
    }
}

/// Solving is a function of the cells and the side: two outcomes that the
/// contract of `solve_sudoku` allows for the same input are the same.
pub proof fn lemma_solve_deterministic(
    g: Seq<u8>,
    n: nat,
    r1: Result<Vec<u8>, SudokuError>,
    r2: Result<Vec<u8>, SudokuError>,
)
    requires
        solve_outcome(g, n, r1),
        solve_outcome(g, n, r2),
    ensures
        r1 is Ok <==> r2 is Ok,
        r1 is Ok ==> r1->Ok_0@ == r2->Ok_0@,
        r1 is Err ==> r1 == r2,
{
    if r1 is Ok {
        let s1 = r1->Ok_0@;
        let s2 = r2->Ok_0@;
        assert(is_solution(g, s2, n, root(n)));
        assert(is_solution(g, s1, n, root(n)));
        lex_le_antisymmetric(s1, s2);
    }
}

/// A complete grid that breaks no rule is solved as it stands.
pub proof fn lemma_solved_grid_unchanged(g: Seq<u8>, n: nat, r: Result<Vec<u8>, SudokuError>)
    requires
        is_square(n),
        n <= 255,
        solved(g, n, root(n)),
        solve_outcome(g, n, r),
    ensures
        r is Ok,
        r->Ok_0@ == g,
{
    assert(is_solution(g, g, n, root(n)));
    let s = r->Ok_0@;
    assert(extends(g, s));
    assert forall|i: int| 0 <= i < g.len() implies s[i] == g[i] by {
        lemma_coords(n, i);
        assert(at(g, n, i / (n as int), i % (n as int)) >= 1);
    }
    assert(s =~= g);
}

/// A grid in which two filled cells of one row, one column or one box hold the
/// same value is never reported solved.
pub proof fn lemma_duplicate_never_solved(
    g: Seq<u8>,
    n: nat,
    r1: int,
    c1: int,
    r2: int,
    c2: int,
    r: Result<Vec<u8>, SudokuError>,
)
    requires
        0 <= r1 < n,
        0 <= c1 < n,
        0 <= r2 < n,
        0 <= c2 < n,
        r1 != r2 || c1 != c2,
        r1 == r2 || c1 == c2 || same_box(root(n), r1, c1, r2, c2),
        g.len() == n * n,
        at(g, n, r1, c1) != 0,
        at(g, n, r1, c1) == at(g, n, r2, c2),
        solve_outcome(g, n, r),
    ensures
        r is Err,
{
    if is_square(n) && n <= 255 {
        let v = at(g, n, r1, c1);
        assert(!placement_ok(g, n, root(n), r1, c1, v)) by {
            if r1 == r2 {
                assert(at(g, n, r1, c2) == v);
            } else if c1 == c2 {
                assert(at(g, n, r2, c1) == v);
            } else {
                assert(at(g, n, r2, c2) == v);
            }
        }
        assert(!consistent(g, n, root(n)));
    }
}

} // verus!
