//! The mathematical model of a flat, row-major N x N grid split into B x B boxes.

use vstd::prelude::*;
use vstd::arithmetic::div_mod::lemma_fundamental_div_mod;
use vstd::arithmetic::div_mod::lemma_fundamental_div_mod_converse;
use vstd::relations::injective_on;
use vstd::set_lib::{lemma_int_range, lemma_map_size, lemma_subset_equality, set_int_range};

verus! {

/// The square of `s`.
pub open spec fn sq(s: nat) -> nat {
    s * s
}

/// `x` is the square of some natural number.
pub open spec fn is_square(x: nat) -> bool {
    exists|s: nat| #[trigger] sq(s) == x
}

/// The exact square root of a square.
pub open spec fn root(x: nat) -> nat {
    choose|s: nat| #[trigger] sq(s) == x
}

/// Flat row-major index of cell `(r, c)` in a grid of side `n`.
pub open spec fn idx(n: nat, r: int, c: int) -> int {
    r * n + c
}

/// The value held by cell `(r, c)`.
pub open spec fn at(g: Seq<u8>, n: nat, r: int, c: int) -> u8 {
    g[idx(n, r, c)]
}

/// Cells `(r1, c1)` and `(r2, c2)` lie in the same `b` x `b` box.
pub open spec fn same_box(b: nat, r1: int, c1: int, r2: int, c2: int) -> bool {
    r1 / (b as int) == r2 / (b as int) && c1 / (b as int) == c2 / (b as int)
}

/// No cell other than `(row, col)` in its row, its column or its box holds `v`.
pub open spec fn placement_ok(g: Seq<u8>, n: nat, b: nat, row: int, col: int, v: u8) -> bool {
    &&& forall|c: int| 0 <= c < n && c != col ==> #[trigger] at(g, n, row, c) != v
    &&& forall|r: int| 0 <= r < n && r != row ==> #[trigger] at(g, n, r, col) != v
    &&& forall|r: int, c: int|
        0 <= r < n && 0 <= c < n && same_box(b, r, c, row, col) && (r != row || c != col)
            ==> #[trigger] at(g, n, r, c) != v
}

/// Every cell holds `0` (empty) or a value in `1..=n`, and no filled cell shares
/// its value with another cell of its row, column or box.
pub open spec fn consistent(g: Seq<u8>, n: nat, b: nat) -> bool {
    &&& g.len() == n * n
    &&& forall|r: int, c: int|
        0 <= r < n && 0 <= c < n ==> #[trigger] at(g, n, r, c) <= n && (at(g, n, r, c) != 0
            ==> placement_ok(g, n, b, r, c, at(g, n, r, c)))
}

/// Every cell holds a value in `1..=n` that no other cell of its row, column or
/// box holds.
pub open spec fn solved(g: Seq<u8>, n: nat, b: nat) -> bool {
    &&& g.len() == n * n
    &&& forall|r: int, c: int|
        0 <= r < n && 0 <= c < n ==> 1 <= #[trigger] at(g, n, r, c) <= n && placement_ok(
            g,
            n,
            b,
            r,
            c,
            at(g, n, r, c),
        )
}

/// `s` keeps every filled cell of `g`.
pub open spec fn extends(g: Seq<u8>, s: Seq<u8>) -> bool {
    &&& s.len() == g.len()
    &&& forall|i: int| 0 <= i < g.len() && #[trigger] g[i] != 0 ==> s[i] == g[i]
}

/// `s` is a solved grid that keeps every filled cell of `g`.
pub open spec fn is_solution(g: Seq<u8>, s: Seq<u8>, n: nat, b: nat) -> bool {
    extends(g, s) && solved(s, n, b)
}

/// `a` and `b` agree before position `k`, and `a` is smaller at `k`.
pub open spec fn lex_lt_at(a: Seq<u8>, b: Seq<u8>, k: int) -> bool {
    &&& 0 <= k < a.len()
    &&& k < b.len()
    &&& forall|j: int| 0 <= j < k ==> #[trigger] a[j] == b[j]
    &&& a[k] < b[k]
}

/// Lexicographic order on cell sequences.
pub open spec fn lex_le(a: Seq<u8>, b: Seq<u8>) -> bool {
    a == b || exists|k: int| lex_lt_at(a, b, k)
}

/// `s` is the solution of `g` that comes first in row-major lexicographic order.
pub open spec fn first_solution(g: Seq<u8>, s: Seq<u8>, n: nat, b: nat) -> bool {
    &&& is_solution(g, s, n, b)
    &&& forall|t: Seq<u8>| #[trigger] is_solution(g, t, n, b) ==> lex_le(s, t)
}

/// `n` is the side of a grid whose boxes have side `b`, small enough that each
/// value fits in a byte.
pub open spec fn geometry(n: nat, b: nat) -> bool {
    b * b == n && n <= 255
}

/// The flat index of a cell lies in the grid, and gives back its coordinates.
pub proof fn lemma_idx(n: nat, r: int, c: int)
    requires
        0 <= r < n,
        0 <= c < n,
    ensures
        0 <= idx(n, r, c) < n * n,
        idx(n, r, c) / (n as int) == r,
        idx(n, r, c) % (n as int) == c,
{
    lemma_fundamental_div_mod_converse(r * n + c, n as int, r, c);
    assert(0 <= r * n + c < n * n) by (nonlinear_arith)
        requires
            0 <= r < n,
            0 <= c < n,
    ;
}

/// Coordinates of flat index `i`.
pub proof fn lemma_coords(n: nat, i: int)
    requires
        0 <= i < n * n,
    ensures
        0 <= i / (n as int) < n,
        0 <= i % (n as int) < n,
        idx(n, i / (n as int), i % (n as int)) == i,
{
    assert(n > 0) by (nonlinear_arith)
        requires
            0 <= i < n * n,
    ;
    lemma_fundamental_div_mod(i, n as int);
    assert((i / (n as int)) * n == (n as int) * (i / (n as int))) by (nonlinear_arith);
    assert(0 <= i / (n as int) < n) by (nonlinear_arith)
        requires
            0 <= i < n * n,
            n > 0,
            i == (n as int) * (i / (n as int)) + i % (n as int),
            0 <= i % (n as int) < n,
    ;
}

/// The rows of the box holding row `row` run from `(row / b) * b` for `b` rows,
/// all inside the grid.
pub proof fn lemma_box_range(b: nat, row: int, r: int)
    requires
        b > 0,
        0 <= row < b * b,
    ensures
        0 <= (row / (b as int)) * b,
        (row / (b as int)) * b + b <= b * b,
        r / (b as int) == row / (b as int) <==> (row / (b as int)) * b <= r < (row / (b as int))
            * b + b,
{
    let q = row / (b as int);
    lemma_fundamental_div_mod(row, b as int);
    assert(0 <= q < b) by (nonlinear_arith)
        requires
            0 <= row < b * b,
            b > 0,
            row == (b as int) * q + row % (b as int),
            0 <= row % (b as int) < b,
    ;
    assert(0 <= q * b && q * b + b <= b * b) by (nonlinear_arith)
        requires
            0 <= q < b,
    ;
    lemma_fundamental_div_mod(r, b as int);
    if q * b <= r < q * b + b {
        lemma_fundamental_div_mod_converse(r, b as int, q, r - q * b);
    }
    if r / (b as int) == q {
        assert(q * b <= r < q * b + b) by (nonlinear_arith)
            requires
                r == (b as int) * (r / (b as int)) + r % (b as int),
                0 <= r % (b as int) < b,
                r / (b as int) == q,
        ;
    }
}

/// A natural number has at most one square root.
pub proof fn lemma_root_unique(x: nat, s: nat)
    requires
        s * s == x,
    ensures
        is_square(x),
        root(x) == s,
{
    assert(sq(s) == x);
    let t = root(x);
    assert(t * t == x);
    if t < s {
        assert(t * t < s * s) by (nonlinear_arith)
            requires
                t < s,
        ;
    } else if s < t {
        assert(s * s < t * t) by (nonlinear_arith)
            requires
                s < t,
        ;
    }
}

/// Reading a cell after one cell was written.
pub proof fn lemma_at_update(g: Seq<u8>, n: nat, row: int, col: int, v: u8, r: int, c: int)
    requires
        g.len() == n * n,
        0 <= row < n,
        0 <= col < n,
        0 <= r < n,
        0 <= c < n,
    ensures
        at(g.update(idx(n, row, col), v), n, r, c) == (if r == row && c == col {
            v
        } else {
            at(g, n, r, c)
        }),
{
    lemma_idx(n, row, col);
    lemma_idx(n, r, c);
}

/// A placement that a solution extending `g` makes is allowed in `g` already.
pub proof fn lemma_placement_from_solution(
    g: Seq<u8>,
    t: Seq<u8>,
    n: nat,
    b: nat,
    row: int,
    col: int,
    v: u8,
)
    requires
        extends(g, t),
        g.len() == n * n,
        0 <= row < n,
        0 <= col < n,
        v >= 1,
        placement_ok(t, n, b, row, col, v),
    ensures
        placement_ok(g, n, b, row, col, v),
{
    assert forall|c: int| 0 <= c < n && c != col implies #[trigger] at(g, n, row, c) != v by {
        assert(at(t, n, row, c) != v);
        lemma_idx(n, row, c);
    }
    assert forall|r: int| 0 <= r < n && r != row implies #[trigger] at(g, n, r, col) != v by {
        assert(at(t, n, r, col) != v);
        lemma_idx(n, r, col);
    }
    assert forall|r: int, c: int|
        0 <= r < n && 0 <= c < n && same_box(b, r, c, row, col) && (r != row || c != col) implies #[trigger] at(
        g,
        n,
        r,
        c,
    ) != v by {
        assert(at(t, n, r, c) != v);
        lemma_idx(n, r, c);
    }
}

/// Writing an allowed value into an empty cell keeps a grid consistent.
pub proof fn lemma_place_keeps_consistent(g: Seq<u8>, n: nat, b: nat, row: int, col: int, v: u8)
    requires
        consistent(g, n, b),
        0 <= row < n,
        0 <= col < n,
        at(g, n, row, col) == 0,
        1 <= v <= n,
        placement_ok(g, n, b, row, col, v),
    ensures
        consistent(g.update(idx(n, row, col), v), n, b),
{
    let g1 = g.update(idx(n, row, col), v);
    lemma_idx(n, row, col);
    assert forall|r: int, c: int| 0 <= r < n && 0 <= c < n implies #[trigger] at(g1, n, r, c) <= n
        && (at(g1, n, r, c) != 0 ==> placement_ok(g1, n, b, r, c, at(g1, n, r, c))) by {
        lemma_at_update(g, n, row, col, v, r, c);
        let w = at(g1, n, r, c);
        if w != 0 {
            assert forall|c2: int| 0 <= c2 < n && c2 != c implies #[trigger] at(g1, n, r, c2) != w by {
                lemma_at_update(g, n, row, col, v, r, c2);
                if r == row && c == col {
                } else if r == row && c2 == col {
                    assert(at(g, n, row, c) != v);
                }
            }
            assert forall|r2: int| 0 <= r2 < n && r2 != r implies #[trigger] at(g1, n, r2, c) != w by {
                lemma_at_update(g, n, row, col, v, r2, c);
                if r == row && c == col {
                } else if c == col && r2 == row {
                    assert(at(g, n, r, col) != v);
                }
            }
            assert forall|r2: int, c2: int|
                0 <= r2 < n && 0 <= c2 < n && same_box(b, r2, c2, r, c) && (r2 != r || c2 != c) implies #[trigger] at(
                g1,
                n,
                r2,
                c2,
            ) != w by {
                lemma_at_update(g, n, row, col, v, r2, c2);
                if r == row && c == col {
                } else if r2 == row && c2 == col {
                    assert(at(g, n, r, c) != v);
                }
            }
        }
    }
}

/// A full consistent grid is its own first solution.
pub proof fn lemma_full_is_first(g: Seq<u8>, n: nat, b: nat)
    requires
        consistent(g, n, b),
        forall|i: int| 0 <= i < g.len() ==> g[i] != 0,
    ensures
        first_solution(g, g, n, b),
{
    assert forall|r: int, c: int| 0 <= r < n && 0 <= c < n implies 1 <= #[trigger] at(g, n, r, c)
        <= n && placement_ok(g, n, b, r, c, at(g, n, r, c)) by {
        lemma_idx(n, r, c);
    }
    assert forall|t: Seq<u8>| #[trigger] is_solution(g, t, n, b) implies lex_le(g, t) by {
        assert(t =~= g);
    }
}

/// Lexicographic order is antisymmetric.
pub proof fn lex_le_antisymmetric(a: Seq<u8>, b: Seq<u8>)
    requires
        lex_le(a, b),
        lex_le(b, a),
    ensures
        a == b,
{
    if a != b {
        let k1 = choose|k: int| lex_lt_at(a, b, k);
        let k2 = choose|k: int| lex_lt_at(b, a, k);
        if k1 < k2 {
            assert(b[k1] == a[k1]);
        } else if k2 < k1 {
            assert(a[k2] == b[k2]);
        }
    }
}

/// Row `r` holds `v`.
pub open spec fn row_has(g: Seq<u8>, n: nat, r: int, v: u8) -> bool {
    exists|c: int| 0 <= c < n && #[trigger] at(g, n, r, c) == v
}

/// Column `c` holds `v`.
pub open spec fn col_has(g: Seq<u8>, n: nat, c: int, v: u8) -> bool {
    exists|r: int| 0 <= r < n && #[trigger] at(g, n, r, c) == v
}

/// The box in box-row `br` and box-column `bc` holds `v`.
pub open spec fn box_has(g: Seq<u8>, n: nat, b: nat, br: int, bc: int, v: u8) -> bool {
    exists|r: int, c: int|
        br * b <= r < br * b + b && bc * b <= c < bc * b + b && #[trigger] at(g, n, r, c) == v
}

/// `n` distinct values drawn from `1..=n` take every value of `1..=n`.
proof fn lemma_pigeonhole(f: spec_fn(int) -> int, n: int, v: int)
    requires
        1 <= v <= n,
        forall|k: int| 0 <= k < n ==> 1 <= #[trigger] f(k) <= n,
        forall|k1: int, k2: int|
            0 <= k1 < n && 0 <= k2 < n && k1 != k2 ==> #[trigger] f(k1) != #[trigger] f(k2),
    ensures
        exists|k: int| 0 <= k < n && #[trigger] f(k) == v,
{
    let dom = set_int_range(0, n);
    let img = dom.map(f);
    let values = set_int_range(1, n + 1);
    lemma_int_range(0, n);
    lemma_int_range(1, n + 1);
    assert(injective_on(f, dom));
    lemma_map_size(dom, img, f);
    assert(img.subset_of(values));
    lemma_subset_equality(img, values);
    assert(values.contains(v));
    assert(img.contains(v));
}

/// Cell `k` of box `(br, bc)`, counted row by row inside the box.
proof fn lemma_box_cell(n: nat, b: nat, br: int, bc: int, k: int)
    requires
        b * b == n,
        0 <= br < b,
        0 <= bc < b,
        0 <= k < n,
    ensures
        0 <= k / (b as int) < b,
        0 <= k % (b as int) < b,
        0 <= br * b + k / (b as int) < n,
        0 <= bc * b + k % (b as int) < n,
        (br * b + k / (b as int)) / (b as int) == br,
        (bc * b + k % (b as int)) / (b as int) == bc,
        k == (b as int) * (k / (b as int)) + k % (b as int),
{
    lemma_fundamental_div_mod(k, b as int);
    let q = k / (b as int);
    let m = k % (b as int);
    assert(0 <= q < b) by (nonlinear_arith)
        requires
            0 <= k < b * b,
            k == (b as int) * q + m,
            0 <= m < b,
    ;
    assert(0 <= br * b + q < b * b && 0 <= bc * b + m < b * b) by (nonlinear_arith)
        requires
            0 <= q < b,
            0 <= m < b,
            0 <= br < b,
            0 <= bc < b,
    ;
    lemma_fundamental_div_mod_converse(br * b + q, b as int, br, q);
    lemma_fundamental_div_mod_converse(bc * b + m, b as int, bc, m);
}

proof fn lemma_row_has(g: Seq<u8>, n: nat, b: nat, v: u8, r: int)
    requires
        solved(g, n, b),
        1 <= v <= n,
        0 <= r < n,
    ensures
        row_has(g, n, r, v),
{
    let f = |k: int| at(g, n, r, k) as int;
    assert forall|k1: int, k2: int| 0 <= k1 < n && 0 <= k2 < n && k1 != k2 implies #[trigger] f(k1)
        != #[trigger] f(k2) by {
        assert(placement_ok(g, n, b, r, k1, at(g, n, r, k1)));
    }
    lemma_pigeonhole(f, n as int, v as int);
    let k = choose|k: int| 0 <= k < n && #[trigger] f(k) == v;
    assert(at(g, n, r, k) == v);
}

proof fn lemma_col_has(g: Seq<u8>, n: nat, b: nat, v: u8, c: int)
    requires
        solved(g, n, b),
        1 <= v <= n,
        0 <= c < n,
    ensures
        col_has(g, n, c, v),
{
    let f = |k: int| at(g, n, k, c) as int;
    assert forall|k1: int, k2: int| 0 <= k1 < n && 0 <= k2 < n && k1 != k2 implies #[trigger] f(k1)
        != #[trigger] f(k2) by {
        assert(placement_ok(g, n, b, k1, c, at(g, n, k1, c)));
    }
    lemma_pigeonhole(f, n as int, v as int);
    let k = choose|k: int| 0 <= k < n && #[trigger] f(k) == v;
    assert(at(g, n, k, c) == v);
}

proof fn lemma_box_has(g: Seq<u8>, n: nat, b: nat, v: u8, br: int, bc: int)
    requires
        b * b == n,
        solved(g, n, b),
        1 <= v <= n,
        0 <= br < b,
        0 <= bc < b,
    ensures
        box_has(g, n, b, br, bc, v),
{
    let f = |k: int| at(g, n, br * b + k / (b as int), bc * b + k % (b as int)) as int;
    assert forall|k: int| 0 <= k < n implies 1 <= #[trigger] f(k) <= n by {
        lemma_box_cell(n, b, br, bc, k);
    }
    assert forall|k1: int, k2: int| 0 <= k1 < n && 0 <= k2 < n && k1 != k2 implies #[trigger] f(k1)
        != #[trigger] f(k2) by {
        lemma_box_cell(n, b, br, bc, k1);
        lemma_box_cell(n, b, br, bc, k2);
        let r1 = br * b + k1 / (b as int);
        let c1 = bc * b + k1 % (b as int);
        let r2 = br * b + k2 / (b as int);
        let c2 = bc * b + k2 % (b as int);
        assert(placement_ok(g, n, b, r1, c1, at(g, n, r1, c1)));
        assert(same_box(b, r2, c2, r1, c1));
    }
    lemma_pigeonhole(f, n as int, v as int);
    let k = choose|k: int| 0 <= k < n && #[trigger] f(k) == v;
    lemma_box_cell(n, b, br, bc, k);
    assert(at(g, n, br * b + k / (b as int), bc * b + k % (b as int)) == v);
}

/// In a solved grid every row, every column and every box holds each value of
/// `1..=n`; by `solved`, no two of its cells hold the same one, so it holds
/// each exactly once.
pub proof fn lemma_solved_holds_each_value(g: Seq<u8>, n: nat, b: nat, v: u8)
    requires
        geometry(n, b),
        solved(g, n, b),
        1 <= v <= n,
    ensures
        forall|r: int| 0 <= r < n ==> #[trigger] row_has(g, n, r, v),
        forall|c: int| 0 <= c < n ==> #[trigger] col_has(g, n, c, v),
        forall|br: int, bc: int| 0 <= br < b && 0 <= bc < b ==> #[trigger] box_has(g, n, b, br, bc, v),
{
    assert forall|r: int| 0 <= r < n implies #[trigger] row_has(g, n, r, v) by {
        lemma_row_has(g, n, b, v, r);
    }
    assert forall|c: int| 0 <= c < n implies #[trigger] col_has(g, n, c, v) by {
        lemma_col_has(g, n, b, v, c);
    }
    assert forall|br: int, bc: int| 0 <= br < b && 0 <= bc < b implies #[trigger] box_has(
        g,
        n,
        b,
        br,
        bc,
        v,
    ) by {
        lemma_box_has(g, n, b, v, br, bc);
    }
}

} // verus!
