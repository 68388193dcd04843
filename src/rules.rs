use vstd::prelude::*;

verus! {

/// A grid is modelled as a sequence of rows, each a sequence of cell values;
/// 0 marks an empty cell and 1 to 9 a placed digit.
pub type Grid = Seq<Seq<u32>>;

/// No non-zero value occurs twice in `s`; empty cells never clash.
pub open spec fn no_repeat(s: Seq<u32>) -> bool {
    forall|i: int, j: int| 0 <= i < j < s.len() && s[i] != 0 ==> s[i] != s[j]
}

/// The grid has nine rows of nine cells each.
pub open spec fn is_grid(g: Grid) -> bool {
    g.len() == 9 && forall|r: int| 0 <= r < 9 ==> #[trigger] g[r].len() == 9
}

/// Every cell holds 0 (empty) or a digit from 1 to 9.
pub open spec fn digits_in_range(g: Grid) -> bool {
    forall|r: int, c: int| 0 <= r < 9 && 0 <= c < 9 ==> #[trigger] g[r][c] <= 9
}

/// Column `c` read from top to bottom.
pub open spec fn column_of(g: Grid, c: int) -> Seq<u32> {
    Seq::new(9, |r: int| g[r][c])
}

/// The 3x3 region in region column `x` and region row `y`, read row by row.
pub open spec fn region_of(g: Grid, x: int, y: int) -> Seq<u32> {
    Seq::new(9, |k: int| g[y * 3 + k / 3][x * 3 + k % 3])
}

/// No row repeats a digit.
pub open spec fn rows_ok(g: Grid) -> bool {
    forall|r: int| 0 <= r < 9 ==> no_repeat(#[trigger] g[r])
}

/// No column repeats a digit.
pub open spec fn columns_ok(g: Grid) -> bool {
    forall|c: int| 0 <= c < 9 ==> no_repeat(#[trigger] column_of(g, c))
}

/// No 3x3 region repeats a digit.
pub open spec fn regions_ok(g: Grid) -> bool {
    forall|x: int, y: int| 0 <= x < 3 && 0 <= y < 3 ==> no_repeat(#[trigger] region_of(g, x, y))
}

/// No placed digit clashes with another in the same row, column or region.
/// Empty cells are allowed anywhere: the grid need not be complete.
pub open spec fn valid(g: Grid) -> bool {
    rows_ok(g) && columns_ok(g) && regions_ok(g)
}

/// Every cell at or after row-major place `from` holds a digit.
pub open spec fn filled_from(g: Grid, from: int) -> bool {
    forall|r: int, c: int| 0 <= r < 9 && 0 <= c < 9 && r * 9 + c >= from ==> #[trigger] g[r][c] != 0
}

/// `t` keeps every digit of `s`, possibly with some cells of `s` emptied.
pub open spec fn thins(t: Seq<u32>, s: Seq<u32>) -> bool {
    t.len() == s.len() && forall|i: int| 0 <= i < s.len() ==> #[trigger] t[i] == s[i] || t[i] == 0
}

/// Every cell of `h` equals the one of `g` or is empty.
pub open spec fn grid_thins(h: Grid, g: Grid) -> bool {
    forall|r: int, c: int| 0 <= r < 9 && 0 <= c < 9 ==> #[trigger] h[r][c] == g[r][c] || h[r][c] == 0
}

/// `g` with the cell at row `r`, column `c` set to `v`.
pub open spec fn with_cell(g: Grid, r: int, c: int, v: u32) -> Grid {
    g.update(r, g[r].update(c, v))
}

/// `s` solves `g` from row-major place `from` on: it is a valid grid of digits,
/// full from `from` on, that keeps every digit of `g` and every cell of `g`
/// before `from`.
pub open spec fn completes(s: Grid, g: Grid, from: int) -> bool {
    &&& is_grid(s)
    &&& digits_in_range(s)
    &&& valid(s)
    &&& filled_from(s, from)
    &&& forall|r: int, c: int|
        0 <= r < 9 && 0 <= c < 9 && (g[r][c] != 0 || r * 9 + c < from) ==> #[trigger] s[r][c]
            == g[r][c]
}

/// Some grid solves `g` from place `from` on.
pub open spec fn solvable_from(g: Grid, from: int) -> bool {
    exists|s: Grid| completes(s, g, from)
}

/// `f` and `s` agree on every cell.
pub open spec fn same_cells(f: Grid, s: Grid) -> bool {
    forall|r: int, c: int| 0 <= r < 9 && 0 <= c < 9 ==> #[trigger] f[r][c] == s[r][c]
}

/// `f` comes strictly before `s` when the cells are compared in row-major
/// order: they agree up to some cell, where `f` holds the smaller value.
pub open spec fn precedes(f: Grid, s: Grid) -> bool {
    exists|r0: int, c0: int|
        0 <= r0 < 9 && 0 <= c0 < 9 && #[trigger] f[r0][c0] < s[r0][c0] && forall|r: int, c: int|
            0 <= r < 9 && 0 <= c < 9 && r * 9 + c < r0 * 9 + c0 ==> #[trigger] f[r][c] == s[r][c]
}

/// `s` is the first of all grids that solve `g` from place `from` on, in
/// row-major order of their cells.
pub open spec fn first_solution(s: Grid, g: Grid, from: int) -> bool {
    &&& completes(s, g, from)
    &&& forall|t: Grid| #[trigger] completes(t, g, from) ==> same_cells(s, t) || precedes(s, t)
}

/// Appending one value keeps a sequence free of repeats exactly when the value
/// is empty or not yet present.
pub proof fn lemma_no_repeat_push(s: Seq<u32>, d: u32)
    ensures
        no_repeat(s.push(d)) == (no_repeat(s) && (d == 0 || !s.contains(d))),
{
    let t = s.push(d);
    if no_repeat(t) {
        assert forall|i: int, j: int| 0 <= i < j < s.len() && s[i] != 0 implies s[i] != s[j] by {
            assert(t[i] == s[i] && t[j] == s[j]);
        }
        if d != 0 && s.contains(d) {
            let k = choose|k: int| 0 <= k < s.len() && s[k] == d;
            assert(t[k] == d && t[s.len() as int] == d);
        }
    }
    if no_repeat(s) && (d == 0 || !s.contains(d)) {
        assert forall|i: int, j: int| 0 <= i < j < t.len() && t[i] != 0 implies t[i] != t[j] by {
            if j == s.len() {
                assert(t[i] == s[i]);
                if t[i] == d {
                    assert(s.contains(d));
                }
            } else {
                assert(t[i] == s[i] && t[j] == s[j]);
            }
        }
    }
}

/// Emptying cells never creates a repeat.
pub proof fn lemma_no_repeat_thins(t: Seq<u32>, s: Seq<u32>)
    requires
        thins(t, s),
        no_repeat(s),
    ensures
        no_repeat(t),
{
    assert forall|i: int, j: int| 0 <= i < j < t.len() && t[i] != 0 implies t[i] != t[j] by {
        assert(t[i] == s[i]);
        assert(t[j] == s[j] || t[j] == 0);
    }
}

/// Emptying cells of a valid grid leaves it valid.
pub proof fn lemma_valid_thins(h: Grid, g: Grid)
    requires
        is_grid(h),
        is_grid(g),
        grid_thins(h, g),
        valid(g),
    ensures
        valid(h),
{
    assert forall|r: int| 0 <= r < 9 implies no_repeat(#[trigger] h[r]) by {
        assert(thins(h[r], g[r]));
        lemma_no_repeat_thins(h[r], g[r]);
    }
    assert forall|c: int| 0 <= c < 9 implies no_repeat(#[trigger] column_of(h, c)) by {
        assert(thins(column_of(h, c), column_of(g, c)));
        lemma_no_repeat_thins(column_of(h, c), column_of(g, c));
    }
    assert forall|x: int, y: int| 0 <= x < 3 && 0 <= y < 3 implies no_repeat(
        #[trigger] region_of(h, x, y),
    ) by {
        assert(thins(region_of(h, x, y), region_of(g, x, y)));
        lemma_no_repeat_thins(region_of(h, x, y), region_of(g, x, y));
    }
}

/// Rearranging a sequence does not change whether it repeats a non-zero value:
/// the check of a row gives the same answer for every order of its cells.
/// `perm` maps each place of `t` to the place of `s` it was taken from, and
/// takes every place exactly once.
pub proof fn lemma_no_repeat_permutation(s: Seq<u32>, t: Seq<u32>, perm: Seq<int>)
    requires
        t.len() == s.len(),
        perm.len() == s.len(),
        forall|i: int| 0 <= i < perm.len() ==> 0 <= #[trigger] perm[i] < s.len(),
        forall|i: int, j: int| 0 <= i < j < perm.len() ==> perm[i] != perm[j],
        forall|k: int| 0 <= k < s.len() ==> #[trigger] perm.contains(k),
        forall|i: int| 0 <= i < t.len() ==> #[trigger] t[i] == s[perm[i]],
    ensures
        no_repeat(s) == no_repeat(t),
{
    if no_repeat(s) {
        assert forall|i: int, j: int| 0 <= i < j < t.len() && t[i] != 0 implies t[i] != t[j] by {
            assert(t[i] == s[perm[i]] && t[j] == s[perm[j]]);
            assert(perm[i] != perm[j]);
        }
    }
    if no_repeat(t) {
        assert forall|a: int, b: int| 0 <= a < b < s.len() && s[a] != 0 implies s[a] != s[b] by {
            assert(perm.contains(a) && perm.contains(b));
            let i = choose|i: int| 0 <= i < perm.len() && perm[i] == a;
            let j = choose|j: int| 0 <= j < perm.len() && perm[j] == b;
            assert(t[i] == s[a] && t[j] == s[b]);
            assert(i != j);
            if s[a] == s[b] {
                if i < j {
                    assert(t[i] != 0 && t[i] == t[j]);
                } else {
                    assert(t[j] != 0 && t[j] == t[i]);
                }
            }
        }
    }
}

/// A grid with every cell empty is valid.
pub proof fn lemma_empty_grid_valid(g: Grid)
    requires
        is_grid(g),
        forall|r: int, c: int| 0 <= r < 9 && 0 <= c < 9 ==> #[trigger] g[r][c] == 0,
    ensures
        valid(g),
{
    assert forall|r: int| 0 <= r < 9 implies no_repeat(#[trigger] g[r]) by {
        assert forall|i: int, j: int| 0 <= i < j < g[r].len() && g[r][i] != 0 implies g[r][i]
            != g[r][j] by {}
    }
    assert forall|c: int| 0 <= c < 9 implies no_repeat(#[trigger] column_of(g, c)) by {
        let col = column_of(g, c);
        assert forall|i: int, j: int| 0 <= i < j < col.len() && col[i] != 0 implies col[i]
            != col[j] by {
            assert(col[i] == g[i][c]);
        }
    }
    assert forall|x: int, y: int| 0 <= x < 3 && 0 <= y < 3 implies no_repeat(
        #[trigger] region_of(g, x, y),
    ) by {
        let reg = region_of(g, x, y);
        assert forall|i: int, j: int| 0 <= i < j < reg.len() && reg[i] != 0 implies reg[i]
            != reg[j] by {
            assert(reg[i] == g[y * 3 + i / 3][x * 3 + i % 3]);
        }
    }
}

/// The same non-zero digit twice in one row makes a grid invalid.
pub proof fn lemma_row_duplicate_invalid(g: Grid, r: int, c1: int, c2: int)
    requires
        is_grid(g),
        0 <= r < 9,
        0 <= c1 < 9,
        0 <= c2 < 9,
        c1 != c2,
        g[r][c1] != 0,
        g[r][c1] == g[r][c2],
    ensures
        !valid(g),
{
    if c1 < c2 {
        assert(!no_repeat(g[r]));
    } else {
        assert(g[r][c2] != 0 && g[r][c2] == g[r][c1]);
        assert(!no_repeat(g[r]));
    }
}

/// The same non-zero digit twice in one column makes a grid invalid.
pub proof fn lemma_column_duplicate_invalid(g: Grid, c: int, r1: int, r2: int)
    requires
        is_grid(g),
        0 <= c < 9,
        0 <= r1 < 9,
        0 <= r2 < 9,
        r1 != r2,
        g[r1][c] != 0,
        g[r1][c] == g[r2][c],
    ensures
        !valid(g),
{
    let col = column_of(g, c);
    assert(col[r1] == g[r1][c] && col[r2] == g[r2][c]);
    assert(!no_repeat(col));
}

/// The same non-zero digit twice in one 3x3 region makes a grid invalid.
pub proof fn lemma_region_duplicate_invalid(g: Grid, r1: int, c1: int, r2: int, c2: int)
    requires
        is_grid(g),
        0 <= r1 < 9,
        0 <= c1 < 9,
        0 <= r2 < 9,
        0 <= c2 < 9,
        r1 / 3 == r2 / 3,
        c1 / 3 == c2 / 3,
        r1 != r2 || c1 != c2,
        g[r1][c1] != 0,
        g[r1][c1] == g[r2][c2],
    ensures
        !valid(g),
{
    let x = c1 / 3;
    let y = r1 / 3;
    let reg = region_of(g, x, y);
    let k1 = (r1 % 3) * 3 + c1 % 3;
    let k2 = (r2 % 3) * 3 + c2 % 3;
    assert(reg[k1] == g[r1][c1]);
    assert(reg[k2] == g[r2][c2]);
    assert(k1 != k2);
    assert(!no_repeat(reg));
}

/// Two equal digits in different rows, different columns and different 3x3
/// regions, with every other cell empty, leave a grid valid.
pub proof fn lemma_apart_pair_valid(g: Grid, r1: int, c1: int, r2: int, c2: int)
    requires
        is_grid(g),
        0 <= r1 < 9,
        0 <= c1 < 9,
        0 <= r2 < 9,
        0 <= c2 < 9,
        r1 != r2,
        c1 != c2,
        r1 / 3 != r2 / 3 || c1 / 3 != c2 / 3,
        g[r1][c1] == g[r2][c2],
        forall|r: int, c: int|
            0 <= r < 9 && 0 <= c < 9 && !(r == r1 && c == c1) && !(r == r2 && c == c2)
                ==> #[trigger] g[r][c] == 0,
    ensures
        valid(g),
{
    assert forall|r: int| 0 <= r < 9 implies no_repeat(#[trigger] g[r]) by {
        assert forall|i: int, j: int| 0 <= i < j < g[r].len() && g[r][i] != 0 implies g[r][i]
            != g[r][j] by {}
    }
    assert forall|c: int| 0 <= c < 9 implies no_repeat(#[trigger] column_of(g, c)) by {
        let col = column_of(g, c);
        assert forall|i: int, j: int| 0 <= i < j < col.len() && col[i] != 0 implies col[i]
            != col[j] by {
            assert(col[i] == g[i][c] && col[j] == g[j][c]);
        }
    }
    assert forall|x: int, y: int| 0 <= x < 3 && 0 <= y < 3 implies no_repeat(
        #[trigger] region_of(g, x, y),
    ) by {
        let reg = region_of(g, x, y);
        assert forall|i: int, j: int| 0 <= i < j < reg.len() && reg[i] != 0 implies reg[i]
            != reg[j] by {
            let ri = y * 3 + i / 3;
            let ci = x * 3 + i % 3;
            let rj = y * 3 + j / 3;
            let cj = x * 3 + j % 3;
            assert(reg[i] == g[ri][ci] && reg[j] == g[rj][cj]);
            if reg[i] == reg[j] {
                assert(ri / 3 == y && rj / 3 == y && ci / 3 == x && cj / 3 == x);
            }
        }
    }
}

} // verus!
