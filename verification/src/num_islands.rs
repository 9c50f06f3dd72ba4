//! Number of islands: connected groups of `'1'` cells in a grid, where cells touch
//! through their four sides. Each island is sunk with a depth-first flood fill.

use vstd::prelude::*;

verus! {

// ---------------------------------------------------------------------------
// Specification
// ---------------------------------------------------------------------------

/// The characters of a grid, row by row.
pub open spec fn cells(grid: &Vec<Vec<char>>) -> Seq<Seq<char>> {
    grid@.map_values(|row: Vec<char>| row@)
}

/// Cell `p` (row, column) lies in the grid and holds `'1'`.
pub open spec fn is_land(g: Seq<Seq<char>>, p: (int, int)) -> bool {
    &&& 0 <= p.0 < g.len()
    &&& 0 <= p.1 < g[p.0].len()
    &&& g[p.0][p.1] == '1'
}

/// The two cells share a side.
pub open spec fn adjacent(a: (int, int), b: (int, int)) -> bool {
    ||| a.0 == b.0 && (a.1 - b.1 == 1 || b.1 - a.1 == 1)
    ||| a.1 == b.1 && (a.0 - b.0 == 1 || b.0 - a.0 == 1)
}

/// A non-empty walk over land cells, each step to a side neighbour.
pub open spec fn is_land_path(g: Seq<Seq<char>>, path: Seq<(int, int)>) -> bool {
    &&& path.len() >= 1
    &&& forall|i: int| 0 <= i < path.len() ==> is_land(g, #[trigger] path[i])
    &&& forall|i: int| 0 <= i < path.len() - 1 ==> adjacent(#[trigger] path[i], path[i + 1])
}

/// `a` and `b` lie on the same island of `g`.
pub open spec fn connected(g: Seq<Seq<char>>, a: (int, int), b: (int, int)) -> bool {
    exists|path: Seq<(int, int)>|
        #[trigger] is_land_path(g, path) && path[0] == a && path[path.len() - 1] == b
}

/// `q` comes before `p` when the cells of the first `n` columns are read row by row.
pub open spec fn scanned_before(q: (int, int), p: (int, int), n: int) -> bool {
    &&& 0 <= q.0
    &&& 0 <= q.1 < n
    &&& (q.0 < p.0 || (q.0 == p.0 && q.1 < p.1))
}

/// Land cell `p` is the first cell of its island among the cells of the first `n`
/// columns, read row by row.
pub open spec fn is_first_of_island(g: Seq<Seq<char>>, n: int, p: (int, int)) -> bool {
    &&& 0 <= p.1 < n
    &&& is_land(g, p)
    &&& forall|q: (int, int)| #[trigger] scanned_before(q, p, n) && is_land(g, q) ==> !connected(g, q, p)
}

/// How many of the cells `(r, 0) .. (r, c)` are the first of their island.
pub open spec fn firsts_in_row(g: Seq<Seq<char>>, n: int, r: int, c: int) -> nat
    decreases c,
{
    if c <= 0 {
        0
    } else {
        firsts_in_row(g, n, r, c - 1) + if is_first_of_island(g, n, (r, c - 1)) {
            1nat
        } else {
            0nat
        }
    }
}

/// How many cells of rows `0 .. r` (first `n` columns) are the first of their island.
pub open spec fn firsts_before_row(g: Seq<Seq<char>>, n: int, r: int) -> nat
    decreases r,
{
    if r <= 0 {
        0
    } else {
        firsts_before_row(g, n, r - 1) + firsts_in_row(g, n, r - 1, n)
    }
}

/// The number of islands of `g` that reach into the first `g[0].len()` columns: each
/// is counted once, at its first cell read row by row.
pub open spec fn island_count(g: Seq<Seq<char>>) -> nat {
    if g.len() == 0 {
        0
    } else {
        firsts_before_row(g, g[0].len() as int, g.len() as int)
    }
}

/// Two different first cells never lie on the same island, so no island is counted twice.
pub proof fn lemma_firsts_distinct_islands(g: Seq<Seq<char>>, n: int, a: (int, int), b: (int, int))
    requires
        is_first_of_island(g, n, a),
        is_first_of_island(g, n, b),
        a != b,
    ensures
        !connected(g, a, b),
{
    if connected(g, a, b) {
        if scanned_before(a, b, n) {
            assert(!connected(g, a, b));
        } else {
            assert(scanned_before(b, a, n));
            lemma_connected_sym(g, a, b);
        }
    }
}

/// Every land cell that is read lies on the island of some first cell, so every island
/// that reaches the read columns is counted.
pub proof fn lemma_every_island_counted(g: Seq<Seq<char>>, n: int, x: (int, int))
    requires
        0 <= x.1 < n,
        is_land(g, x),
    ensures
        exists|f: (int, int)| #[trigger] is_first_of_island(g, n, f) && connected(g, f, x),
    decreases x.0, x.1,
{
    lemma_connected_refl(g, x);
    if !is_first_of_island(g, n, x) {
        let q = choose|q: (int, int)| #[trigger] scanned_before(q, x, n) && is_land(g, q) && connected(g, q, x);
        lemma_every_island_counted(g, n, q);
        let f = choose|f: (int, int)| #[trigger] is_first_of_island(g, n, f) && connected(g, f, q);
        lemma_connected_trans(g, f, q, x);
    } else {
        assert(is_first_of_island(g, n, x) && connected(g, x, x));
    }
}

/// The first cells of islands among rows before `r`, and cells `(r, 0) .. (r, c)`.
pub open spec fn firsts_upto(g: Seq<Seq<char>>, n: int, r: int, c: int) -> Set<(int, int)> {
    Set::new(|p: (int, int)| is_first_of_island(g, n, p) && (p.0 < r || (p.0 == r && p.1 < c)))
}

/// The first cells of islands anywhere in the grid, among the first `n` columns.
pub open spec fn first_cells(g: Seq<Seq<char>>, n: int) -> Set<(int, int)> {
    Set::new(|p: (int, int)| is_first_of_island(g, n, p))
}

proof fn lemma_firsts_upto_count(g: Seq<Seq<char>>, n: int, r: int, c: int)
    requires
        0 <= r,
        0 <= c <= n,
    ensures
        firsts_upto(g, n, r, c).finite(),
        firsts_upto(g, n, r, c).len() == firsts_before_row(g, n, r) + firsts_in_row(g, n, r, c),
    decreases r, c,
{
    if c > 0 {
        lemma_firsts_upto_count(g, n, r, c - 1);
        let prev = firsts_upto(g, n, r, c - 1);
        if is_first_of_island(g, n, (r, c - 1)) {
            assert(firsts_upto(g, n, r, c) =~= prev.insert((r, c - 1)));
        } else {
            assert(firsts_upto(g, n, r, c) =~= prev);
        }
    } else if r > 0 {
        lemma_firsts_upto_count(g, n, r - 1, n);
        assert(firsts_upto(g, n, r, 0) =~= firsts_upto(g, n, r - 1, n));
    } else {
        assert(firsts_upto(g, n, 0, 0) =~= Set::<(int, int)>::empty());
    }
}

/// The island count is the number of first cells of islands over every row of the grid:
/// with `lemma_firsts_distinct_islands` and `lemma_every_island_counted`, one per island
/// that reaches the first row's width.
pub proof fn lemma_island_count_is_number_of_first_cells(g: Seq<Seq<char>>)
    requires
        g.len() > 0,
    ensures
        first_cells(g, g[0].len() as int).finite(),
        island_count(g) == first_cells(g, g[0].len() as int).len(),
{
    let n = g[0].len() as int;
    lemma_firsts_upto_count(g, n, g.len() as int, 0);
    assert(first_cells(g, n) =~= firsts_upto(g, n, g.len() as int, 0));
    assert(firsts_in_row(g, n, g.len() as int, 0) == 0);
    assert(firsts_before_row(g, n, g.len() as int) == island_count(g));
}

// ---------------------------------------------------------------------------
// Paths
// ---------------------------------------------------------------------------

proof fn lemma_connected_refl(g: Seq<Seq<char>>, a: (int, int))
    requires
        is_land(g, a),
    ensures
        connected(g, a, a),
{
    let path = seq![a];
    assert(is_land_path(g, path));
}

proof fn lemma_connected_ends(g: Seq<Seq<char>>, a: (int, int), b: (int, int))
    requires
        connected(g, a, b),
    ensures
        is_land(g, a),
        is_land(g, b),
{
    let path = choose|path: Seq<(int, int)>|
        #[trigger] is_land_path(g, path) && path[0] == a && path[path.len() - 1] == b;
    assert(is_land(g, path[0]));
    assert(is_land(g, path[path.len() - 1]));
}

proof fn lemma_connected_prepend(g: Seq<Seq<char>>, a: (int, int), b: (int, int), c: (int, int))
    requires
        is_land(g, a),
        adjacent(a, b),
        connected(g, b, c),
    ensures
        connected(g, a, c),
{
    let path = choose|path: Seq<(int, int)>|
        #[trigger] is_land_path(g, path) && path[0] == b && path[path.len() - 1] == c;
    let p2 = seq![a] + path;
    assert forall|i: int| 0 <= i < p2.len() implies is_land(g, #[trigger] p2[i]) by {
        if i > 0 {
            assert(p2[i] == path[i - 1]);
        }
    }
    assert forall|i: int| 0 <= i < p2.len() - 1 implies adjacent(#[trigger] p2[i], p2[i + 1]) by {
        if i > 0 {
            assert(p2[i] == path[i - 1]);
            assert(p2[i + 1] == path[i]);
        }
    }
    assert(is_land_path(g, p2));
}

proof fn lemma_connected_trans(g: Seq<Seq<char>>, a: (int, int), b: (int, int), c: (int, int))
    requires
        connected(g, a, b),
        connected(g, b, c),
    ensures
        connected(g, a, c),
{
    let p1 = choose|path: Seq<(int, int)>|
        #[trigger] is_land_path(g, path) && path[0] == a && path[path.len() - 1] == b;
    let p2 = choose|path: Seq<(int, int)>|
        #[trigger] is_land_path(g, path) && path[0] == b && path[path.len() - 1] == c;
    let p = p1 + p2.drop_first();
    assert forall|i: int| 0 <= i < p.len() implies is_land(g, #[trigger] p[i]) by {
        if i >= p1.len() {
            assert(p[i] == p2[i - p1.len() + 1]);
        }
    }
    assert forall|i: int| 0 <= i < p.len() - 1 implies adjacent(#[trigger] p[i], p[i + 1]) by {
        if i < p1.len() - 1 {
            assert(p[i + 1] == p1[i + 1]);
        } else if i == p1.len() - 1 {
            assert(p[i] == p2[0]);
            assert(p[i + 1] == p2[1]);
        } else {
            assert(p[i] == p2[i - p1.len() + 1]);
            assert(p[i + 1] == p2[i - p1.len() + 2]);
        }
    }
    assert(is_land_path(g, p));
    if p2.len() == 1 {
        assert(p[p.len() - 1] == p1[p1.len() - 1]);
    } else {
        assert(p[p.len() - 1] == p2[p2.len() - 1]);
    }
}

proof fn lemma_connected_sym(g: Seq<Seq<char>>, a: (int, int), b: (int, int))
    requires
        connected(g, a, b),
    ensures
        connected(g, b, a),
{
    let p1 = choose|path: Seq<(int, int)>|
        #[trigger] is_land_path(g, path) && path[0] == a && path[path.len() - 1] == b;
    let p = p1.reverse();
    assert forall|i: int| 0 <= i < p.len() implies is_land(g, #[trigger] p[i]) by {
        assert(p[i] == p1[p1.len() - 1 - i]);
    }
    assert forall|i: int| 0 <= i < p.len() - 1 implies adjacent(#[trigger] p[i], p[i + 1]) by {
        assert(p[i] == p1[p1.len() - 1 - i]);
        assert(p[i + 1] == p1[p1.len() - 2 - i]);
        assert(adjacent(p1[p1.len() - 2 - i], p1[p1.len() - 1 - i]));
    }
    assert(is_land_path(g, p));
}

/// Every cell on a land path from `a` is connected to `a` and to the path's end.
proof fn lemma_path_cells(g: Seq<Seq<char>>, path: Seq<(int, int)>, i: int)
    requires
        is_land_path(g, path),
        0 <= i < path.len(),
    ensures
        connected(g, path[i], path[path.len() - 1]),
        connected(g, path[0], path[i]),
{
    let suffix = path.subrange(i, path.len() as int);
    assert forall|j: int| 0 <= j < suffix.len() implies is_land(g, #[trigger] suffix[j]) by {
        assert(suffix[j] == path[i + j]);
    }
    assert forall|j: int| 0 <= j < suffix.len() - 1 implies adjacent(#[trigger] suffix[j], suffix[j + 1]) by {
        assert(suffix[j] == path[i + j]);
        assert(suffix[j + 1] == path[i + j + 1]);
    }
    assert(is_land_path(g, suffix));
    let prefix = path.subrange(0, i + 1);
    assert forall|j: int| 0 <= j < prefix.len() implies is_land(g, #[trigger] prefix[j]) by {
        assert(prefix[j] == path[j]);
    }
    assert forall|j: int| 0 <= j < prefix.len() - 1 implies adjacent(#[trigger] prefix[j], prefix[j + 1]) by {
        assert(prefix[j] == path[j]);
        assert(prefix[j + 1] == path[j + 1]);
    }
    assert(is_land_path(g, prefix));
}

/// A path over cells that are land in `g1` and also land in `g2` connects in `g2`.
proof fn lemma_connected_mono(g1: Seq<Seq<char>>, g2: Seq<Seq<char>>, a: (int, int), b: (int, int))
    requires
        connected(g1, a, b),
        forall|x: (int, int)| is_land(g1, x) ==> #[trigger] is_land(g2, x),
    ensures
        connected(g2, a, b),
{
    let p = choose|path: Seq<(int, int)>|
        #[trigger] is_land_path(g1, path) && path[0] == a && path[path.len() - 1] == b;
    assert forall|i: int| 0 <= i < p.len() implies is_land(g2, #[trigger] p[i]) by {
        assert(is_land(g1, p[i]));
    }
    assert(is_land_path(g2, p));
}

// ---------------------------------------------------------------------------
// Flood fill
// ---------------------------------------------------------------------------

/// The grids have the same rows of the same lengths.
pub open spec fn same_shape(a: Seq<Seq<char>>, b: Seq<Seq<char>>) -> bool {
    &&& a.len() == b.len()
    &&& forall|r: int| 0 <= r < a.len() ==> (#[trigger] a[r]).len() == b[r].len()
}

/// `b` is `a` with exactly the island of `p` (none where `p` is not land) turned to `'0'`.
pub open spec fn sinks_island(a: Seq<Seq<char>>, b: Seq<Seq<char>>, p: (int, int)) -> bool {
    &&& same_shape(a, b)
    &&& forall|r: int, c: int|
        0 <= r < a.len() && 0 <= c < a[r].len() ==> #[trigger] b[r][c] == if connected(a, p, (r, c)) {
            '0'
        } else {
            a[r][c]
        }
}

/// `b` only turns land of `a` into `'0'`.
spec fn only_sinks(a: Seq<Seq<char>>, b: Seq<Seq<char>>) -> bool {
    &&& same_shape(a, b)
    &&& forall|r: int, c: int|
        0 <= r < a.len() && 0 <= c < a[r].len() ==> #[trigger] b[r][c] == a[r][c] || (a[r][c] == '1'
            && b[r][c] == '0')
}

/// Cells that changed from `a` to `b`.
spec fn changed(a: Seq<Seq<char>>, b: Seq<Seq<char>>, x: (int, int)) -> bool {
    &&& 0 <= x.0 < a.len()
    &&& 0 <= x.1 < a[x.0].len()
    &&& b[x.0][x.1] != a[x.0][x.1]
}

/// The properties of a flood fill from `p` that compose: it only sinks, everything it
/// sinks is on `p`'s island, it sinks `p` if that is land, and no land is left beside
/// anything it sank.
spec fn fill_props(a: Seq<Seq<char>>, b: Seq<Seq<char>>, p: (int, int)) -> bool {
    &&& only_sinks(a, b)
    &&& forall|x: (int, int)| #[trigger] changed(a, b, x) ==> connected(a, p, x)
    &&& is_land(a, p) ==> changed(a, b, p)
    &&& forall|x: (int, int), y: (int, int)|
        #[trigger] changed(a, b, x) && adjacent(x, y) ==> !#[trigger] is_land(b, y)
}

proof fn lemma_sinks_gives_props(a: Seq<Seq<char>>, b: Seq<Seq<char>>, p: (int, int))
    requires
        sinks_island(a, b, p),
    ensures
        fill_props(a, b, p),
{
    assert forall|r: int, c: int|
        0 <= r < a.len() && 0 <= c < a[r].len() implies #[trigger] b[r][c] == a[r][c] || (a[r][c]
        == '1' && b[r][c] == '0') by {
        if connected(a, p, (r, c)) {
            lemma_connected_ends(a, p, (r, c));
        }
    }
    assert forall|x: (int, int)| #[trigger] changed(a, b, x) implies connected(a, p, x) by {
        assert(b[x.0][x.1] == if connected(a, p, (x.0, x.1)) { '0' } else { a[x.0][x.1] });
    }
    if is_land(a, p) {
        lemma_connected_refl(a, p);
        assert(b[p.0][p.1] == if connected(a, p, (p.0, p.1)) { '0' } else { a[p.0][p.1] });
    }
    assert forall|x: (int, int), y: (int, int)|
        #[trigger] changed(a, b, x) && adjacent(x, y) implies !#[trigger] is_land(b, y) by {
        assert(b[x.0][x.1] == if connected(a, p, (x.0, x.1)) { '0' } else { a[x.0][x.1] });
        if is_land(b, y) {
            assert(b[y.0][y.1] == if connected(a, p, (y.0, y.1)) { '0' } else { a[y.0][y.1] });
            assert(is_land(a, y));
            lemma_connected_ends(a, p, x);
            lemma_connected_refl(a, y);
            lemma_connected_prepend(a, x, y, y);
            lemma_connected_trans(a, p, x, y);
        }
    }
}

proof fn lemma_props_gives_sinks(a: Seq<Seq<char>>, b: Seq<Seq<char>>, p: (int, int))
    requires
        fill_props(a, b, p),
    ensures
        sinks_island(a, b, p),
{
    assert forall|r: int, c: int| 0 <= r < a.len() && 0 <= c < a[r].len() implies #[trigger] b[r][c]
        == if connected(a, p, (r, c)) {
        '0'
    } else {
        a[r][c]
    } by {
        if connected(a, p, (r, c)) {
            let path = choose|path: Seq<(int, int)>|
                #[trigger] is_land_path(a, path) && path[0] == p && path[path.len() - 1] == (r, c);
            assert forall|i: int| 0 <= i < path.len() implies #[trigger] changed(a, b, path[i]) by {
                lemma_changed_along(a, b, p, path, i);
            }
            assert(changed(a, b, path[path.len() - 1]));
        } else {
            if changed(a, b, (r, c)) {
                assert(connected(a, p, (r, c)));
            }
        }
    }
}

proof fn lemma_changed_along(a: Seq<Seq<char>>, b: Seq<Seq<char>>, p: (int, int), path: Seq<(int, int)>, i: int)
    requires
        fill_props(a, b, p),
        is_land_path(a, path),
        path[0] == p,
        0 <= i < path.len(),
    ensures
        changed(a, b, path[i]),
    decreases i,
{
    assert(is_land(a, path[i]));
    if i > 0 {
        lemma_changed_along(a, b, p, path, i - 1);
        assert(adjacent(path[i - 1], path[i]));
        assert(!is_land(b, path[i]));
        let x = path[i];
        assert(b[x.0][x.1] == a[x.0][x.1] || (a[x.0][x.1] == '1' && b[x.0][x.1] == '0'));
    }
}

/// Turns the land cell `(r, c)` to `'0'`.
fn sink_cell(grid: &mut Vec<Vec<char>>, r: usize, c: usize)
    requires
        r < old(grid)@.len(),
        c < old(grid)@[r as int]@.len(),
    ensures
        cells(final(grid)) == cells(old(grid)).update(
            r as int,
            cells(old(grid))[r as int].update(c as int, '0'),
        ),
{
    let ghost g0 = cells(grid);
    grid[r][c] = '0';
    assert(cells(grid) =~= g0.update(r as int, g0[r as int].update(c as int, '0')));
}

/// The number of land cells of a row.
spec fn row_land(row: Seq<char>) -> nat
    decreases row.len(),
{
    if row.len() == 0 {
        0
    } else {
        row_land(row.drop_last()) + if row.last() == '1' {
            1nat
        } else {
            0nat
        }
    }
}

/// The number of land cells of a grid.
spec fn land_count(g: Seq<Seq<char>>) -> nat
    decreases g.len(),
{
    if g.len() == 0 {
        0
    } else {
        land_count(g.drop_last()) + row_land(g.last())
    }
}

proof fn lemma_row_land_le(a: Seq<char>, b: Seq<char>)
    requires
        a.len() == b.len(),
        forall|c: int| 0 <= c < a.len() ==> #[trigger] b[c] == a[c] || (a[c] == '1' && b[c] == '0'),
    ensures
        row_land(b) <= row_land(a),
        (exists|c: int| 0 <= c < a.len() && #[trigger] b[c] != a[c]) ==> row_land(b) < row_land(a),
    decreases a.len(),
{
    if a.len() > 0 {
        lemma_row_land_le(a.drop_last(), b.drop_last());
        if exists|c: int| 0 <= c < a.len() && #[trigger] b[c] != a[c] {
            let c = choose|c: int| 0 <= c < a.len() && #[trigger] b[c] != a[c];
            if c < a.len() - 1 {
                assert(b.drop_last()[c] != a.drop_last()[c]);
            }
        }
    }
}

proof fn lemma_land_count_le(a: Seq<Seq<char>>, b: Seq<Seq<char>>)
    requires
        only_sinks(a, b),
    ensures
        land_count(b) <= land_count(a),
        (exists|x: (int, int)| #[trigger] changed(a, b, x)) ==> land_count(b) < land_count(a),
    decreases a.len(),
{
    if a.len() > 0 {
        let n = a.len() - 1;
        assert(only_sinks(a.drop_last(), b.drop_last())) by {
            assert forall|r: int, c: int|
                0 <= r < a.drop_last().len() && 0 <= c < a.drop_last()[r].len() implies #[trigger] b.drop_last()[r][c]
                == a.drop_last()[r][c] || (a.drop_last()[r][c] == '1' && b.drop_last()[r][c] == '0') by {
                assert(b[r][c] == a[r][c] || (a[r][c] == '1' && b[r][c] == '0'));
            }
        }
        lemma_land_count_le(a.drop_last(), b.drop_last());
        assert forall|c: int| 0 <= c < a[n].len() implies #[trigger] b[n][c] == a[n][c] || (a[n][c] == '1'
            && b[n][c] == '0') by {
            assert(b[n][c] == a[n][c] || (a[n][c] == '1' && b[n][c] == '0'));
        }
        lemma_row_land_le(a[n], b[n]);
        if exists|x: (int, int)| #[trigger] changed(a, b, x) {
            let x = choose|x: (int, int)| #[trigger] changed(a, b, x);
            if x.0 < n {
                assert(changed(a.drop_last(), b.drop_last(), x));
            } else {
                assert(b[n][x.1] != a[n][x.1]);
            }
        }
    }
}

/// Sinks the island that holds `(r, c)`; does nothing where `(r, c)` is outside the grid
/// or not land.
fn dfs(grid: &mut Vec<Vec<char>>, r: usize, c: usize)
    ensures
        sinks_island(cells(old(grid)), cells(final(grid)), (r as int, c as int)),
    decreases land_count(cells(old(grid))),
{
    let ghost g0 = cells(grid);
    let ghost p = (r as int, c as int);
    if r < grid.len() && c < grid[r].len() && grid[r][c] == '1' {
        sink_cell(grid, r, c);
        let ghost g1 = cells(grid);
        proof {
            assert(changed(g0, g1, p));
            lemma_land_count_le(g0, g1);
        }
        let up = r.wrapping_sub(1);
        let left = c.wrapping_sub(1);
        dfs(grid, up, c);
        let ghost g2 = cells(grid);
        proof { lemma_step(g0, g1, g2, (up as int, c as int)); }
        dfs(grid, r + 1, c);
        let ghost g3 = cells(grid);
        proof { lemma_step(g0, g2, g3, (r + 1, c as int)); }
        dfs(grid, r, left);
        let ghost g4 = cells(grid);
        proof { lemma_step(g0, g3, g4, (r as int, left as int)); }
        dfs(grid, r, c + 1);
        let ghost g5 = cells(grid);
        proof {
            lemma_step(g0, g4, g5, (r as int, c + 1));
            assert(r > 0 ==> up == r - 1);
            assert(r == 0 ==> up as int >= g0.len());
            assert(c > 0 ==> left == c - 1);
            assert(c == 0 ==> left as int >= g0[r as int].len());
            lemma_compose(g0, g1, g2, g3, g4, g5, p, (up as int, c as int), (r + 1, c as int), (r as int, left as int), (r as int, c + 1));
            lemma_props_gives_sinks(g0, g5, p);
        }
    } else {
        proof {
            assert forall|r2: int, c2: int|
                0 <= r2 < g0.len() && 0 <= c2 < g0[r2].len() implies #[trigger] g0[r2][c2] == if connected(g0, p, (r2, c2)) {
                '0'
            } else {
                g0[r2][c2]
            } by {
                if connected(g0, p, (r2, c2)) {
                    lemma_connected_ends(g0, p, (r2, c2));
                }
            }
        }
    }
}

/// `only_sinks` composes, and never creates land.
proof fn lemma_sinks_trans(a: Seq<Seq<char>>, b: Seq<Seq<char>>, c: Seq<Seq<char>>)
    requires
        only_sinks(a, b),
        only_sinks(b, c),
    ensures
        only_sinks(a, c),
{
    assert forall|r: int, col: int|
        0 <= r < a.len() && 0 <= col < a[r].len() implies #[trigger] c[r][col] == a[r][col] || (a[r][col]
        == '1' && c[r][col] == '0') by {
        assert(b[r][col] == a[r][col] || (a[r][col] == '1' && b[r][col] == '0'));
        assert(c[r][col] == b[r][col] || (b[r][col] == '1' && c[r][col] == '0'));
    }
}

proof fn lemma_sinks_land(a: Seq<Seq<char>>, b: Seq<Seq<char>>)
    requires
        only_sinks(a, b),
    ensures
        forall|x: (int, int)| is_land(b, x) ==> #[trigger] is_land(a, x),
{
    assert forall|x: (int, int)| is_land(b, x) implies #[trigger] is_land(a, x) by {
        assert(b[x.0][x.1] == a[x.0][x.1] || (a[x.0][x.1] == '1' && b[x.0][x.1] == '0'));
    }
}

/// One recursive call: it fills from `n` and leaves less land than the caller started with.
proof fn lemma_step(g0: Seq<Seq<char>>, gi: Seq<Seq<char>>, gj: Seq<Seq<char>>, n: (int, int))
    requires
        land_count(gi) < land_count(g0),
        sinks_island(gi, gj, n),
    ensures
        fill_props(gi, gj, n),
        land_count(gj) < land_count(g0),
{
    lemma_sinks_gives_props(gi, gj, n);
    lemma_land_count_le(gi, gj);
}

/// Sinking `p` and then filling from each neighbour in turn is a flood fill from `p`.
#[verifier::spinoff_prover]
#[verifier::rlimit(60)]
proof fn lemma_compose(
    g0: Seq<Seq<char>>,
    g1: Seq<Seq<char>>,
    g2: Seq<Seq<char>>,
    g3: Seq<Seq<char>>,
    g4: Seq<Seq<char>>,
    g5: Seq<Seq<char>>,
    p: (int, int),
    n1: (int, int),
    n2: (int, int),
    n3: (int, int),
    n4: (int, int),
)
    requires
        is_land(g0, p),
        g1 == g0.update(p.0, g0[p.0].update(p.1, '0')),
        fill_props(g1, g2, n1),
        fill_props(g2, g3, n2),
        fill_props(g3, g4, n3),
        fill_props(g4, g5, n4),
        forall|y: (int, int)|
            adjacent(p, y) && 0 <= y.0 < g0.len() && 0 <= y.1 < g0[y.0].len() ==> y == n1 || y == n2
                || y == n3 || y == n4,
        0 <= n1.0 < g0.len() && 0 <= n1.1 < g0[n1.0].len() ==> adjacent(p, n1),
        0 <= n2.0 < g0.len() && 0 <= n2.1 < g0[n2.0].len() ==> adjacent(p, n2),
        0 <= n3.0 < g0.len() && 0 <= n3.1 < g0[n3.0].len() ==> adjacent(p, n3),
        0 <= n4.0 < g0.len() && 0 <= n4.1 < g0[n4.0].len() ==> adjacent(p, n4),
    ensures
        fill_props(g0, g5, p),
{
    assert(only_sinks(g0, g1)) by {
        assert forall|r: int, c: int|
            0 <= r < g0.len() && 0 <= c < g0[r].len() implies #[trigger] g1[r][c] == g0[r][c] || (g0[r][c]
            == '1' && g1[r][c] == '0') by {
            if r == p.0 {
                assert(g1[r] == g0[r].update(p.1, '0'));
            }
        }
    }
    lemma_sinks_trans(g0, g1, g2);
    lemma_sinks_trans(g0, g2, g3);
    lemma_sinks_trans(g0, g3, g4);
    lemma_sinks_trans(g0, g4, g5);
    lemma_sinks_trans(g1, g2, g3);
    lemma_sinks_trans(g1, g3, g4);
    lemma_sinks_trans(g1, g4, g5);
    lemma_sinks_trans(g2, g3, g4);
    lemma_sinks_trans(g2, g4, g5);
    lemma_sinks_trans(g3, g4, g5);
    lemma_sinks_land(g0, g1);
    lemma_sinks_land(g0, g2);
    lemma_sinks_land(g0, g3);
    lemma_sinks_land(g0, g4);
    lemma_sinks_land(g2, g5);
    lemma_sinks_land(g3, g5);
    lemma_sinks_land(g4, g5);
    lemma_sinks_land(g1, g5);
    // Everything sunk lies on the island of p.
    assert forall|x: (int, int)| #[trigger] changed(g0, g5, x) implies connected(g0, p, x) by {
        if x == p {
            lemma_connected_refl(g0, p);
        } else {
            assert(g1[x.0][x.1] == g0[x.0][x.1]);
            if changed(g1, g2, x) {
                lemma_via_neighbour(g0, g1, p, n1, x);
            } else if changed(g2, g3, x) {
                lemma_via_neighbour(g0, g2, p, n2, x);
            } else if changed(g3, g4, x) {
                lemma_via_neighbour(g0, g3, p, n3, x);
            } else {
                assert(changed(g4, g5, x));
                lemma_via_neighbour(g0, g4, p, n4, x);
            }
        }
    }
    // p itself is sunk.
    assert(g1[p.0][p.1] == '0');
    assert(changed(g0, g5, p));
    // No land is left beside anything sunk.
    assert forall|x: (int, int), y: (int, int)|
        #[trigger] changed(g0, g5, x) && adjacent(x, y) implies !#[trigger] is_land(g5, y) by {
        if x == p {
            if is_land(g5, y) {
                assert(is_land(g0, y));
                if y == n1 {
                    lemma_neighbour_sunk(g1, g2, n1);
                } else if y == n2 {
                    lemma_neighbour_sunk(g2, g3, n2);
                } else if y == n3 {
                    lemma_neighbour_sunk(g3, g4, n3);
                } else {
                    lemma_neighbour_sunk(g4, g5, n4);
                }
            }
        } else {
            assert(g1[x.0][x.1] == g0[x.0][x.1]);
            if changed(g1, g2, x) {
                assert(!is_land(g2, y));
            } else if changed(g2, g3, x) {
                assert(!is_land(g3, y));
            } else if changed(g3, g4, x) {
                assert(!is_land(g4, y));
            } else {
                assert(changed(g4, g5, x));
            }
        }
    }
}

/// A cell sunk by the fill from neighbour `n` of `p` lies on `p`'s island.
proof fn lemma_via_neighbour(g0: Seq<Seq<char>>, gi: Seq<Seq<char>>, p: (int, int), n: (int, int), x: (int, int))
    requires
        is_land(g0, p),
        connected(gi, n, x),
        0 <= n.0 < g0.len() && 0 <= n.1 < g0[n.0].len() ==> adjacent(p, n),
        forall|y: (int, int)| is_land(gi, y) ==> #[trigger] is_land(g0, y),
    ensures
        connected(g0, p, x),
{
    lemma_connected_mono(gi, g0, n, x);
    lemma_connected_ends(g0, n, x);
    lemma_connected_prepend(g0, p, n, x);
}

/// After the fill from `n`, `n` is not land (it was sunk, or was not land to begin with).
proof fn lemma_neighbour_sunk(gi: Seq<Seq<char>>, gj: Seq<Seq<char>>, n: (int, int))
    requires
        fill_props(gi, gj, n),
    ensures
        !is_land(gj, n),
{
    if is_land(gi, n) {
        assert(changed(gi, gj, n));
        assert(gj[n.0][n.1] == gi[n.0][n.1] || (gi[n.0][n.1] == '1' && gj[n.0][n.1] == '0'));
    } else {
        lemma_sinks_land(gi, gj);
    }
}

// ---------------------------------------------------------------------------
// Scanning the grid
// ---------------------------------------------------------------------------

/// Cell `x` is on the island of some land cell read before position `p`.
spec fn covered(g0: Seq<Seq<char>>, n: int, p: (int, int), x: (int, int)) -> bool {
    exists|q: (int, int)| #[trigger] scanned_before(q, p, n) && is_land(g0, q) && connected(g0, q, x)
}

/// Reading has reached position `p`: exactly the islands of the land read so far are sunk.
spec fn scan_state(g0: Seq<Seq<char>>, g: Seq<Seq<char>>, n: int, p: (int, int)) -> bool {
    &&& same_shape(g0, g)
    &&& forall|r: int, c: int|
        0 <= r < g0.len() && 0 <= c < g0[r].len() ==> #[trigger] g[r][c] == if g0[r][c] == '1'
            && covered(g0, n, p, (r, c)) {
            '0'
        } else {
            g0[r][c]
        }
}

/// Land of `g0` that no island read so far reaches is still land, so it keeps its paths.
proof fn lemma_uncovered_connects(g0: Seq<Seq<char>>, g: Seq<Seq<char>>, n: int, p: (int, int), a: (int, int), x: (int, int))
    requires
        scan_state(g0, g, n, p),
        connected(g0, a, x),
        !covered(g0, n, p, x),
    ensures
        connected(g, a, x),
{
    let w = choose|path: Seq<(int, int)>|
        #[trigger] is_land_path(g0, path) && path[0] == a && path[path.len() - 1] == x;
    assert forall|i: int| 0 <= i < w.len() implies is_land(g, #[trigger] w[i]) by {
        lemma_path_cells(g0, w, i);
        let y = w[i];
        assert(is_land(g0, y));
        if covered(g0, n, p, y) {
            let q = choose|q: (int, int)| #[trigger] scanned_before(q, p, n) && is_land(g0, q) && connected(g0, q, y);
            lemma_connected_trans(g0, q, y, x);
            assert(covered(g0, n, p, x));
        }
        assert(g[y.0][y.1] == g0[y.0][y.1]);
    }
    assert(is_land_path(g, w));
}

/// Reading a land cell that is still land: it is the first of its island, and sinking
/// its island moves reading past it.
#[verifier::spinoff_prover]
proof fn lemma_scan_first(g0: Seq<Seq<char>>, g: Seq<Seq<char>>, g2: Seq<Seq<char>>, n: int, p: (int, int))
    requires
        scan_state(g0, g, n, p),
        0 <= p.1 < n,
        is_land(g, p),
        sinks_island(g, g2, p),
    ensures
        is_first_of_island(g0, n, p),
        scan_state(g0, g2, n, (p.0, p.1 + 1)),
{
    let p2 = (p.0, p.1 + 1);
    assert(g[p.0][p.1] == g0[p.0][p.1]);
    assert(!covered(g0, n, p, p));
    assert forall|q: (int, int)| #[trigger] scanned_before(q, p, n) && is_land(g0, q) implies !connected(g0, q, p) by {
        if connected(g0, q, p) {
            assert(covered(g0, n, p, p));
        }
    }
    lemma_sinks_land_of_state(g0, g, n, p);
    assert forall|r: int, c: int| 0 <= r < g0.len() && 0 <= c < g0[r].len() implies #[trigger] g2[r][c]
        == if g0[r][c] == '1' && covered(g0, n, p2, (r, c)) {
        '0'
    } else {
        g0[r][c]
    } by {
        let x = (r, c);
        assert(g2[r][c] == if connected(g, p, (r, c)) { '0' } else { g[r][c] });
        assert(g[r][c] == if g0[r][c] == '1' && covered(g0, n, p, x) { '0' } else { g0[r][c] });
        if covered(g0, n, p, x) {
            let q = choose|q: (int, int)| #[trigger] scanned_before(q, p, n) && is_land(g0, q) && connected(g0, q, x);
            assert(scanned_before(q, p2, n));
            lemma_connected_ends(g0, q, x);
        } else if connected(g0, p, x) {
            lemma_uncovered_connects(g0, g, n, p, p, x);
            assert(scanned_before(p, p2, n));
            lemma_connected_ends(g0, p, x);
        } else {
            if connected(g, p, x) {
                lemma_connected_mono(g, g0, p, x);
            }
            if covered(g0, n, p2, x) {
                let q = choose|q: (int, int)| #[trigger] scanned_before(q, p2, n) && is_land(g0, q) && connected(g0, q, x);
                if q != p {
                    assert(scanned_before(q, p, n));
                }
            }
        }
    }
}

/// Land of the current grid was land before any sinking.
proof fn lemma_sinks_land_of_state(g0: Seq<Seq<char>>, g: Seq<Seq<char>>, n: int, p: (int, int))
    requires
        scan_state(g0, g, n, p),
    ensures
        forall|x: (int, int)| is_land(g, x) ==> #[trigger] is_land(g0, x),
{
    assert forall|x: (int, int)| is_land(g, x) implies #[trigger] is_land(g0, x) by {
        assert(g[x.0][x.1] == if g0[x.0][x.1] == '1' && covered(g0, n, p, x) { '0' } else { g0[x.0][x.1] });
    }
}

/// Reading a cell that is not land (any more): it is not the first of an island, and
/// nothing needs sinking.
#[verifier::spinoff_prover]
proof fn lemma_scan_skip(g0: Seq<Seq<char>>, g: Seq<Seq<char>>, n: int, p: (int, int))
    requires
        scan_state(g0, g, n, p),
        0 <= p.0 < g0.len(),
        0 <= p.1 < n,
        p.1 < g0[p.0].len(),
        !is_land(g, p),
    ensures
        !is_first_of_island(g0, n, p),
        scan_state(g0, g, n, (p.0, p.1 + 1)),
{
    let p2 = (p.0, p.1 + 1);
    assert(g[p.0][p.1] == if g0[p.0][p.1] == '1' && covered(g0, n, p, p) { '0' } else { g0[p.0][p.1] });
    if is_land(g0, p) {
        assert(covered(g0, n, p, p));
        let q = choose|q: (int, int)| #[trigger] scanned_before(q, p, n) && is_land(g0, q) && connected(g0, q, p);
        assert(!is_first_of_island(g0, n, p));
    }
    assert forall|r: int, c: int| 0 <= r < g0.len() && 0 <= c < g0[r].len() implies #[trigger] g[r][c]
        == if g0[r][c] == '1' && covered(g0, n, p2, (r, c)) {
        '0'
    } else {
        g0[r][c]
    } by {
        let x = (r, c);
        assert(g[r][c] == if g0[r][c] == '1' && covered(g0, n, p, x) { '0' } else { g0[r][c] });
        if covered(g0, n, p2, x) {
            let q = choose|q: (int, int)| #[trigger] scanned_before(q, p2, n) && is_land(g0, q) && connected(g0, q, x);
            if q == p {
                let q0 = choose|q0: (int, int)| #[trigger] scanned_before(q0, p, n) && is_land(g0, q0) && connected(g0, q0, p);
                lemma_connected_trans(g0, q0, p, x);
                assert(covered(g0, n, p, x));
            } else {
                assert(scanned_before(q, p, n));
            }
        }
        if covered(g0, n, p, x) {
            let q = choose|q: (int, int)| #[trigger] scanned_before(q, p, n) && is_land(g0, q) && connected(g0, q, x);
            assert(scanned_before(q, p2, n));
        }
    }
}

/// The end of a row and the start of the next are the same reading position.
proof fn lemma_scan_next_row(g0: Seq<Seq<char>>, g: Seq<Seq<char>>, n: int, r: int)
    requires
        scan_state(g0, g, n, (r, n)),
    ensures
        scan_state(g0, g, n, (r + 1, 0)),
{
    assert forall|q: (int, int)| #[trigger] scanned_before(q, (r, n), n) <==> scanned_before(q, (r + 1, 0), n) by {}
    assert forall|x: (int, int)| covered(g0, n, (r, n), x) <==> covered(g0, n, (r + 1, 0), x) by {
        if covered(g0, n, (r, n), x) {
            let q = choose|q: (int, int)| #[trigger] scanned_before(q, (r, n), n) && is_land(g0, q) && connected(g0, q, x);
            assert(scanned_before(q, (r + 1, 0), n));
        }
        if covered(g0, n, (r + 1, 0), x) {
            let q = choose|q: (int, int)| #[trigger] scanned_before(q, (r + 1, 0), n) && is_land(g0, q) && connected(g0, q, x);
            assert(scanned_before(q, (r, n), n));
        }
    }
    assert forall|rr: int, c: int| 0 <= rr < g0.len() && 0 <= c < g0[rr].len() implies #[trigger] g[rr][c]
        == if g0[rr][c] == '1' && covered(g0, n, (r + 1, 0), (rr, c)) {
        '0'
    } else {
        g0[rr][c]
    } by {
        assert(g[rr][c] == if g0[rr][c] == '1' && covered(g0, n, (r, n), (rr, c)) { '0' } else { g0[rr][c] });
    }
}

/// Reading a land cell that is still land finds the first cell of an island.
proof fn lemma_scan_first_count(g0: Seq<Seq<char>>, g: Seq<Seq<char>>, n: int, p: (int, int))
    requires
        scan_state(g0, g, n, p),
        0 <= p.1 < n,
        is_land(g, p),
    ensures
        is_first_of_island(g0, n, p),
{
    assert(g[p.0][p.1] == if g0[p.0][p.1] == '1' && covered(g0, n, p, p) { '0' } else { g0[p.0][p.1] });
    assert forall|q: (int, int)| #[trigger] scanned_before(q, p, n) && is_land(g0, q) implies !connected(g0, q, p) by {
        if connected(g0, q, p) {
            assert(covered(g0, n, p, p));
        }
    }
}

proof fn lemma_firsts_in_row_mono(g: Seq<Seq<char>>, n: int, r: int, c1: int, c2: int)
    requires
        c1 <= c2,
    ensures
        firsts_in_row(g, n, r, c1) <= firsts_in_row(g, n, r, c2),
    decreases c2 - c1,
{
    if c1 < c2 {
        lemma_firsts_in_row_mono(g, n, r, c1, c2 - 1);
    }
}

proof fn lemma_firsts_before_row_mono(g: Seq<Seq<char>>, n: int, r1: int, r2: int)
    requires
        r1 <= r2,
    ensures
        firsts_before_row(g, n, r1) <= firsts_before_row(g, n, r2),
    decreases r2 - r1,
{
    if r1 < r2 {
        lemma_firsts_before_row_mono(g, n, r1, r2 - 1);
    }
}

/// Counts the islands of `grid`: groups of `'1'` cells joined through their sides.
/// Every row must be at least as long as the first; the first row's length fixes the
/// columns that are read.
pub fn num_islands(grid: Vec<Vec<char>>) -> (count: i32)
    requires
        forall|r: int| 0 <= r < grid@.len() ==> (#[trigger] grid@[r])@.len() >= grid@[0]@.len(),
        island_count(cells(&grid)) <= i32::MAX,
    ensures
        count == island_count(cells(&grid)),
        grid@.len() == 0 ==> count == 0,
        grid@.len() > 0 ==> count == first_cells(cells(&grid), grid@[0]@.len() as int).len(),
{
    let mut grid = grid;
    let ghost g0 = cells(&grid);
    let m = grid.len();
    if m == 0 {
        return 0;
    }
    let n = grid[0].len();
    let mut count: i32 = 0;
    let mut r: usize = 0;
    proof {
        assert forall|rr: int, c: int| 0 <= rr < g0.len() && 0 <= c < g0[rr].len() implies #[trigger] g0[rr][c]
            == if g0[rr][c] == '1' && covered(g0, n as int, (0, 0), (rr, c)) {
            '0'
        } else {
            g0[rr][c]
        } by {
            if covered(g0, n as int, (0, 0), (rr, c)) {
                let q = choose|q: (int, int)| #[trigger] scanned_before(q, (0, 0), n as int) && is_land(g0, q) && connected(g0, q, (rr, c));
            }
        }
    }
    while r < m
        invariant
            m == grid@.len(),
            m == g0.len(),
            m > 0,
            n == g0[0].len(),
            forall|rr: int| 0 <= rr < m ==> g0[rr].len() >= n,
            firsts_before_row(g0, n as int, m as int) <= i32::MAX,
            r <= m,
            scan_state(g0, cells(&grid), n as int, (r as int, 0)),
            count == firsts_before_row(g0, n as int, r as int),
        decreases m - r,
    {
        let mut c: usize = 0;
        while c < n
            invariant
                m == grid@.len(),
                m == g0.len(),
                n == g0[0].len(),
                forall|rr: int| 0 <= rr < m ==> g0[rr].len() >= n,
                firsts_before_row(g0, n as int, m as int) <= i32::MAX,
                r < m,
                c <= n,
                scan_state(g0, cells(&grid), n as int, (r as int, c as int)),
                count == firsts_before_row(g0, n as int, r as int) + firsts_in_row(g0, n as int, r as int, c as int),
            decreases n - c,
        {
            let ghost g = cells(&grid);
            proof {
                assert(grid@[r as int]@.len() == g[r as int].len());
                assert(g[r as int].len() == g0[r as int].len());
            }
            if grid[r][c] == '1' {
                proof {
                    lemma_scan_first_count(g0, g, n as int, (r as int, c as int));
                    lemma_firsts_in_row_mono(g0, n as int, r as int, c + 1, n as int);
                    lemma_firsts_before_row_mono(g0, n as int, r + 1, m as int);
                }
                count += 1;
                dfs(&mut grid, r, c);
                proof {
                    lemma_scan_first(g0, g, cells(&grid), n as int, (r as int, c as int));
                }
            } else {
                proof {
                    lemma_scan_skip(g0, g, n as int, (r as int, c as int));
                }
            }
            c += 1;
        }
        proof {
            lemma_scan_next_row(g0, cells(&grid), n as int, r as int);
        }
        r += 1;
    }
    proof {
        lemma_island_count_is_number_of_first_cells(g0);
    }
    count
}

} // verus!
