//! Spatial post-processing on a matched `BeadPattern`: [`despeckle`] merges
//! small same-color 4-connected regions into their majority neighbor color.
//!
//! Pure integer, deterministic, independent of scan order: components, their
//! sizes and the neighbor tallies are all read from the input pattern, and
//! every remap is written to a separate output.

use vstd::prelude::*;
use crate::models::BeadPattern;

verus! {

// ---------------------------------------------------------------------------
// Grid geometry
// ---------------------------------------------------------------------------

/// The cell one step from `i` in direction `d` (0 left, 1 right, 2 up,
/// 3 down) of a `w`-wide, `h`-high row-major grid, if it lies inside.
pub open spec fn step(w: int, h: int, i: int, d: int) -> Option<int> {
    let x = i % w;
    let y = i / w;
    if d == 0 {
        if x > 0 { Some(i - 1) } else { None }
    } else if d == 1 {
        if x + 1 < w { Some(i + 1) } else { None }
    } else if d == 2 {
        if y > 0 { Some(i - w) } else { None }
    } else if d == 3 {
        if y + 1 < h { Some(i + w) } else { None }
    } else {
        None
    }
}

/// `i` and `j` are 4-neighbors: both inside the grid, on one row at adjacent
/// columns or on one column at adjacent rows.
pub open spec fn is_neighbor(w: int, h: int, i: int, j: int) -> bool {
    &&& 0 <= i < w * h
    &&& 0 <= j < w * h
    &&& {
        ||| i / w == j / w && (i % w == j % w + 1 || j % w == i % w + 1)
        ||| i % w == j % w && (i / w == j / w + 1 || j / w == i / w + 1)
    }
}

/// The four steps from a cell reach exactly its 4-neighbors.
proof fn lemma_steps(w: int, h: int, i: int)
    requires
        w > 0,
        h > 0,
        0 <= i < w * h,
    ensures
        0 <= i % w < w,
        0 <= i / w < h,
        forall|d: int|
            0 <= d < 4 && (#[trigger] step(w, h, i, d)) is Some ==> is_neighbor(
                w,
                h,
                i,
                step(w, h, i, d)->0,
            ),
        forall|j: int|
            #[trigger] is_neighbor(w, h, i, j) ==> exists|d: int|
                0 <= d < 4 && step(w, h, i, d) == Some(j),
{
    let x = i % w;
    let y = i / w;
    vstd::arithmetic::div_mod::lemma_fundamental_div_mod(i, w);
    vstd::arithmetic::div_mod::lemma_mod_pos_bound(i, w);
    assert(i == y * w + x) by (nonlinear_arith)
        requires
            i == w * (i / w) + i % w,
            x == i % w,
            y == i / w,
    ;
    assert(0 <= y < h) by (nonlinear_arith)
        requires
            i == y * w + x,
            0 <= x < w,
            0 <= i < w * h,
    ;
    assert((y + 1) * w == y * w + w) by (nonlinear_arith);
    assert((y - 1) * w == y * w - w) by (nonlinear_arith);
    assert(y * w + w <= w * h) by (nonlinear_arith)
        requires
            y + 1 <= h,
            w > 0,
    ;
    assert(y >= 1 ==> (y - 1) * w >= 0) by (nonlinear_arith)
        requires
            w > 0,
    ;
    assert forall|d: int| 0 <= d < 4 && (#[trigger] step(w, h, i, d)) is Some implies is_neighbor(
        w,
        h,
        i,
        step(w, h, i, d)->0,
    ) by {
        let j = step(w, h, i, d)->0;
        if d == 0 {
            vstd::arithmetic::div_mod::lemma_fundamental_div_mod_converse(j, w, y, x - 1);
        } else if d == 1 {
            vstd::arithmetic::div_mod::lemma_fundamental_div_mod_converse(j, w, y, x + 1);
        } else if d == 2 {
            vstd::arithmetic::div_mod::lemma_fundamental_div_mod_converse(j, w, y - 1, x);
        } else {
            vstd::arithmetic::div_mod::lemma_fundamental_div_mod_converse(j, w, y + 1, x);
            assert(j < w * h) by (nonlinear_arith)
                requires
                    j == (y + 1) * w + x,
                    0 <= x < w,
                    y + 1 < h,
                    w > 0,
            ;
        }
    }
    assert forall|j: int| #[trigger] is_neighbor(w, h, i, j) implies exists|d: int|
        0 <= d < 4 && step(w, h, i, d) == Some(j) by {
        let xj = j % w;
        let yj = j / w;
        vstd::arithmetic::div_mod::lemma_fundamental_div_mod(j, w);
        vstd::arithmetic::div_mod::lemma_mod_pos_bound(j, w);
        assert(j == yj * w + xj) by (nonlinear_arith)
            requires
                j == w * (j / w) + j % w,
                xj == j % w,
                yj == j / w,
        ;
        assert(yj < h) by (nonlinear_arith)
            requires
                j == yj * w + xj,
                0 <= xj < w,
                j < w * h,
        ;
        if yj == y && x == xj + 1 {
            assert(step(w, h, i, 0) == Some(j));
        } else if yj == y && xj == x + 1 {
            assert(step(w, h, i, 1) == Some(j));
        } else if xj == x && y == yj + 1 {
            assert(step(w, h, i, 2) == Some(j));
        } else {
            assert(step(w, h, i, 3) == Some(j));
        }
    }
}

/// The neighbor of cell `idx` in direction `d` (0 left, 1 right, 2 up,
/// 3 down), if it lies inside the grid.
fn neighbor_in_dir(width: usize, height: usize, idx: usize, d: u8) -> (r: Option<usize>)
    requires
        width > 0,
        height > 0,
        idx < width * height,
        width * height <= usize::MAX,
    ensures
        match r {
            Some(j) => step(width as int, height as int, idx as int, d as int) == Some(j as int)
                && j < width * height,
            None => step(width as int, height as int, idx as int, d as int) is None,
        },
{
    let x = idx % width;
    let y = idx / width;
    proof {
        lemma_steps(width as int, height as int, idx as int);
        let ghost j = step(width as int, height as int, idx as int, d as int);
        if 0 <= d < 4 && j is Some {
            assert(is_neighbor(width as int, height as int, idx as int, j->0));
        }
    }
    if d == 0 {
        if x > 0 { Some(idx - 1) } else { None }
    } else if d == 1 {
        if x + 1 < width { Some(idx + 1) } else { None }
    } else if d == 2 {
        if y > 0 { Some(idx - width) } else { None }
    } else if d == 3 {
        if y + 1 < height { Some(idx + width) } else { None }
    } else {
        None
    }
}

// ---------------------------------------------------------------------------
// Same-color components
// ---------------------------------------------------------------------------

/// `path` walks through 4-neighboring cells that all have the color of its
/// first cell.
pub open spec fn is_same_color_path(cells: Seq<u16>, w: int, h: int, path: Seq<int>) -> bool {
    &&& path.len() >= 1
    &&& forall|k: int| 0 <= k < path.len() ==> 0 <= #[trigger] path[k] < cells.len()
    &&& forall|k: int| 0 <= k < path.len() ==> cells[#[trigger] path[k]] == cells[path[0]]
    &&& forall|k: int|
        0 <= k < path.len() - 1 ==> is_neighbor(w, h, #[trigger] path[k], path[k + 1])
}

/// Cells `i` and `j` lie in the same same-color 4-connected component.
pub open spec fn connected(cells: Seq<u16>, w: int, h: int, i: int, j: int) -> bool {
    exists|path: Seq<int>|
        #[trigger] is_same_color_path(cells, w, h, path) && path[0] == i && path.last() == j
}

/// The same-color 4-connected component of cell `i`.
pub open spec fn component(cells: Seq<u16>, w: int, h: int, i: int) -> Set<int> {
    Set::new(|j: int| connected(cells, w, h, i, j))
}

/// A path witnessing `connected(i, j)`.
proof fn connecting_path(cells: Seq<u16>, w: int, h: int, i: int, j: int) -> (p: Seq<int>)
    requires
        connected(cells, w, h, i, j),
    ensures
        is_same_color_path(cells, w, h, p),
        p[0] == i,
        p.last() == j,
{
    choose|p: Seq<int>| #[trigger] is_same_color_path(cells, w, h, p) && p[0] == i && p.last() == j
}

/// Connected cells lie inside the grid and share their color.
proof fn lemma_connected_color(cells: Seq<u16>, w: int, h: int, i: int, j: int)
    requires
        connected(cells, w, h, i, j),
    ensures
        0 <= i < cells.len(),
        0 <= j < cells.len(),
        cells[j] == cells[i],
{
    let p = connecting_path(cells, w, h, i, j);
    assert(0 <= p[p.len() - 1] < cells.len());
    assert(cells[p[p.len() - 1]] == cells[p[0]]);
}

/// Every cell is connected to itself.
proof fn lemma_connected_self(cells: Seq<u16>, w: int, h: int, i: int)
    requires
        0 <= i < cells.len(),
    ensures
        connected(cells, w, h, i, i),
{
    let p = seq![i];
    assert(is_same_color_path(cells, w, h, p));
}

/// A connection extends by one step to a same-color neighbor.
proof fn lemma_connected_extend(cells: Seq<u16>, w: int, h: int, i: int, k: int, j: int)
    requires
        connected(cells, w, h, i, k),
        is_neighbor(w, h, k, j),
        0 <= j < cells.len(),
        cells[j] == cells[k],
    ensures
        connected(cells, w, h, i, j),
{
    let p = connecting_path(cells, w, h, i, k);
    lemma_connected_color(cells, w, h, i, k);
    let q = p.push(j);
    assert forall|a: int| 0 <= a < q.len() - 1 implies is_neighbor(
        w,
        h,
        #[trigger] q[a],
        q[a + 1],
    ) by {
        if a < p.len() - 1 {
            assert(is_neighbor(w, h, p[a], p[a + 1]));
        }
    }
    assert forall|a: int| 0 <= a < q.len() implies cells[#[trigger] q[a]] == cells[q[0]] by {
        if a < p.len() {
            assert(cells[p[a]] == cells[p[0]]);
        }
    }
    assert forall|a: int| 0 <= a < q.len() implies 0 <= #[trigger] q[a] < cells.len() by {
        if a < p.len() {
            assert(0 <= p[a] < cells.len());
        }
    }
    assert(is_same_color_path(cells, w, h, q));
}

/// Connection is symmetric.
proof fn lemma_connected_symmetric(cells: Seq<u16>, w: int, h: int, i: int, j: int)
    requires
        connected(cells, w, h, i, j),
    ensures
        connected(cells, w, h, j, i),
{
    let p = connecting_path(cells, w, h, i, j);
    lemma_connected_color(cells, w, h, i, j);
    let n = p.len();
    let q = p.reverse();
    assert forall|a: int| 0 <= a < q.len() - 1 implies is_neighbor(
        w,
        h,
        #[trigger] q[a],
        q[a + 1],
    ) by {
        assert(is_neighbor(w, h, p[n - 2 - a], p[n - 2 - a + 1]));
    }
    assert forall|a: int| 0 <= a < q.len() implies cells[#[trigger] q[a]] == cells[q[0]] by {
        assert(cells[p[n - 1 - a]] == cells[p[0]]);
        assert(cells[p[n - 1]] == cells[p[0]]);
    }
    assert forall|a: int| 0 <= a < q.len() implies 0 <= #[trigger] q[a] < cells.len() by {
        assert(0 <= p[n - 1 - a] < cells.len());
    }
    assert(is_same_color_path(cells, w, h, q));
}

/// Connection is transitive.
proof fn lemma_connected_transitive(cells: Seq<u16>, w: int, h: int, i: int, k: int, j: int)
    requires
        connected(cells, w, h, i, k),
        connected(cells, w, h, k, j),
    ensures
        connected(cells, w, h, i, j),
{
    let p = connecting_path(cells, w, h, i, k);
    let q = connecting_path(cells, w, h, k, j);
    lemma_connected_color(cells, w, h, i, k);
    lemma_connected_color(cells, w, h, k, j);
    let n = p.len();
    let r = p + q.drop_first();
    assert forall|a: int| 0 <= a < r.len() - 1 implies is_neighbor(
        w,
        h,
        #[trigger] r[a],
        r[a + 1],
    ) by {
        if a < n - 1 {
            assert(is_neighbor(w, h, p[a], p[a + 1]));
        } else if a == n - 1 {
            assert(is_neighbor(w, h, q[0], q[1]));
        } else {
            assert(is_neighbor(w, h, q[a - n + 1], q[a - n + 2]));
        }
    }
    assert forall|a: int| 0 <= a < r.len() implies cells[#[trigger] r[a]] == cells[r[0]] by {
        if a < n {
            assert(cells[p[a]] == cells[p[0]]);
        } else {
            assert(cells[q[a - n + 1]] == cells[q[0]]);
        }
    }
    assert forall|a: int| 0 <= a < r.len() implies 0 <= #[trigger] r[a] < cells.len() by {
        if a < n {
            assert(0 <= p[a] < cells.len());
        } else {
            assert(0 <= q[a - n + 1] < cells.len());
        }
    }
    assert(is_same_color_path(cells, w, h, r));
    if q.len() == 1 {
        assert(r.last() == j);
    } else {
        assert(r.last() == q.last());
    }
}

/// Connected cells have the same component.
proof fn lemma_component_of_member(cells: Seq<u16>, w: int, h: int, i: int, k: int)
    requires
        connected(cells, w, h, i, k),
    ensures
        component(cells, w, h, k) == component(cells, w, h, i),
{
    assert forall|j: int|
        connected(cells, w, h, k, j) == connected(cells, w, h, i, j) by {
        if connected(cells, w, h, k, j) {
            lemma_connected_transitive(cells, w, h, i, k, j);
        }
        if connected(cells, w, h, i, j) {
            lemma_connected_symmetric(cells, w, h, i, k);
            lemma_connected_transitive(cells, w, h, k, i, j);
        }
    }
    assert(component(cells, w, h, k) =~= component(cells, w, h, i));
}

// ---------------------------------------------------------------------------
// Majority neighbor vote
// ---------------------------------------------------------------------------

/// 1 when the cell one step from `k` in direction `d` exists and has color `c`.
pub open spec fn edge_vote(cells: Seq<u16>, w: int, h: int, k: int, c: int, d: int) -> nat {
    match step(w, h, k, d) {
        Some(j) => if cells[j] as int == c { 1 } else { 0 },
        None => 0,
    }
}

/// Votes for color `c` from the first `q` directions around cell `k`.
pub open spec fn edge_votes_upto(cells: Seq<u16>, w: int, h: int, k: int, c: int, q: int) -> nat
    decreases q,
{
    if q <= 0 {
        0
    } else {
        edge_votes_upto(cells, w, h, k, c, q - 1) + edge_vote(cells, w, h, k, c, q - 1)
    }
}

/// How many 4-neighbors of cell `k` have color `c`.
pub open spec fn neighbor_votes(cells: Seq<u16>, w: int, h: int, k: int, c: int) -> nat {
    edge_votes_upto(cells, w, h, k, c, 4)
}

/// Boundary-edge votes for color `c` from the cells of `comp` below `m`: each
/// member cell votes once per 4-neighbor of color `c`.
pub open spec fn votes_below(cells: Seq<u16>, w: int, h: int, comp: Set<int>, c: int, m: int) -> nat
    decreases m,
{
    if m <= 0 {
        0
    } else {
        votes_below(cells, w, h, comp, c, m - 1) + if comp.contains(m - 1) {
            neighbor_votes(cells, w, h, m - 1, c)
        } else {
            0
        }
    }
}

/// Boundary-edge votes for color `c` around the component of cell `i`.
pub open spec fn votes(cells: Seq<u16>, w: int, h: int, i: int, c: int) -> nat {
    votes_below(cells, w, h, component(cells, w, h, i), c, cells.len() as int)
}

/// `c` wins the majority vote around the component of cell `i`: it is a
/// different color with votes, and every other different color has fewer
/// votes, or as many and a higher index.
pub open spec fn is_majority(cells: Seq<u16>, w: int, h: int, i: int, c: int) -> bool {
    &&& 0 <= c <= u16::MAX
    &&& c != cells[i] as int
    &&& votes(cells, w, h, i, c) > 0
    &&& forall|c2: int|
        0 <= c2 <= u16::MAX && c2 != cells[i] as int ==> #[trigger] votes(cells, w, h, i, c2)
            < votes(cells, w, h, i, c) || (votes(cells, w, h, i, c2) == votes(cells, w, h, i, c)
            && c <= c2)
}

/// The pattern has a usable shape: non-empty, and `cells.len() == width * height`.
pub open spec fn despeckle_shape_ok(p: &BeadPattern) -> bool {
    &&& p.cells@.len() > 0
    &&& p.width > 0
    &&& p.height > 0
    &&& p.width as int * p.height as int == p.cells@.len()
}

/// The despeckled color of cell `i`: when its component has at most
/// `min_region` cells and a majority neighbor color exists, that color;
/// otherwise its own color.
pub open spec fn despeckled_cell(p: &BeadPattern, min_region: u32, i: int) -> u16 {
    let cells = p.cells@;
    let w = p.width as int;
    let h = p.height as int;
    if component(cells, w, h, i).len() <= min_region && exists|c: int|
        #[trigger] is_majority(cells, w, h, i, c) {
        (choose|c: int| #[trigger] is_majority(cells, w, h, i, c)) as u16
    } else {
        cells[i]
    }
}

/// `out` is `p` despeckled with `min_region`: the same shape, every cell
/// its despeckled color, and an unusable shape returned verbatim.
pub open spec fn is_despeckle_of(p: &BeadPattern, min_region: u32, out: &BeadPattern) -> bool {
    &&& out.width == p.width
    &&& out.height == p.height
    &&& out.cells@.len() == p.cells@.len()
    &&& !despeckle_shape_ok(p) ==> out.cells@ == p.cells@
    &&& despeckle_shape_ok(p) ==> forall|i: int|
        0 <= i < p.cells@.len() ==> out.cells@[i] == #[trigger] despeckled_cell(p, min_region, i)
}

/// At most one color wins the majority vote.
proof fn lemma_majority_unique(cells: Seq<u16>, w: int, h: int, i: int, c1: int, c2: int)
    requires
        is_majority(cells, w, h, i, c1),
        is_majority(cells, w, h, i, c2),
    ensures
        c1 == c2,
{
    assert(votes(cells, w, h, i, c2) < votes(cells, w, h, i, c1) || (votes(cells, w, h, i, c2)
        == votes(cells, w, h, i, c1) && c1 <= c2));
    assert(votes(cells, w, h, i, c1) < votes(cells, w, h, i, c2) || (votes(cells, w, h, i, c1)
        == votes(cells, w, h, i, c2) && c2 <= c1));
}

/// Cells of one component get the same despeckled color.
proof fn lemma_despeckled_member(p: &BeadPattern, min_region: u32, i: int, k: int)
    requires
        connected(p.cells@, p.width as int, p.height as int, i, k),
    ensures
        despeckled_cell(p, min_region, k) == despeckled_cell(p, min_region, i),
{
    let cells = p.cells@;
    let w = p.width as int;
    let h = p.height as int;
    lemma_component_of_member(cells, w, h, i, k);
    lemma_connected_color(cells, w, h, i, k);
    assert forall|c: int| is_majority(cells, w, h, k, c) == is_majority(cells, w, h, i, c) by {
        assert forall|c2: int| votes(cells, w, h, k, c2) == votes(cells, w, h, i, c2) by {}
    }
    if exists|c: int| #[trigger] is_majority(cells, w, h, i, c) {
        let ck = choose|c: int| #[trigger] is_majority(cells, w, h, k, c);
        let ci = choose|c: int| #[trigger] is_majority(cells, w, h, i, c);
        assert(is_majority(cells, w, h, i, ck));
        lemma_majority_unique(cells, w, h, i, ck, ci);
    }
}

/// Votes summed over a list of cells.
pub open spec fn votes_seq(cells: Seq<u16>, w: int, h: int, list: Seq<int>, c: int) -> nat
    decreases list.len(),
{
    if list.len() == 0 {
        0
    } else {
        votes_seq(cells, w, h, list.drop_last(), c) + neighbor_votes(cells, w, h, list.last(), c)
    }
}

/// The cell indices of a list, as integers.
pub open spec fn as_ints(s: Seq<usize>) -> Seq<int> {
    s.map_values(|k: usize| k as int)
}

/// No cell gets more votes from one direction sweep than directions swept.
proof fn lemma_edge_votes_bound(cells: Seq<u16>, w: int, h: int, k: int, c: int, q: int)
    requires
        0 <= q,
    ensures
        edge_votes_upto(cells, w, h, k, c, q) <= q,
    decreases q,
{
    if q > 0 {
        lemma_edge_votes_bound(cells, w, h, k, c, q - 1);
    }
}

/// A list of cells casts at most four votes per cell.
proof fn lemma_votes_seq_bound(cells: Seq<u16>, w: int, h: int, list: Seq<int>, c: int)
    ensures
        votes_seq(cells, w, h, list, c) <= 4 * list.len(),
    decreases list.len(),
{
    if list.len() > 0 {
        lemma_votes_seq_bound(cells, w, h, list.drop_last(), c);
        lemma_edge_votes_bound(cells, w, h, list.last(), c, 4);
    }
}

/// Removing one cell from a list removes its votes.
proof fn lemma_votes_seq_remove(cells: Seq<u16>, w: int, h: int, list: Seq<int>, idx: int, c: int)
    requires
        0 <= idx < list.len(),
    ensures
        votes_seq(cells, w, h, list, c) == votes_seq(cells, w, h, list.remove(idx), c)
            + neighbor_votes(cells, w, h, list[idx], c),
    decreases list.len(),
{
    if idx == list.len() - 1 {
        assert(list.remove(idx) =~= list.drop_last());
    } else {
        lemma_votes_seq_remove(cells, w, h, list.drop_last(), idx, c);
        assert(list.remove(idx).drop_last() =~= list.drop_last().remove(idx));
        assert(list.remove(idx).last() == list.last());
    }
}

/// `votes_below` only reads the set below `m`.
proof fn lemma_votes_below_congruent(
    cells: Seq<u16>,
    w: int,
    h: int,
    s1: Set<int>,
    s2: Set<int>,
    c: int,
    m: int,
)
    requires
        forall|k: int| 0 <= k < m ==> s1.contains(k) == s2.contains(k),
    ensures
        votes_below(cells, w, h, s1, c, m) == votes_below(cells, w, h, s2, c, m),
    decreases m,
{
    if m > 0 {
        lemma_votes_below_congruent(cells, w, h, s1, s2, c, m - 1);
    }
}

/// Summing votes over a duplicate-free list of the members of a set below
/// `m` gives the set's votes, in whatever order the list has them.
proof fn lemma_votes_seq_set(
    cells: Seq<u16>,
    w: int,
    h: int,
    list: Seq<int>,
    s: Set<int>,
    c: int,
    m: int,
)
    requires
        list.no_duplicates(),
        forall|k: int| s.contains(k) <==> list.contains(k),
        forall|a: int| 0 <= a < list.len() ==> 0 <= #[trigger] list[a] < m,
    ensures
        votes_seq(cells, w, h, list, c) == votes_below(cells, w, h, s, c, m),
    decreases m,
{
    if m <= 0 {
        if list.len() > 0 {
            assert(0 <= list[0] < m);
        }
    } else if list.contains(m - 1) {
        let idx = choose|a: int| 0 <= a < list.len() && list[a] == m - 1;
        let l2 = list.remove(idx);
        let s2 = s.remove(m - 1);
        assert forall|a: int| 0 <= a < l2.len() implies 0 <= #[trigger] l2[a] < m - 1 by {
            if a < idx {
                assert(list[a] != list[idx]);
            } else {
                assert(l2[a] == list[a + 1]);
                assert(list[a + 1] != list[idx]);
            }
        }
        assert forall|a: int, b: int| 0 <= a < l2.len() && 0 <= b < l2.len() && a != b implies l2[a]
            != l2[b] by {
            let a1 = if a < idx { a } else { a + 1 };
            let b1 = if b < idx { b } else { b + 1 };
            assert(l2[a] == list[a1]);
            assert(l2[b] == list[b1]);
        }
        assert(l2.no_duplicates());
        assert forall|k: int| s2.contains(k) <==> l2.contains(k) by {
            if s2.contains(k) {
                assert(list.contains(k));
                let a = choose|a: int| 0 <= a < list.len() && list[a] == k;
                assert(a != idx);
                if a < idx {
                    assert(l2[a] == k);
                } else {
                    assert(l2[a - 1] == k);
                }
            }
            if l2.contains(k) {
                let a = choose|a: int| 0 <= a < l2.len() && l2[a] == k;
                let a1 = if a < idx { a } else { a + 1 };
                assert(list[a1] == k);
                assert(k < m - 1);
            }
        }
        lemma_votes_seq_remove(cells, w, h, list, idx, c);
        lemma_votes_seq_set(cells, w, h, l2, s2, c, m - 1);
        lemma_votes_below_congruent(cells, w, h, s, s2, c, m - 1);
    } else {
        assert forall|a: int| 0 <= a < list.len() implies 0 <= #[trigger] list[a] < m - 1 by {
            assert(list.contains(list[a]));
        }
        lemma_votes_seq_set(cells, w, h, list, s, c, m - 1);
    }
}

/// `color` appears in the tally.
pub open spec fn tally_has(tally: Seq<(u16, u64)>, c: int) -> bool {
    exists|a: int| 0 <= a < tally.len() && tally[a].0 as int == c
}

/// The tally holds distinct colors.
pub open spec fn tally_distinct(tally: Seq<(u16, u64)>) -> bool {
    forall|a: int, b: int| 0 <= a < b < tally.len() ==> tally[a].0 != tally[b].0
}

/// The tally counts, for each color other than `color`, the votes of the
/// cells of `list` plus the first `q` directions around cell `k`, and lists
/// every such color with a vote.
pub open spec fn tally_ok(
    cells: Seq<u16>,
    w: int,
    h: int,
    color: u16,
    tally: Seq<(u16, u64)>,
    list: Seq<int>,
    k: int,
    q: int,
) -> bool {
    &&& tally_distinct(tally)
    &&& forall|a: int|
        0 <= a < tally.len() ==> {
            &&& tally[a].0 != color
            &&& tally[a].1 > 0
            &&& tally[a].1 == votes_seq(cells, w, h, list, tally[a].0 as int) + edge_votes_upto(
                cells,
                w,
                h,
                k,
                tally[a].0 as int,
                q,
            )
        }
    &&& forall|c: int|
        0 <= c <= u16::MAX && c != color && votes_seq(cells, w, h, list, c) + edge_votes_upto(
            cells,
            w,
            h,
            k,
            c,
            q,
        ) > 0 ==> #[trigger] tally_has(tally, c)
}

/// `t` is the vote winner of `list`: a color other than `color` with votes,
/// ahead of every other such color by votes, then by lower index.
pub open spec fn is_winner(cells: Seq<u16>, w: int, h: int, list: Seq<int>, color: u16, t: int) -> bool {
    &&& 0 <= t <= u16::MAX
    &&& t != color
    &&& votes_seq(cells, w, h, list, t) > 0
    &&& forall|c2: int|
        0 <= c2 <= u16::MAX && c2 != color ==> #[trigger] votes_seq(cells, w, h, list, c2)
            < votes_seq(cells, w, h, list, t) || (votes_seq(cells, w, h, list, c2) == votes_seq(
            cells,
            w,
            h,
            list,
            t,
        ) && t <= c2)
}

/// Cast one vote for `nc` when it differs from the component's `color`
/// (same-color neighbors are inside the component and never vote).
fn cast_vote(votes: &mut Vec<(u16, u64)>, nc: u16, color: u16)
    requires
        tally_distinct(old(votes)@),
        forall|a: int| 0 <= a < old(votes)@.len() ==> old(votes)@[a].1 < u64::MAX,
    ensures
        nc == color ==> final(votes)@ == old(votes)@,
        nc != color && tally_has(old(votes)@, nc as int) ==> {
            &&& final(votes)@.len() == old(votes)@.len()
            &&& forall|a: int|
                0 <= a < old(votes)@.len() ==> (#[trigger] final(votes)@[a]).0 == old(
                    votes,
                )@[a].0 && final(votes)@[a].1 == old(votes)@[a].1 + if old(votes)@[a].0 == nc {
                    1int
                } else {
                    0int
                }
        },
        nc != color && !tally_has(old(votes)@, nc as int) ==> final(votes)@ == old(votes)@.push(
            (nc, 1u64),
        ),
{
    if nc == color {
        return;
    }
    let mut a: usize = 0;
    while a < votes.len()
        invariant
            a <= votes@.len(),
            votes@ == old(votes)@,
            nc != color,
            forall|b: int| 0 <= b < a ==> votes@[b].0 != nc,
            tally_distinct(old(votes)@),
            forall|b: int| 0 <= b < old(votes)@.len() ==> old(votes)@[b].1 < u64::MAX,
        decreases votes@.len() - a,
    {
        if votes[a].0 == nc {
            let cnt = votes[a].1;
            votes.set(a, (nc, cnt + 1));
            return;
        }
        a += 1;
    }
    votes.push((nc, 1));
}

/// Tally per-boundary-edge votes for the component's differently-colored
/// neighbors and return the winner (most votes; lowest palette index on a tie),
/// or `None` when the component has no differently-colored neighbor.
fn majority_neighbor(
    cells: &Vec<u16>,
    width: usize,
    height: usize,
    color: u16,
    component: &Vec<usize>,
) -> (r: Option<u16>)
    requires
        width > 0,
        height > 0,
        width * height == cells@.len(),
        component@.len() <= u32::MAX,
        forall|a: int| 0 <= a < component@.len() ==> component@[a] < cells@.len(),
    ensures
        match r {
            Some(t) => is_winner(
                cells@,
                width as int,
                height as int,
                as_ints(component@),
                color,
                t as int,
            ),
            None => forall|c: int|
                0 <= c <= u16::MAX && c != color ==> #[trigger] votes_seq(
                    cells@,
                    width as int,
                    height as int,
                    as_ints(component@),
                    c,
                ) == 0,
        },
{
    let ghost w = width as int;
    let ghost h = height as int;
    let ghost list = as_ints(component@);
    let n = cells.len();
    // (neighbor color, votes). A `Vec`, not a hash map: no iteration-order leak,
    // and a small component touches only a few distinct colors.
    let mut votes: Vec<(u16, u64)> = Vec::new();
    let mut t: usize = 0;
    while t < component.len()
        invariant
            t <= component@.len(),
            width > 0,
            height > 0,
            width * height == cells@.len(),
            n == cells@.len(),
            component@.len() <= u32::MAX,
            forall|a: int| 0 <= a < component@.len() ==> component@[a] < cells@.len(),
            w == width as int,
            h == height as int,
            list == as_ints(component@),
            tally_ok(cells@, w, h, color, votes@, list.take(t as int), 0, 0),
        decreases component@.len() - t,
    {
        let idx = component[t];
        let mut d: u8 = 0;
        while d < 4
            invariant
                t < component@.len(),
                d <= 4,
                idx == component@[t as int],
                idx < cells@.len(),
                width > 0,
                height > 0,
                width * height == cells@.len(),
                n == cells@.len(),
                component@.len() <= u32::MAX,
                w == width as int,
                h == height as int,
                list == as_ints(component@),
                tally_ok(cells@, w, h, color, votes@, list.take(t as int), idx as int, d as int),
            decreases 4 - d,
        {
            let ghost old_votes = votes@;
            let ghost prefix = list.take(t as int);
            proof {
                assert forall|a: int| 0 <= a < votes@.len() implies votes@[a].1 < u64::MAX by {
                    let c = votes@[a].0 as int;
                    lemma_votes_seq_bound(cells@, w, h, prefix, c);
                    lemma_edge_votes_bound(cells@, w, h, idx as int, c, d as int);
                }
            }
            match neighbor_in_dir(width, height, idx, d) {
                Some(j) => {
                    let nc = cells[j];
                    cast_vote(&mut votes, nc, color);
                    proof {
                        let c0 = nc as int;
                        assert forall|c: int| #[trigger] edge_votes_upto(cells@, w, h, idx as int, c, d + 1)
                            == edge_votes_upto(cells@, w, h, idx as int, c, d as int) + if c == c0 { 1int } else { 0int } by {}
                        if nc != color && !tally_has(old_votes, c0) {
                            assert(votes@[old_votes.len() as int] == (nc, 1u64));
                            assert(votes_seq(cells@, w, h, prefix, c0) + edge_votes_upto(cells@, w, h, idx as int, c0, d as int) == 0) by {
                                if votes_seq(cells@, w, h, prefix, c0) + edge_votes_upto(cells@, w, h, idx as int, c0, d as int) > 0 {
                                    assert(tally_has(old_votes, c0));
                                }
                            }
                            assert forall|c: int| 0 <= c <= u16::MAX && c != color && votes_seq(cells@, w, h, prefix, c)
                                + edge_votes_upto(cells@, w, h, idx as int, c, d + 1) > 0 implies #[trigger] tally_has(votes@, c) by {
                                if c == c0 {
                                    assert(votes@[old_votes.len() as int].0 as int == c);
                                } else {
                                    assert(tally_has(old_votes, c));
                                    let a = choose|a: int| 0 <= a < old_votes.len() && old_votes[a].0 as int == c;
                                    assert(votes@[a].0 as int == c);
                                }
                            }
                        } else if nc != color {
                            assert forall|c: int| 0 <= c <= u16::MAX && c != color && votes_seq(cells@, w, h, prefix, c)
                                + edge_votes_upto(cells@, w, h, idx as int, c, d + 1) > 0 implies #[trigger] tally_has(votes@, c) by {
                                if c == c0 {
                                    assert(tally_has(old_votes, c));
                                } else {
                                    assert(tally_has(old_votes, c));
                                }
                                let a = choose|a: int| 0 <= a < old_votes.len() && old_votes[a].0 as int == c;
                                assert(votes@[a].0 as int == c);
                            }
                        } else {
                            assert forall|c: int| 0 <= c <= u16::MAX && c != color && votes_seq(cells@, w, h, prefix, c)
                                + edge_votes_upto(cells@, w, h, idx as int, c, d + 1) > 0 implies #[trigger] tally_has(votes@, c) by {
                                assert(tally_has(old_votes, c));
                            }
                        }
                    }
                },
                None => {
                    proof {
                        assert forall|c: int| #[trigger] edge_votes_upto(cells@, w, h, idx as int, c, d + 1)
                            == edge_votes_upto(cells@, w, h, idx as int, c, d as int) by {}
                    }
                },
            }
            d += 1;
        }
        proof {
            let prefix = list.take(t as int);
            let next = list.take(t + 1);
            assert(next.drop_last() =~= prefix);
            assert(next.last() == idx as int);
            assert forall|c: int| #[trigger] votes_seq(cells@, w, h, next, c) == votes_seq(cells@, w, h, prefix, c)
                + edge_votes_upto(cells@, w, h, idx as int, c, 4) by {}
        }
        t += 1;
    }
    proof {
        assert(list.take(component@.len() as int) =~= list);
    }
    if votes.len() == 0 {
        proof {
            assert forall|c: int| 0 <= c <= u16::MAX && c != color implies #[trigger] votes_seq(cells@, w, h, list, c) == 0 by {
                if votes_seq(cells@, w, h, list, c) + edge_votes_upto(cells@, w, h, 0, c, 0) > 0 {
                    assert(tally_has(votes@, c));
                }
            }
        }
        return None;
    }
    // Winner: most votes, ties to the lowest palette index, whatever order the
    // colors were first seen in.
    let mut bi: usize = 0;
    let mut a: usize = 1;
    while a < votes.len()
        invariant
            bi < a <= votes@.len(),
            forall|e: int|
                0 <= e < a ==> votes@[e].1 < votes@[bi as int].1 || (votes@[e].1 == votes@[bi as int].1
                    && votes@[bi as int].0 <= votes@[e].0),
        decreases votes@.len() - a,
    {
        if votes[a].1 > votes[bi].1 || (votes[a].1 == votes[bi].1 && votes[a].0 < votes[bi].0) {
            bi = a;
        }
        a += 1;
    }
    let winner = votes[bi].0;
    proof {
        assert(votes_seq(cells@, w, h, list, winner as int) == votes@[bi as int].1) by {
            assert(edge_votes_upto(cells@, w, h, 0, winner as int, 0) == 0);
        }
        assert forall|c2: int| 0 <= c2 <= u16::MAX && c2 != color implies #[trigger] votes_seq(cells@, w, h, list, c2)
            < votes_seq(cells@, w, h, list, winner as int) || (votes_seq(cells@, w, h, list, c2) == votes_seq(
            cells@, w, h, list, winner as int) && winner <= c2) by {
            assert(edge_votes_upto(cells@, w, h, 0, c2, 0) == 0);
            if votes_seq(cells@, w, h, list, c2) > 0 {
                assert(tally_has(votes@, c2));
                let e = choose|e: int| 0 <= e < votes@.len() && votes@[e].0 as int == c2;
                assert(votes@[e].1 == votes_seq(cells@, w, h, list, c2));
            }
        }
    }
    Some(winner)
}

// ---------------------------------------------------------------------------
// Flood fill
// ---------------------------------------------------------------------------

/// Every same-color neighbor of a visited cell is visited.
pub open spec fn closed(cells: Seq<u16>, w: int, h: int, vis: Seq<bool>) -> bool {
    forall|v: int, u: int|
        0 <= v < vis.len() && 0 <= u < vis.len() && vis[v] && #[trigger] is_neighbor(w, h, v, u)
            && cells[u] == cells[v] ==> vis[u]
}

/// Every `color` neighbor of cell `k` is visited.
pub open spec fn cell_done(cells: Seq<u16>, w: int, h: int, color: u16, vis: Seq<bool>, k: int) -> bool {
    forall|u: int| #[trigger] is_neighbor(w, h, k, u) && cells[u] == color ==> vis[u]
}

/// The state of a flood fill from `start`: the cells visited since `vis0`
/// have `color`, are connected to `start`, and are each either on the stack
/// or already in the component, never both and never twice.
pub open spec fn fill_ok(
    cells: Seq<u16>,
    w: int,
    h: int,
    color: u16,
    start: int,
    vis0: Seq<bool>,
    vis: Seq<bool>,
    stack: Seq<usize>,
    comp: Seq<usize>,
) -> bool {
    &&& vis0.len() == cells.len()
    &&& vis.len() == cells.len()
    &&& forall|k: int| 0 <= k < cells.len() && #[trigger] vis0[k] ==> vis[k]
    &&& forall|k: int|
        0 <= k < cells.len() && #[trigger] vis[k] && !vis0[k] ==> {
            &&& cells[k] == color
            &&& connected(cells, w, h, start, k)
            &&& stack.contains(k as usize) || comp.contains(k as usize)
        }
    &&& forall|a: int|
        0 <= a < stack.len() ==> #[trigger] stack[a] < cells.len() && vis[stack[a] as int]
            && !vis0[stack[a] as int]
    &&& forall|a: int|
        0 <= a < comp.len() ==> #[trigger] comp[a] < cells.len() && vis[comp[a] as int]
            && !vis0[comp[a] as int]
    &&& stack.no_duplicates()
    &&& comp.no_duplicates()
    &&& forall|a: int, b: int|
        0 <= a < stack.len() && 0 <= b < comp.len() ==> #[trigger] stack[a] != #[trigger] comp[b]
}

/// A duplicate-free list of cells below `n` has at most `n` entries.
proof fn lemma_distinct_bounded(s: Seq<usize>, n: int)
    requires
        n >= 0,
        s.no_duplicates(),
        forall|a: int| 0 <= a < s.len() ==> #[trigger] s[a] < n,
    ensures
        s.len() <= n,
        as_ints(s).no_duplicates(),
        as_ints(s).to_set().len() == s.len(),
{
    let l = as_ints(s);
    assert forall|a: int, b: int| 0 <= a < l.len() && 0 <= b < l.len() && a != b implies l[a]
        != l[b] by {
        assert(s[a] != s[b]);
    }
    assert(l.no_duplicates());
    l.unique_seq_to_set();
    {
        vstd::set_lib::lemma_int_range(0, n);
        assert forall|k: int| l.to_set().contains(k) implies vstd::set_lib::set_int_range(0, n).contains(k) by {
            let a = choose|a: int| 0 <= a < l.len() && l[a] == k;
            assert(s[a] < n);
        }
        vstd::set_lib::lemma_len_subset(l.to_set(), vstd::set_lib::set_int_range(0, n));
        assert(l.len() == s.len());
    }
    assert(l.len() == s.len());
}

/// Mark `ni` visited and enqueue it when it is unvisited and the same `color`
/// (4-connected flood-fill step, read from the input snapshot).
fn push_if(cells: &Vec<u16>, visited: &mut Vec<bool>, stack: &mut Vec<usize>, ni: usize, color: u16)
    requires
        ni < cells@.len(),
        ni < old(visited)@.len(),
    ensures
        !old(visited)@[ni as int] && cells@[ni as int] == color ==> final(visited)@ == old(
            visited,
        )@.update(ni as int, true) && final(stack)@ == old(stack)@.push(ni),
        !(!old(visited)@[ni as int] && cells@[ni as int] == color) ==> final(visited)@ == old(
            visited,
        )@ && final(stack)@ == old(stack)@,
{
    if !visited[ni] && cells[ni] == color {
        visited.set(ni, true);
        stack.push(ni);
    }
}

/// Visit the same-color neighbors of `idx`, the cell just moved from the
/// stack to the component.
fn visit_neighbors(
    cells: &Vec<u16>,
    width: usize,
    height: usize,
    idx: usize,
    color: u16,
    visited: &mut Vec<bool>,
    stack: &mut Vec<usize>,
    Ghost(start): Ghost<int>,
    Ghost(vis0): Ghost<Seq<bool>>,
    Ghost(comp): Ghost<Seq<usize>>,
)
    requires
        width > 0,
        height > 0,
        width * height == cells@.len(),
        cells@.len() <= usize::MAX,
        comp.len() > 0,
        comp.last() == idx,
        fill_ok(cells@, width as int, height as int, color, start, vis0, old(visited)@, old(stack)@, comp),
    ensures
        fill_ok(cells@, width as int, height as int, color, start, vis0, final(visited)@, final(stack)@, comp),
        forall|k: int| 0 <= k < cells@.len() && #[trigger] old(visited)@[k] ==> final(visited)@[k],
        cell_done(cells@, width as int, height as int, color, final(visited)@, idx as int),
{
    let ghost w = width as int;
    let ghost h = height as int;
    let ghost vis_in = visited@;
    proof {
        assert(0 <= comp.len() - 1 < comp.len());
        assert(comp[comp.len() - 1] < cells@.len());
        lemma_steps(w, h, idx as int);
        assert(connected(cells@, w, h, start, idx as int));
        assert(cells@[idx as int] == color);
    }
    let mut d: u8 = 0;
    while d < 4
        invariant
            d <= 4,
            width > 0,
            height > 0,
            w == width as int,
            h == height as int,
            width * height == cells@.len(),
            cells@.len() <= usize::MAX,
            idx < cells@.len(),
            comp.contains(idx),
            connected(cells@, w, h, start, idx as int),
            cells@[idx as int] == color,
            fill_ok(cells@, w, h, color, start, vis0, visited@, stack@, comp),
            forall|k: int| 0 <= k < cells@.len() && #[trigger] vis_in[k] ==> visited@[k],
            vis_in.len() == cells@.len(),
            forall|e: int|
                0 <= e < d ==> match #[trigger] step(w, h, idx as int, e) {
                    Some(j) => cells@[j] == color ==> visited@[j],
                    None => true,
                },
            forall|e: int|
                0 <= e < 4 && (#[trigger] step(w, h, idx as int, e)) is Some ==> is_neighbor(
                    w,
                    h,
                    idx as int,
                    step(w, h, idx as int, e)->0,
                ),
        decreases 4 - d,
    {
        match neighbor_in_dir(width, height, idx, d) {
            Some(j) => {
                let ghost vis_before = visited@;
                let ghost stack_before = stack@;
                push_if(cells, visited, stack, j, color);
                proof {
                    assert(is_neighbor(w, h, idx as int, j as int));
                    if !vis_before[j as int] && cells@[j as int] == color {
                        lemma_connected_extend(cells@, w, h, start, idx as int, j as int);
                        assert(stack@.last() == j);
                        assert forall|a: int, b: int| 0 <= a < stack@.len() && 0 <= b < comp.len() implies #[trigger] stack@[a] != #[trigger] comp[b] by {
                            if a == stack@.len() - 1 {
                                assert(vis_before[comp[b] as int]);
                            } else {
                                assert(stack@[a] == stack_before[a]);
                            }
                        }
                        assert forall|a: int, b: int| 0 <= a < stack@.len() && 0 <= b < stack@.len() && a != b implies stack@[a] != stack@[b] by {
                            if a == stack@.len() - 1 {
                                assert(vis_before[stack_before[b] as int]);
                            } else if b == stack@.len() - 1 {
                                assert(vis_before[stack_before[a] as int]);
                            }
                        }
                        assert forall|k: int| 0 <= k < cells@.len() && #[trigger] visited@[k] && !vis0[k] implies {
                            &&& cells@[k] == color
                            &&& connected(cells@, w, h, start, k)
                            &&& stack@.contains(k as usize) || comp.contains(k as usize)
                        } by {
                            if k == j as int {
                                assert(stack@[stack@.len() - 1] == j);
                            } else {
                                assert(vis_before[k]);
                                if stack_before.contains(k as usize) {
                                    let a = choose|a: int| 0 <= a < stack_before.len() && stack_before[a] == k as usize;
                                    assert(stack@[a] == k as usize);
                                }
                            }
                        }
                    }
                }
            },
            None => {},
        }
        d += 1;
    }
    proof {
        assert forall|u: int| #[trigger] is_neighbor(w, h, idx as int, u) && cells@[u] == color implies visited@[u] by {
            let e = choose|e: int| 0 <= e < 4 && step(w, h, idx as int, e) == Some(u);
            assert(match step(w, h, idx as int, e) {
                Some(j) => cells@[j] == color ==> visited@[j],
                None => true,
            });
        }
    }
}

/// Once the stack is empty, the fill has reached every cell connected to
/// `start`, and the visited cells stay closed under same-color neighbors.
proof fn lemma_fill_complete(
    cells: Seq<u16>,
    w: int,
    h: int,
    color: u16,
    start: int,
    vis0: Seq<bool>,
    vis: Seq<bool>,
    comp: Seq<usize>,
)
    requires
        fill_ok(cells, w, h, color, start, vis0, vis, Seq::empty(), comp),
        forall|a: int| 0 <= a < comp.len() ==> cell_done(cells, w, h, color, vis, #[trigger] comp[a] as int),
        closed(cells, w, h, vis0),
        0 <= start < cells.len(),
        cells.len() <= usize::MAX,
        vis[start],
        !vis0[start],
        w * h == cells.len(),
    ensures
        forall|j: int| connected(cells, w, h, start, j) ==> vis[j] && !vis0[j],
        closed(cells, w, h, vis),
{
    assert forall|j: int| connected(cells, w, h, start, j) implies vis[j] && !vis0[j] by {
        let p = connecting_path(cells, w, h, start, j);
        lemma_path_reached(cells, w, h, color, start, vis0, vis, comp, p, p.len() - 1);
    }
    assert forall|v: int, u: int|
        0 <= v < vis.len() && 0 <= u < vis.len() && vis[v] && #[trigger] is_neighbor(w, h, v, u)
            && cells[u] == cells[v] implies vis[u] by {
        if !vis0[v] {
            assert(comp.contains(v as usize));
            let a = choose|a: int| 0 <= a < comp.len() && comp[a] == v as usize;
            assert(comp[a] as int == v);
            assert(cell_done(cells, w, h, color, vis, comp[a] as int));
        } else {
            assert(vis0[u]);
        }
    }
}

/// Each cell of a same-color path from `start` was reached by the fill.
proof fn lemma_path_reached(
    cells: Seq<u16>,
    w: int,
    h: int,
    color: u16,
    start: int,
    vis0: Seq<bool>,
    vis: Seq<bool>,
    comp: Seq<usize>,
    p: Seq<int>,
    t: int,
)
    requires
        fill_ok(cells, w, h, color, start, vis0, vis, Seq::empty(), comp),
        forall|a: int| 0 <= a < comp.len() ==> cell_done(cells, w, h, color, vis, #[trigger] comp[a] as int),
        closed(cells, w, h, vis0),
        0 <= start < cells.len(),
        cells.len() <= usize::MAX,
        vis[start],
        !vis0[start],
        is_same_color_path(cells, w, h, p),
        p[0] == start,
        0 <= t < p.len(),
    ensures
        vis[p[t]],
        !vis0[p[t]],
    decreases t,
{
    if t > 0 {
        lemma_path_reached(cells, w, h, color, start, vis0, vis, comp, p, t - 1);
        let prev = p[t - 1];
        let cur = p[t];
        assert(is_neighbor(w, h, prev, cur));
        assert(0 <= prev < cells.len());
        assert(cells[prev] == color);
        assert(cells[cur] == cells[p[0]]);
        assert(comp.contains(prev as usize));
        let a = choose|a: int| 0 <= a < comp.len() && comp[a] == prev as usize;
        assert(comp[a] as int == prev);
        assert(cell_done(cells, w, h, color, vis, comp[a] as int));
        assert(vis[cur]);
        if vis0[cur] {
            assert(is_neighbor(w, h, cur, prev));
            assert(vis0[prev]);
        }
    }
}

/// Remove small same-color 4-connected components from a `BeadPattern`,
/// merging each into its majority neighbor color, and return a new pattern of
/// the same shape.
///
/// Every same-color 4-connected component with at most `min_region` cells is
/// remapped to the color that wins the per-boundary-edge vote of its
/// differently-colored neighbors (most votes, then the lowest palette index);
/// larger components, and components with no differently-colored neighbor,
/// are kept. `min_region == 0` changes nothing. Components, sizes and tallies
/// are all read from the input, so the result does not depend on scan order.
/// An empty or malformed pattern (`width == 0`, `height == 0`, or
/// `cells.len() != width * height`) is returned verbatim.
pub fn despeckle(pattern: &BeadPattern, min_region: u32) -> (out: BeadPattern)
    ensures
        is_despeckle_of(pattern, min_region, &out),
{
    let width = pattern.width as usize;
    let height = pattern.height as usize;
    let cells = &pattern.cells;
    let n = cells.len();
    proof {
        assert(pattern.width as int * pattern.height as int <= 0xffff_ffff * 0xffff_ffff) by (nonlinear_arith)
            requires
                pattern.width <= 0xffff_ffff,
                pattern.height <= 0xffff_ffff,
        ;
    }
    if n == 0 || width == 0 || height == 0 || pattern.width as u64 * pattern.height as u64
        != n as u64 {
        let copy = pattern.cells.clone();
        proof {
            assert(copy@ =~= pattern.cells@);
        }
        return BeadPattern { width: pattern.width, height: pattern.height, cells: copy };
    }
    let ghost w = width as int;
    let ghost h = height as int;
    let ghost cs = cells@;
    // The output starts as a copy of the input snapshot: discovery and tallies
    // keep reading `cells` while remaps write `out`.
    let mut out = cells.clone();
    proof {
        assert(out@ =~= cells@);
    }
    let mut visited: Vec<bool> = Vec::new();
    while visited.len() < n
        invariant
            visited@.len() <= n,
            n == cells@.len(),
            forall|k: int| 0 <= k < visited@.len() ==> !visited@[k],
        decreases n - visited@.len(),
    {
        visited.push(false);
    }
    // Explicit stack for the flood fill: no recursion, so no deep-stack risk
    // on a large single-color region.
    let mut stack: Vec<usize> = Vec::new();
    let mut component: Vec<usize> = Vec::new();
    let mut start: usize = 0;
    while start < n
        invariant
            start <= n,
            n == cells@.len(),
            cs == cells@,
            cells@ == pattern.cells@,
            w == width as int,
            h == height as int,
            width == pattern.width,
            height == pattern.height,
            width > 0,
            height > 0,
            w * h == n,
            visited@.len() == n,
            out@.len() == n,
            forall|k: int| 0 <= k < start ==> visited@[k],
            closed(cs, w, h, visited@),
            forall|k: int|
                0 <= k < n ==> #[trigger] out@[k] == if visited@[k] {
                    despeckled_cell(pattern, min_region, k)
                } else {
                    cs[k]
                },
        decreases n - start,
    {
        if !visited[start] {
            let color = cells[start];
            let ghost vis0 = visited@;
            let ghost out0 = out@;
            // Discover the same-color 4-connected component containing `start`.
            component.clear();
            stack.clear();
            stack.push(start);
            visited.set(start, true);
            proof {
                lemma_connected_self(cs, w, h, start as int);
                assert(stack@[0] == start);
            }
            while stack.len() > 0
                invariant
                    n == cells@.len(),
                    cs == cells@,
                    w == width as int,
                    h == height as int,
                    width > 0,
                    height > 0,
                    w * h == n,
                    start < n,
                    color == cs[start as int],
                    visited@[start as int],
                    !vis0[start as int],
                    fill_ok(cs, w, h, color, start as int, vis0, visited@, stack@, component@),
                    forall|a: int|
                        0 <= a < component@.len() ==> cell_done(
                            cs,
                            w,
                            h,
                            color,
                            visited@,
                            #[trigger] component@[a] as int,
                        ),
                decreases n - component@.len(),
            {
                proof {
                    lemma_distinct_bounded(component@, n as int);
                    lemma_distinct_bounded(stack@, n as int);
                    assert(stack@[stack@.len() - 1] < n);
                    if component@.len() == n {
                        // The component list already names every cell, so the
                        // stack cannot hold another one.
                        let l = as_ints(component@);
                        vstd::set_lib::lemma_int_range(0, n as int);
                        let top = stack@[stack@.len() - 1] as int;
                        assert(!l.to_set().contains(top)) by {
                            if l.to_set().contains(top) {
                                let b = choose|b: int| 0 <= b < l.len() && l[b] == top;
                                assert(stack@[stack@.len() - 1] != component@[b]);
                            }
                        }
                        assert(l.to_set().insert(top).subset_of(vstd::set_lib::set_int_range(0, n as int)));
                        vstd::set_lib::lemma_len_subset(l.to_set().insert(top), vstd::set_lib::set_int_range(0, n as int));
                    }
                }
                let ghost stack_before = stack@;
                let ghost comp_before = component@;
                let ghost vis_before = visited@;
                let idx = stack.pop().unwrap();
                component.push(idx);
                proof {
                    assert(stack_before.last() == idx);
                    assert(stack@ =~= stack_before.drop_last());
                    assert forall|a: int, b: int| 0 <= a < stack@.len() && 0 <= b < component@.len() implies #[trigger] stack@[a] != #[trigger] component@[b] by {
                        assert(stack@[a] == stack_before[a]);
                        if b < comp_before.len() {
                            assert(component@[b] == comp_before[b]);
                        } else {
                            assert(stack_before[a] != stack_before[stack_before.len() - 1]);
                        }
                    }
                    assert forall|a: int, b: int| 0 <= a < component@.len() && 0 <= b < component@.len() && a != b implies component@[a] != component@[b] by {
                        if a == comp_before.len() {
                            assert(stack_before[stack_before.len() - 1] != comp_before[b]);
                        } else if b == comp_before.len() {
                            assert(stack_before[stack_before.len() - 1] != comp_before[a]);
                        }
                    }
                    assert forall|k: int| 0 <= k < cs.len() && #[trigger] visited@[k] && !vis0[k] implies {
                        &&& cs[k] == color
                        &&& connected(cs, w, h, start as int, k)
                        &&& stack@.contains(k as usize) || component@.contains(k as usize)
                    } by {
                        if stack_before.contains(k as usize) {
                            let a = choose|a: int| 0 <= a < stack_before.len() && stack_before[a] == k as usize;
                            if a == stack_before.len() - 1 {
                                assert(component@[comp_before.len() as int] == k as usize);
                            } else {
                                assert(stack@[a] == k as usize);
                            }
                        } else {
                            let b = choose|b: int| 0 <= b < comp_before.len() && comp_before[b] == k as usize;
                            assert(component@[b] == k as usize);
                        }
                    }
                    assert(fill_ok(cs, w, h, color, start as int, vis0, visited@, stack@, component@));
                }
                visit_neighbors(
                    cells,
                    width,
                    height,
                    idx,
                    color,
                    &mut visited,
                    &mut stack,
                    Ghost(start as int),
                    Ghost(vis0),
                    Ghost(component@),
                );
                proof {
                    assert forall|a: int| 0 <= a < component@.len() implies cell_done(cs, w, h, color, visited@, #[trigger] component@[a] as int) by {
                        if a < comp_before.len() {
                            assert(cell_done(cs, w, h, color, vis_before, comp_before[a] as int));
                            assert forall|u: int| #[trigger] is_neighbor(w, h, component@[a] as int, u) && cs[u] == color implies visited@[u] by {
                                assert(vis_before[u]);
                            }
                        }
                    }
                }
            }
            proof {
                assert(stack@ =~= Seq::<usize>::empty());
                lemma_fill_complete(cs, w, h, color, start as int, vis0, visited@, component@);
                lemma_distinct_bounded(component@, n as int);
            }
            let ghost list = as_ints(component@);
            let ghost comp_set = self::component(cs, w, h, start as int);
            proof {
                assert forall|k: int| comp_set.contains(k) <==> list.contains(k) by {
                    if comp_set.contains(k) {
                        lemma_connected_color(cs, w, h, start as int, k);
                        assert(visited@[k] && !vis0[k]);
                        assert(component@.contains(k as usize));
                        let b = choose|b: int| 0 <= b < component@.len() && component@[b] == k as usize;
                        assert(list[b] == k);
                    }
                    if list.contains(k) {
                        let b = choose|b: int| 0 <= b < list.len() && list[b] == k;
                        assert(component@[b] < n);
                        assert(visited@[component@[b] as int] && !vis0[component@[b] as int]);
                    }
                }
                assert(list.to_set() =~= comp_set);
                assert(comp_set.len() == component@.len());
            }
            // Only components at or below the threshold are cleanup candidates.
            let small = component.len() as u64 <= min_region as u64;
            let target = if small {
                majority_neighbor(cells, width, height, color, &component)
            } else {
                None
            };
            let ghost dval = despeckled_cell(pattern, min_region, start as int);
            proof {
                if small {
                    assert forall|c: int| #[trigger] votes_seq(cs, w, h, list, c) == votes(cs, w, h, start as int, c) by {
                        assert forall|a: int| 0 <= a < list.len() implies 0 <= #[trigger] list[a] < n as int by {
                            assert(component@[a] < n);
                        }
                        lemma_votes_seq_set(cs, w, h, list, comp_set, c, n as int);
                    }
                }
                match target {
                    Some(t) => {
                        assert forall|c2: int| 0 <= c2 <= u16::MAX && c2 != cs[start as int] as int implies
                            #[trigger] votes(cs, w, h, start as int, c2) < votes(cs, w, h, start as int, t as int)
                            || (votes(cs, w, h, start as int, c2) == votes(cs, w, h, start as int, t as int) && t as int <= c2) by {
                            assert(votes_seq(cs, w, h, list, c2) == votes(cs, w, h, start as int, c2));
                        }
                        assert(votes_seq(cs, w, h, list, t as int) == votes(cs, w, h, start as int, t as int));
                        assert(is_majority(cs, w, h, start as int, t as int));
                        let cm = choose|c: int| #[trigger] is_majority(cs, w, h, start as int, c);
                        lemma_majority_unique(cs, w, h, start as int, cm, t as int);
                        assert(dval == t);
                    },
                    None => {
                        if small {
                            assert forall|c: int| !is_majority(cs, w, h, start as int, c) by {
                                if 0 <= c <= u16::MAX && c != color as int {
                                    assert(votes_seq(cs, w, h, list, c) == votes(cs, w, h, start as int, c));
                                }
                            }
                        }
                        assert(dval == color);
                    },
                }
            }
            if let Some(t) = target {
                let mut a: usize = 0;
                while a < component.len()
                    invariant
                        a <= component@.len(),
                        n == cells@.len(),
                        out@.len() == n,
                        list == as_ints(component@),
                        forall|b: int| 0 <= b < component@.len() ==> #[trigger] component@[b] < n,
                        forall|k: int|
                            0 <= k < n ==> #[trigger] out@[k] == if list.take(a as int).contains(k) {
                                t
                            } else {
                                out0[k]
                            },
                    decreases component@.len() - a,
                {
                    let ghost out_before = out@;
                    let k0 = component[a];
                    out.set(k0, t);
                    proof {
                        assert forall|k: int| 0 <= k < n implies #[trigger] out@[k] == if list.take(a + 1).contains(k) {
                            t
                        } else {
                            out0[k]
                        } by {
                            assert(list.take(a + 1) =~= list.take(a as int).push(k0 as int));
                            if k == k0 as int {
                                assert(list.take(a + 1)[a as int] == k);
                            } else {
                                assert(out@[k] == out_before[k]);
                                if list.take(a + 1).contains(k) {
                                    let pre = list.take(a + 1);
                                    let b = choose|b: int| 0 <= b < pre.len() && pre[b] == k;
                                    assert(list.take(a as int)[b] == k);
                                }
                            }
                        }
                    }
                    a += 1;
                }
                proof {
                    assert(list.take(component@.len() as int) =~= list);
                }
            }
            proof {
                assert forall|k: int|
                    0 <= k < n implies #[trigger] out@[k] == if visited@[k] {
                        despeckled_cell(pattern, min_region, k)
                    } else {
                        cs[k]
                    } by {
                    if visited@[k] && !vis0[k] {
                        assert(connected(cs, w, h, start as int, k));
                        lemma_despeckled_member(pattern, min_region, start as int, k);
                        assert(component@.contains(k as usize));
                        let b = choose|b: int| 0 <= b < component@.len() && component@[b] == k as usize;
                        assert(list[b] == k);
                        assert(list.contains(k));
                        assert(cs[k] == color);
                    } else {
                        if list.contains(k) {
                            let b = choose|b: int| 0 <= b < list.len() && list[b] == k;
                            assert(visited@[component@[b] as int] && !vis0[component@[b] as int]);
                        }
                    }
                }
                assert forall|k: int| 0 <= k < start + 1 implies visited@[k] by {
                    if k < start {
                        assert(vis0[k]);
                    }
                }
            }
        }
        start += 1;
    }
    BeadPattern { width: pattern.width, height: pattern.height, cells: out }
}

// ---------------------------------------------------------------------------
// Laws
// ---------------------------------------------------------------------------

/// The component of a cell is a finite set of grid cells that holds the cell
/// itself.
pub proof fn lemma_component_nonempty(cells: Seq<u16>, w: int, h: int, i: int)
    requires
        0 <= i < cells.len(),
    ensures
        component(cells, w, h, i).finite(),
        component(cells, w, h, i).contains(i),
        component(cells, w, h, i).len() >= 1,
{
    let comp = component(cells, w, h, i);
    lemma_connected_self(cells, w, h, i);
    vstd::set_lib::lemma_int_range(0, cells.len() as int);
    assert forall|j: int| comp.contains(j) implies vstd::set_lib::set_int_range(0, cells.len() as int).contains(j) by {
        lemma_connected_color(cells, w, h, i, j);
    }
    vstd::set_lib::lemma_len_subset(comp, vstd::set_lib::set_int_range(0, cells.len() as int));
    vstd::set::axiom_set_contains_len(comp, i);
}

/// With `min_region == 0` despeckling changes no cell: no component is empty.
pub proof fn lemma_despeckle_min_region_zero(p: &BeadPattern, i: int)
    requires
        0 <= i < p.cells@.len(),
    ensures
        despeckled_cell(p, 0, i) == p.cells@[i],
{
    lemma_component_nonempty(p.cells@, p.width as int, p.height as int, i);
}

/// Despeckling with `min_region == 0` gives back the pattern unchanged.
pub proof fn lemma_despeckle_zero_keeps_pattern(p: &BeadPattern, out: &BeadPattern)
    requires
        is_despeckle_of(p, 0, out),
    ensures
        out.width == p.width,
        out.height == p.height,
        out.cells@ == p.cells@,
{
    if despeckle_shape_ok(p) {
        assert forall|i: int| 0 <= i < p.cells@.len() implies out.cells@[i] == p.cells@[i] by {
            lemma_despeckle_min_region_zero(p, i);
            assert(out.cells@[i] == despeckled_cell(p, 0, i));
        }
        assert(out.cells@ =~= p.cells@);
    }
}

/// All cells of one same-color component get the same despeckled color: a
/// small region is merged as a whole.
pub proof fn lemma_despeckle_component_uniform(p: &BeadPattern, min_region: u32, i: int, k: int)
    requires
        connected(p.cells@, p.width as int, p.height as int, i, k),
    ensures
        despeckled_cell(p, min_region, k) == despeckled_cell(p, min_region, i),
{
    lemma_despeckled_member(p, min_region, i, k);
}

/// Some member of a set below `m` casts a vote for `c` when the set has votes.
proof fn lemma_votes_below_witness(cells: Seq<u16>, w: int, h: int, s: Set<int>, c: int, m: int)
    requires
        votes_below(cells, w, h, s, c, m) > 0,
    ensures
        exists|k: int| 0 <= k < m && s.contains(k) && #[trigger] neighbor_votes(cells, w, h, k, c) > 0,
    decreases m,
{
    if m > 0 {
        if s.contains(m - 1) && neighbor_votes(cells, w, h, m - 1, c) > 0 {
        } else {
            lemma_votes_below_witness(cells, w, h, s, c, m - 1);
            let k = choose|k: int| 0 <= k < m - 1 && s.contains(k) && #[trigger] neighbor_votes(cells, w, h, k, c) > 0;
            assert(0 <= k < m && s.contains(k) && neighbor_votes(cells, w, h, k, c) > 0);
        }
    }
}

/// Some direction of a sweep casts a vote when the sweep has votes.
proof fn lemma_edge_votes_witness(cells: Seq<u16>, w: int, h: int, k: int, c: int, q: int)
    requires
        edge_votes_upto(cells, w, h, k, c, q) > 0,
    ensures
        exists|d: int| 0 <= d < q && #[trigger] edge_vote(cells, w, h, k, c, d) > 0,
    decreases q,
{
    if q > 0 && edge_vote(cells, w, h, k, c, q - 1) == 0 {
        lemma_edge_votes_witness(cells, w, h, k, c, q - 1);
        let d = choose|d: int| 0 <= d < q - 1 && #[trigger] edge_vote(cells, w, h, k, c, d) > 0;
        assert(0 <= d < q && edge_vote(cells, w, h, k, c, d) > 0);
    }
}

/// Despeckling never invents a color: a cell either keeps its color or takes
/// the color of a cell that borders its component.
pub proof fn lemma_despeckle_adjacent_color(p: &BeadPattern, min_region: u32, i: int)
    requires
        despeckle_shape_ok(p),
        0 <= i < p.cells@.len(),
    ensures
        despeckled_cell(p, min_region, i) == p.cells@[i] || exists|k: int, j: int|
            connected(p.cells@, p.width as int, p.height as int, i, k) && #[trigger] is_neighbor(
                p.width as int,
                p.height as int,
                k,
                j,
            ) && p.cells@[j] == despeckled_cell(p, min_region, i),
{
    let cells = p.cells@;
    let w = p.width as int;
    let h = p.height as int;
    if despeckled_cell(p, min_region, i) != cells[i] {
        let c = choose|c: int| #[trigger] is_majority(cells, w, h, i, c);
        assert(is_majority(cells, w, h, i, c));
        lemma_votes_below_witness(cells, w, h, component(cells, w, h, i), c, cells.len() as int);
        let k = choose|k: int|
            0 <= k < cells.len() && component(cells, w, h, i).contains(k) && #[trigger] neighbor_votes(
                cells,
                w,
                h,
                k,
                c,
            ) > 0;
        lemma_edge_votes_witness(cells, w, h, k, c, 4);
        let d = choose|d: int| 0 <= d < 4 && #[trigger] edge_vote(cells, w, h, k, c, d) > 0;
        lemma_steps(w, h, k);
        assert(step(w, h, k, d) is Some);
        let j = step(w, h, k, d)->0;
        assert(is_neighbor(w, h, k, j));
        assert(cells[j] as int == c);
        assert(connected(cells, w, h, i, k) && is_neighbor(w, h, k, j) && cells[j] == despeckled_cell(p, min_region, i));
    }
}


// ---------------------------------------------------------------------------
// Transposition
// ---------------------------------------------------------------------------

/// Where cell `i` of a `w`-wide, `h`-high grid lands in the transposed
/// (`h`-wide, `w`-high) grid: column and row swap.
pub open spec fn tpos(w: int, h: int, i: int) -> int {
    (i % w) * h + i / w
}

/// The cells of a `w`-wide, `h`-high grid, transposed: cell `j` of the
/// `h`-wide result is the original cell at the swapped position.
pub open spec fn transposed_cells(cells: Seq<u16>, w: int, h: int) -> Seq<u16> {
    Seq::new(cells.len(), |j: int| cells[tpos(h, w, j)])
}

/// `q` is the transpose of `p`: width and height swap, and cell `(x, y)` of
/// `q` is cell `(y, x)` of `p`.
pub open spec fn is_transpose_of(p: &BeadPattern, q: &BeadPattern) -> bool {
    &&& q.width == p.height
    &&& q.height == p.width
    &&& q.cells@ == transposed_cells(p.cells@, p.width as int, p.height as int)
}

/// Cell `(x, y)` of a `w`-wide grid and where it lands when transposed.
proof fn lemma_tpos_xy(w: int, h: int, x: int, y: int)
    requires
        0 <= x < w,
        0 <= y < h,
    ensures
        0 <= y * w + x < w * h,
        (y * w + x) % w == x,
        (y * w + x) / w == y,
        tpos(w, h, y * w + x) == x * h + y,
        0 <= x * h + y < w * h,
        (x * h + y) % h == y,
        (x * h + y) / h == x,
        w * h == h * w,
{
    assert(0 <= y * w + x < w * h) by (nonlinear_arith)
        requires 0 <= x < w, 0 <= y < h;
    assert(0 <= x * h + y < w * h) by (nonlinear_arith)
        requires 0 <= x < w, 0 <= y < h;
    assert(w * h == h * w) by (nonlinear_arith);
    vstd::arithmetic::div_mod::lemma_fundamental_div_mod_converse(y * w + x, w, y, x);
    vstd::arithmetic::div_mod::lemma_fundamental_div_mod_converse(x * h + y, h, x, y);
}

/// Every cell of a `w`-wide grid has coordinates `(i % w, i / w)` inside it.
proof fn lemma_xy_of(w: int, h: int, i: int)
    requires
        w > 0,
        h > 0,
        0 <= i < w * h,
    ensures
        0 <= i % w < w,
        0 <= i / w < h,
        i == (i / w) * w + i % w,
{
    vstd::arithmetic::div_mod::lemma_fundamental_div_mod(i, w);
    vstd::arithmetic::div_mod::lemma_mod_pos_bound(i, w);
    vstd::arithmetic::div_mod::lemma_div_pos_is_pos(i, w);
    assert(i == (i / w) * w + i % w) by (nonlinear_arith)
        requires i == w * (i / w) + i % w;
    assert(i / w < h) by (nonlinear_arith)
        requires i == (i / w) * w + i % w, 0 <= i % w, i < w * h, w > 0;
}

/// Transposing a position and transposing back is the identity, and the
/// transposed position swaps column and row.
proof fn lemma_tpos(w: int, h: int, i: int)
    requires
        w > 0,
        h > 0,
        0 <= i < w * h,
    ensures
        0 <= tpos(w, h, i) < h * w,
        tpos(w, h, i) % h == i / w,
        tpos(w, h, i) / h == i % w,
        tpos(h, w, tpos(w, h, i)) == i,
{
    lemma_xy_of(w, h, i);
    let x = i % w;
    let y = i / w;
    lemma_tpos_xy(w, h, x, y);
    lemma_tpos_xy(h, w, y, x);
}

/// Transposing the cells twice gives them back.
proof fn lemma_transpose_twice(cells: Seq<u16>, w: int, h: int)
    requires
        w > 0,
        h > 0,
        cells.len() == w * h,
    ensures
        transposed_cells(transposed_cells(cells, w, h), h, w) == cells,
{
    let tc = transposed_cells(cells, w, h);
    assert(h * w == w * h) by (nonlinear_arith);
    assert forall|k: int| 0 <= k < cells.len() implies transposed_cells(tc, h, w)[k] == cells[k] by {
        lemma_tpos(w, h, k);
        let t = tpos(w, h, k);
        assert(0 <= t < tc.len());
        assert(tc[t] == cells[tpos(h, w, t)]);
    }
    assert(transposed_cells(tc, h, w) =~= cells);
}

/// Transposing keeps 4-neighbors 4-neighbors.
proof fn lemma_neighbor_transpose(w: int, h: int, i: int, j: int)
    requires
        w > 0,
        h > 0,
        is_neighbor(w, h, i, j),
    ensures
        is_neighbor(h, w, tpos(w, h, i), tpos(w, h, j)),
{
    lemma_tpos(w, h, i);
    lemma_tpos(w, h, j);
}

/// A same-color path stays a same-color path when the grid is transposed.
proof fn lemma_connected_transpose(cells: Seq<u16>, w: int, h: int, i: int, j: int)
    requires
        w > 0,
        h > 0,
        cells.len() == w * h,
        connected(cells, w, h, i, j),
    ensures
        connected(transposed_cells(cells, w, h), h, w, tpos(w, h, i), tpos(w, h, j)),
{
    let p = connecting_path(cells, w, h, i, j);
    let tc = transposed_cells(cells, w, h);
    let q = p.map_values(|k: int| tpos(w, h, k));
    assert(h * w == w * h) by (nonlinear_arith);
    assert forall|a: int| 0 <= a < q.len() implies 0 <= #[trigger] q[a] < tc.len() && tc[q[a]] == cells[p[a]] by {
        assert(0 <= p[a] < cells.len());
        lemma_tpos(w, h, p[a]);
    }
    assert forall|a: int| 0 <= a < q.len() implies tc[#[trigger] q[a]] == tc[q[0]] by {
        assert(tc[q[a]] == cells[p[a]]);
        assert(tc[q[0]] == cells[p[0]]);
        assert(cells[p[a]] == cells[p[0]]);
    }
    assert forall|a: int| 0 <= a < q.len() - 1 implies is_neighbor(h, w, #[trigger] q[a], q[a + 1]) by {
        assert(is_neighbor(w, h, p[a], p[a + 1]));
        lemma_neighbor_transpose(w, h, p[a], p[a + 1]);
    }
    assert(is_same_color_path(tc, h, w, q));
    assert(q[0] == tpos(w, h, i) && q.last() == tpos(w, h, j));
}

/// Cells are connected exactly when their transposed positions are connected
/// in the transposed grid.
proof fn lemma_connected_transpose_iff(cells: Seq<u16>, w: int, h: int, i: int, j: int)
    requires
        w > 0,
        h > 0,
        cells.len() == w * h,
        0 <= i < w * h,
        0 <= j < w * h,
    ensures
        connected(cells, w, h, i, j) <==> connected(
            transposed_cells(cells, w, h),
            h,
            w,
            tpos(w, h, i),
            tpos(w, h, j),
        ),
{
    let tc = transposed_cells(cells, w, h);
    if connected(cells, w, h, i, j) {
        lemma_connected_transpose(cells, w, h, i, j);
    }
    if connected(tc, h, w, tpos(w, h, i), tpos(w, h, j)) {
        assert(h * w == w * h) by (nonlinear_arith);
        lemma_connected_transpose(tc, h, w, tpos(w, h, i), tpos(w, h, j));
        lemma_transpose_twice(cells, w, h);
        lemma_tpos(w, h, i);
        lemma_tpos(w, h, j);
    }
}

/// The component of a transposed cell is the transposed component.
proof fn lemma_component_transpose(cells: Seq<u16>, w: int, h: int, i: int)
    requires
        w > 0,
        h > 0,
        cells.len() == w * h,
        0 <= i < w * h,
    ensures
        component(transposed_cells(cells, w, h), h, w, tpos(w, h, i)) == component(cells, w, h, i).map(
            |k: int| tpos(w, h, k),
        ),
        component(transposed_cells(cells, w, h), h, w, tpos(w, h, i)).len() == component(cells, w, h, i).len(),
{
    let tc = transposed_cells(cells, w, h);
    let f = |k: int| tpos(w, h, k);
    let comp = component(cells, w, h, i);
    let tcomp = component(tc, h, w, tpos(w, h, i));
    assert(h * w == w * h) by (nonlinear_arith);
    lemma_tpos(w, h, i);
    assert forall|t: int| tcomp.contains(t) implies comp.map(f).contains(t) by {
        lemma_connected_color(tc, h, w, tpos(w, h, i), t);
        lemma_tpos(h, w, t);
        let k = tpos(h, w, t);
        lemma_connected_transpose_iff(cells, w, h, i, k);
        assert(comp.contains(k) && t == f(k));
    }
    assert forall|t: int| comp.map(f).contains(t) implies tcomp.contains(t) by {
        let k = choose|k: int| comp.contains(k) && t == f(k);
        lemma_connected_color(cells, w, h, i, k);
        lemma_connected_transpose_iff(cells, w, h, i, k);
    }
    assert(tcomp =~= comp.map(f));
    lemma_component_nonempty(cells, w, h, i);
    assert forall|a: int, b: int| comp.contains(a) && comp.contains(b) && #[trigger] f(a) == #[trigger] f(b) implies a == b by {
        lemma_connected_color(cells, w, h, i, a);
        lemma_connected_color(cells, w, h, i, b);
        lemma_tpos(w, h, a);
        lemma_tpos(w, h, b);
    }
    assert(vstd::relations::injective_on(f, comp));
    vstd::set_lib::lemma_map_size(comp, tcomp, f);
}

/// A cell of the transposed grid sees the same neighbor colors: its left and
/// right neighbors are the original's up and down ones, and the other way
/// round.
proof fn lemma_neighbor_votes_transpose(cells: Seq<u16>, w: int, h: int, k: int, c: int)
    requires
        w > 0,
        h > 0,
        cells.len() == w * h,
        0 <= k < w * h,
    ensures
        neighbor_votes(transposed_cells(cells, w, h), h, w, tpos(w, h, k), c) == neighbor_votes(cells, w, h, k, c),
{
    let tc = transposed_cells(cells, w, h);
    lemma_xy_of(w, h, k);
    let x = k % w;
    let y = k / w;
    lemma_tpos_xy(w, h, x, y);
    let t = tpos(w, h, k);
    assert(t == x * h + y);
    if y > 0 {
        lemma_tpos_xy(w, h, x, y - 1);
        assert((y - 1) * w + x == k - w) by (nonlinear_arith)
            requires k == y * w + x;
        lemma_tpos_xy(h, w, y - 1, x);
        assert(tc[t - 1] == cells[k - w]);
    }
    if y + 1 < h {
        lemma_tpos_xy(w, h, x, y + 1);
        assert((y + 1) * w + x == k + w) by (nonlinear_arith)
            requires k == y * w + x;
        lemma_tpos_xy(h, w, y + 1, x);
        assert(tc[t + 1] == cells[k + w]);
    }
    if x > 0 {
        lemma_tpos_xy(w, h, x - 1, y);
        assert((x - 1) * h + y == t - h) by (nonlinear_arith)
            requires t == x * h + y;
        lemma_tpos_xy(h, w, y, x - 1);
        assert(tc[t - h] == cells[k - 1]);
    }
    if x + 1 < w {
        lemma_tpos_xy(w, h, x + 1, y);
        assert((x + 1) * h + y == t + h) by (nonlinear_arith)
            requires t == x * h + y;
        lemma_tpos_xy(h, w, y, x + 1);
        assert(tc[t + h] == cells[k + 1]);
    }
    assert(edge_vote(tc, h, w, t, c, 0) == edge_vote(cells, w, h, k, c, 2));
    assert(edge_vote(tc, h, w, t, c, 1) == edge_vote(cells, w, h, k, c, 3));
    assert(edge_vote(tc, h, w, t, c, 2) == edge_vote(cells, w, h, k, c, 0));
    assert(edge_vote(tc, h, w, t, c, 3) == edge_vote(cells, w, h, k, c, 1));
    reveal_with_fuel(edge_votes_upto, 5);
}

/// The members of `s` below `m`, ascending.
pub open spec fn members_below(s: Set<int>, m: int) -> Seq<int>
    decreases m,
{
    if m <= 0 {
        Seq::empty()
    } else if s.contains(m - 1) {
        members_below(s, m - 1).push(m - 1)
    } else {
        members_below(s, m - 1)
    }
}

proof fn lemma_members_below(s: Set<int>, m: int)
    ensures
        members_below(s, m).no_duplicates(),
        forall|a: int| 0 <= a < members_below(s, m).len() ==> 0 <= #[trigger] members_below(s, m)[a] < m,
        forall|k: int| members_below(s, m).contains(k) <==> (0 <= k < m && s.contains(k)),
    decreases m,
{
    if m > 0 {
        lemma_members_below(s, m - 1);
        let l = members_below(s, m - 1);
        if s.contains(m - 1) {
            let l2 = l.push(m - 1);
            assert forall|a: int, b: int| 0 <= a < l2.len() && 0 <= b < l2.len() && a != b implies l2[a] != l2[b] by {
                if a < l.len() && b < l.len() {
                    assert(l[a] != l[b]);
                } else if a < l.len() {
                    assert(l[a] < m - 1);
                } else {
                    assert(l[b] < m - 1);
                }
            }
            assert forall|k: int| l2.contains(k) <==> (0 <= k < m && s.contains(k)) by {
                if l2.contains(k) {
                    let a = choose|a: int| 0 <= a < l2.len() && l2[a] == k;
                    if a < l.len() {
                        assert(l.contains(k));
                    }
                }
                if 0 <= k < m && s.contains(k) {
                    if k < m - 1 {
                        assert(l.contains(k));
                        let a = choose|a: int| 0 <= a < l.len() && l[a] == k;
                        assert(l2[a] == k);
                    } else {
                        assert(l2[l.len() as int] == k);
                    }
                }
            }
        } else {
            assert forall|a: int| 0 <= a < l.len() implies 0 <= #[trigger] l[a] < m by {}
        }
    }
}

/// Summing votes over a list of cells equals summing the transposed grid's
/// votes over the transposed positions.
proof fn lemma_votes_seq_transpose(cells: Seq<u16>, w: int, h: int, list: Seq<int>, c: int)
    requires
        w > 0,
        h > 0,
        cells.len() == w * h,
        forall|a: int| 0 <= a < list.len() ==> 0 <= #[trigger] list[a] < w * h,
    ensures
        votes_seq(transposed_cells(cells, w, h), h, w, list.map_values(|k: int| tpos(w, h, k)), c)
            == votes_seq(cells, w, h, list, c),
    decreases list.len(),
{
    if list.len() > 0 {
        let l2 = list.drop_last();
        assert forall|a: int| 0 <= a < l2.len() implies 0 <= #[trigger] l2[a] < w * h by {
            assert(l2[a] == list[a]);
        }
        lemma_votes_seq_transpose(cells, w, h, l2, c);
        assert(list.map_values(|k: int| tpos(w, h, k)).drop_last() =~= l2.map_values(|k: int| tpos(w, h, k)));
        lemma_neighbor_votes_transpose(cells, w, h, list.last(), c);
    }
}

/// The component of a transposed cell collects the same votes for every color.
proof fn lemma_votes_transpose(cells: Seq<u16>, w: int, h: int, i: int, c: int)
    requires
        w > 0,
        h > 0,
        cells.len() == w * h,
        0 <= i < w * h,
    ensures
        votes(transposed_cells(cells, w, h), h, w, tpos(w, h, i), c) == votes(cells, w, h, i, c),
{
    let tc = transposed_cells(cells, w, h);
    let f = |k: int| tpos(w, h, k);
    let n = cells.len() as int;
    let comp = component(cells, w, h, i);
    let tcomp = component(tc, h, w, tpos(w, h, i));
    lemma_component_transpose(cells, w, h, i);
    lemma_members_below(comp, n);
    let list = members_below(comp, n);
    assert forall|k: int| comp.contains(k) <==> list.contains(k) by {
        if comp.contains(k) {
            lemma_connected_color(cells, w, h, i, k);
        }
    }
    lemma_votes_seq_set(cells, w, h, list, comp, c, n);
    let tlist = list.map_values(f);
    assert(h * w == w * h) by (nonlinear_arith);
    assert forall|a: int| 0 <= a < tlist.len() implies 0 <= #[trigger] tlist[a] < n by {
        lemma_tpos(w, h, list[a]);
    }
    assert forall|a: int, b: int| 0 <= a < tlist.len() && 0 <= b < tlist.len() && a != b implies tlist[a] != tlist[b] by {
        lemma_tpos(w, h, list[a]);
        lemma_tpos(w, h, list[b]);
        assert(list[a] != list[b]);
    }
    assert(tlist.no_duplicates());
    assert forall|t: int| tcomp.contains(t) <==> tlist.contains(t) by {
        if tcomp.contains(t) {
            assert(comp.map(f).contains(t));
            let k = choose|k: int| comp.contains(k) && t == f(k);
            assert(list.contains(k));
            let a = choose|a: int| 0 <= a < list.len() && list[a] == k;
            assert(tlist[a] == t);
        }
        if tlist.contains(t) {
            let a = choose|a: int| 0 <= a < tlist.len() && tlist[a] == t;
            assert(list.contains(list[a]));
            assert(comp.contains(list[a]));
            assert(comp.map(f).contains(t));
        }
    }
    lemma_votes_seq_set(tc, h, w, tlist, tcomp, c, n);
    lemma_votes_seq_transpose(cells, w, h, list, c);
}

/// Two components of one color with the same votes for every color have
/// the same majority colors.
proof fn lemma_majority_same_votes(
    c1s: Seq<u16>,
    w1: int,
    h1: int,
    i1: int,
    c2s: Seq<u16>,
    w2: int,
    h2: int,
    i2: int,
    c: int,
)
    requires
        c1s[i1] == c2s[i2],
        forall|d: int| #[trigger] votes(c1s, w1, h1, i1, d) == votes(c2s, w2, h2, i2, d),
    ensures
        is_majority(c1s, w1, h1, i1, c) <==> is_majority(c2s, w2, h2, i2, c),
{
    assert(votes(c1s, w1, h1, i1, c) == votes(c2s, w2, h2, i2, c));
    if is_majority(c1s, w1, h1, i1, c) {
        assert forall|d: int| 0 <= d <= u16::MAX && d != c2s[i2] as int implies #[trigger] votes(c2s, w2, h2, i2, d)
            < votes(c2s, w2, h2, i2, c) || (votes(c2s, w2, h2, i2, d) == votes(c2s, w2, h2, i2, c) && c <= d) by {
            assert(votes(c1s, w1, h1, i1, d) == votes(c2s, w2, h2, i2, d));
        }
    }
    if is_majority(c2s, w2, h2, i2, c) {
        assert forall|d: int| 0 <= d <= u16::MAX && d != c1s[i1] as int implies #[trigger] votes(c1s, w1, h1, i1, d)
            < votes(c1s, w1, h1, i1, c) || (votes(c1s, w1, h1, i1, d) == votes(c1s, w1, h1, i1, c) && c <= d) by {
            assert(votes(c1s, w1, h1, i1, d) == votes(c2s, w2, h2, i2, d));
        }
    }
}

/// A transposed cell gets the despeckled color of the cell it came from.
proof fn lemma_despeckled_transpose(p: &BeadPattern, tp: &BeadPattern, min_region: u32, i: int)
    requires
        despeckle_shape_ok(p),
        is_transpose_of(p, tp),
        0 <= i < p.cells@.len(),
    ensures
        despeckled_cell(tp, min_region, tpos(p.width as int, p.height as int, i)) == despeckled_cell(p, min_region, i),
{
    let cells = p.cells@;
    let w = p.width as int;
    let h = p.height as int;
    let tc = tp.cells@;
    let ti = tpos(w, h, i);
    lemma_tpos(w, h, i);
    lemma_component_transpose(cells, w, h, i);
    assert(tc[ti] == cells[i]);
    assert forall|c2: int| #[trigger] votes(tc, h, w, ti, c2) == votes(cells, w, h, i, c2) by {
        lemma_votes_transpose(cells, w, h, i, c2);
    }
    assert forall|c: int| #[trigger] is_majority(tc, h, w, ti, c) <==> is_majority(cells, w, h, i, c) by {
        lemma_majority_same_votes(tc, h, w, ti, cells, w, h, i, c);
    }
    if exists|c: int| #[trigger] is_majority(cells, w, h, i, c) {
        let c1 = choose|c: int| #[trigger] is_majority(tc, h, w, ti, c);
        let c2 = choose|c: int| #[trigger] is_majority(cells, w, h, i, c);
        assert(is_majority(tc, h, w, ti, c2));
        assert(is_majority(cells, w, h, i, c1));
        lemma_majority_unique(cells, w, h, i, c1, c2);
    } else {
        assert(!exists|c: int| #[trigger] is_majority(tc, h, w, ti, c));
    }
}

/// Despeckling commutes with transposition: despeckling the transpose of a
/// pattern gives the transpose of the despeckled pattern, so the result does
/// not depend on whether the grid is scanned by rows or by columns.
pub proof fn lemma_despeckle_transpose(
    p: &BeadPattern,
    min_region: u32,
    out: &BeadPattern,
    tp: &BeadPattern,
    tout: &BeadPattern,
)
    requires
        despeckle_shape_ok(p),
        is_transpose_of(p, tp),
        is_despeckle_of(p, min_region, out),
        is_despeckle_of(tp, min_region, tout),
    ensures
        is_transpose_of(out, tout),
{
    let w = p.width as int;
    let h = p.height as int;
    assert(h * w == w * h) by (nonlinear_arith);
    assert(despeckle_shape_ok(tp));
    let expect = transposed_cells(out.cells@, out.width as int, out.height as int);
    assert forall|j: int| 0 <= j < tout.cells@.len() implies tout.cells@[j] == expect[j] by {
        lemma_tpos(h, w, j);
        let i = tpos(h, w, j);
        assert(tout.cells@[j] == despeckled_cell(tp, min_region, j));
        assert(out.cells@[i] == despeckled_cell(p, min_region, i));
        lemma_despeckled_transpose(p, tp, min_region, i);
    }
    assert(tout.cells@ =~= expect);
}

} // verus!
