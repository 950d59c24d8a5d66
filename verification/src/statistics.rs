//! Per-color statistics derived from a [`BeadPattern`]: pure integer counting
//! over `cells` (palette indices). Raw pixels and rendered images are never
//! touched.

use vstd::prelude::*;
use crate::models::{BeadPattern, ColorStat};
use crate::palette::Palette;
use crate::text::{decimal, push_decimal};

verus! {

/// How many entries of `cells` equal `v`.
pub open spec fn count_of(cells: Seq<u16>, v: int) -> nat
    decreases cells.len(),
{
    if cells.len() == 0 {
        0
    } else {
        count_of(cells.drop_last(), v) + if cells.last() as int == v { 1nat } else { 0nat }
    }
}

/// `order` lists exactly the palette indices below `n` that `cells` uses
/// (each once), ordered by usage count descending and, on equal counts, by
/// lowest index first.
pub open spec fn is_stats_order(order: Seq<int>, cells: Seq<u16>, n: int) -> bool {
    &&& forall|k: int| 0 <= k < order.len() ==> 0 <= #[trigger] order[k] < n && count_of(cells, order[k]) > 0
    &&& forall|i: int| 0 <= i < n && count_of(cells, i) > 0 ==> #[trigger] order.contains(i)
    &&& forall|k: int, l: int| 0 <= k < l < order.len() ==> {
        ||| count_of(cells, #[trigger] order[k]) > count_of(cells, #[trigger] order[l])
        ||| (count_of(cells, order[k]) == count_of(cells, order[l]) && order[k] < order[l])
    }
}

/// The statistics entry of palette index `i`.
pub open spec fn stat_for(palette: &Palette, cells: Seq<u16>, i: int) -> (Seq<char>, Seq<char>, nat) {
    (palette.colors@[i].code@, palette.colors@[i].name@, count_of(cells, i))
}

/// `stat` is the statistics entry of palette index `i`.
pub open spec fn is_stat_for(stat: ColorStat, palette: &Palette, cells: Seq<u16>, i: int) -> bool {
    (stat.code@, stat.name@, stat.count as nat) == stat_for(palette, cells, i)
}

/// `stats` is the statistics of `cells` against `palette` listed in `order`.
pub open spec fn stats_listed(stats: Seq<ColorStat>, order: Seq<int>, palette: &Palette, cells: Seq<u16>) -> bool {
    &&& stats.len() == order.len()
    &&& forall|k: int| 0 <= k < stats.len() ==> is_stat_for(#[trigger] stats[k], palette, cells, order[k])
}

/// `stats` are the color statistics of `grid` against `palette`: one entry
/// per used palette index, ordered by count descending, then lowest index.
pub open spec fn are_color_stats(stats: Seq<ColorStat>, grid: &BeadPattern, palette: &Palette) -> bool {
    exists|order: Seq<int>| #[trigger] is_stats_order(order, grid.cells@, palette.colors@.len() as int)
        && stats_listed(stats, order, palette, grid.cells@)
}

/// Appending a cell adds one to its own value's count.
pub proof fn lemma_count_of_push(cells: Seq<u16>, x: u16, v: int)
    ensures
        count_of(cells.push(x), v) == count_of(cells, v) + if x as int == v { 1nat } else { 0nat },
{
    assert(cells.push(x).drop_last() =~= cells);
}

proof fn lemma_count_of_bound(cells: Seq<u16>, v: int)
    ensures
        count_of(cells, v) <= cells.len(),
    decreases cells.len(),
{
    if cells.len() > 0 {
        lemma_count_of_bound(cells.drop_last(), v);
    }
}

/// Count, per palette color, how many cells of `grid` use it, and list the
/// used colors (count > 0) with their `code` and `name`, ordered by count
/// descending and, on equal counts, by lowest palette index.
///
/// Total: a cell whose index is out of the palette's range is skipped (it is
/// still counted by [`total_beads`], so `Σ count < total_beads` signals a
/// palette that does not belong to the pattern). An empty palette gives `[]`.
pub fn count_colors(grid: &BeadPattern, palette: &Palette) -> (stats: Vec<ColorStat>)
    requires
        grid.cells@.len() <= u32::MAX,
    ensures
        are_color_stats(stats@, grid, palette),
{
    let n = palette.colors.len();
    let ghost cells = grid.cells@;
    let mut counts: Vec<u32> = Vec::with_capacity(n);
    let mut z: usize = 0;
    while z < n
        invariant
            0 <= z <= n,
            counts@.len() == z,
            forall|k: int| 0 <= k < z ==> counts@[k] == 0,
        decreases n - z,
    {
        counts.push(0);
        z += 1;
    }
    let m = grid.cells.len();
    let mut j: usize = 0;
    while j < m
        invariant
            cells == grid.cells@,
            m == cells.len(),
            m <= u32::MAX,
            counts@.len() == n,
            0 <= j <= m,
            forall|k: int| 0 <= k < n ==> #[trigger] counts@[k] as nat == count_of(cells.take(j as int), k),
        decreases m - j,
    {
        let idx = grid.cells[j] as usize;
        proof {
            assert(cells.take(j + 1) =~= cells.take(j as int).push(cells[j as int]));
            assert forall|k: int| 0 <= k < n implies count_of(cells.take(j + 1), k) == count_of(cells.take(j as int), k)
                + if cells[j as int] as int == k { 1nat } else { 0nat } by {
                lemma_count_of_push(cells.take(j as int), cells[j as int], k);
            }
            lemma_count_of_bound(cells.take(j as int), idx as int);
        }
        if idx < n {
            let c = counts[idx];
            counts.set(idx, c + 1);
        }
        j += 1;
    }
    assert(cells.take(m as int) =~= cells);
    // Insert each used index after every index whose count is at least its own:
    // scanning indices upward keeps lower indices first among equal counts.
    let mut order: Vec<usize> = Vec::new();
    let mut i: usize = 0;
    while i < n
        invariant
            cells == grid.cells@,
            counts@.len() == n,
            forall|k: int| 0 <= k < n ==> #[trigger] counts@[k] as nat == count_of(cells, k),
            0 <= i <= n,
            is_stats_order(order@.map_values(|v: usize| v as int), cells, i as int),
        decreases n - i,
    {
        let ghost old_order = order@.map_values(|v: usize| v as int);
        if counts[i] > 0 {
            let ci = counts[i];
            let mut p: usize = 0;
            assert forall|k: int| 0 <= k < order@.len() implies #[trigger] order@[k] < i by {
                assert(old_order[k] == order@[k] as int);
            }
            while p < order.len() && counts[order[p]] >= ci
                invariant
                    counts@.len() == n,
                    i < n,
                    0 <= p <= order@.len(),
                    forall|k: int| 0 <= k < order@.len() ==> #[trigger] order@[k] < i,
                    forall|k: int| 0 <= k < p ==> counts@[#[trigger] order@[k] as int] >= ci,
                decreases order@.len() - p,
            {
                p += 1;
            }
            assert(p == order@.len() || counts@[order@[p as int] as int] < ci);
            order.insert(p, i);
            proof {
                let new_order = order@.map_values(|v: usize| v as int);
                assert(new_order =~= old_order.insert(p as int, i as int));
                assert forall|k: int, l: int| 0 <= k < l < new_order.len() implies {
                    ||| count_of(cells, #[trigger] new_order[k]) > count_of(cells, #[trigger] new_order[l])
                    ||| (count_of(cells, new_order[k]) == count_of(cells, new_order[l]) && new_order[k] < new_order[l])
                } by {
                    if k < p && l < p {
                        assert(new_order[k] == old_order[k] && new_order[l] == old_order[l]);
                    } else if k < p && l == p {
                        assert(counts@[old_order[k]] >= ci);
                    } else if k < p && l > p {
                        assert(new_order[k] == old_order[k] && new_order[l] == old_order[l - 1]);
                    } else if k == p {
                        assert(new_order[l] == old_order[l - 1]);
                        assert(counts@[old_order[p as int]] < ci);
                        if l - 1 > p {
                            assert(count_of(cells, old_order[p as int]) >= count_of(cells, old_order[l - 1]));
                        }
                    } else {
                        assert(new_order[k] == old_order[k - 1] && new_order[l] == old_order[l - 1]);
                    }
                }
                assert forall|v: int| 0 <= v < i + 1 && count_of(cells, v) > 0 implies #[trigger] new_order.contains(v) by {
                    if v < i {
                        assert(old_order.contains(v));
                        let w = choose|w: int| 0 <= w < old_order.len() && old_order[w] == v;
                        if w < p {
                            assert(new_order[w] == v);
                        } else {
                            assert(new_order[w + 1] == v);
                        }
                    } else {
                        assert(new_order[p as int] == v);
                    }
                }
            }
        } else {
            proof {
                assert forall|v: int| 0 <= v < i + 1 && count_of(cells, v) > 0 implies #[trigger] old_order.contains(v) by {
                    if v == i {
                        assert(counts@[v] == 0);
                    }
                }
            }
        }
        i += 1;
    }
    let ghost ord = order@.map_values(|v: usize| v as int);
    let mut stats: Vec<ColorStat> = Vec::with_capacity(order.len());
    let mut k: usize = 0;
    while k < order.len()
        invariant
            ord == order@.map_values(|v: usize| v as int),
            is_stats_order(ord, cells, n as int),
            counts@.len() == n,
            n == palette.colors@.len(),
            forall|q: int| 0 <= q < n ==> #[trigger] counts@[q] as nat == count_of(cells, q),
            0 <= k <= order@.len(),
            stats@.len() == k,
            forall|q: int| 0 <= q < k ==> is_stat_for(#[trigger] stats@[q], palette, cells, ord[q]),
        decreases order@.len() - k,
    {
        let ix = order[k];
        assert(ord[k as int] == ix as int);
        assert(0 <= ord[k as int] < n);
        let color = &palette.colors[ix];
        let code = color.code.clone();
        let name = color.name.clone();
        let count = counts[ix];
        assert(count as nat == count_of(cells, ix as int));
        stats.push(ColorStat { code, name, count });
        assert(stats@[k as int].code@ == palette.colors@[ix as int].code@);
        k += 1;
    }
    assert(stats_listed(stats@, ord, palette, cells));
    stats
}

/// The total bead count of `grid`: `cells.len()` (as `u32`, truncating beyond
/// `u32::MAX`), independent of any palette.
pub fn total_beads(grid: &BeadPattern) -> (total: u32)
    ensures
        total == grid.cells@.len() as u32,
{
    grid.cells.len() as u32
}

/// One summary line: `{code} {name}: {count}` and a newline.
pub open spec fn stat_line(stat: ColorStat) -> Seq<char> {
    stat.code@ + " "@ + stat.name@ + ": "@ + decimal(stat.count as nat) + "\n"@
}

/// The summary lines of `stats`, in order.
pub open spec fn stat_lines(stats: Seq<ColorStat>) -> Seq<char>
    decreases stats.len(),
{
    if stats.len() == 0 {
        Seq::empty()
    } else {
        stat_lines(stats.drop_last()) + stat_line(stats.last())
    }
}

/// The summary text: a four-line header (title, `Size: {w} x {h}`,
/// `Total Beads: {total}`, `Palette: {brand}`), a blank line, then one line
/// per color statistic.
pub open spec fn summary_text(width: u32, height: u32, total: u32, brand: Seq<char>, stats: Seq<ColorStat>) -> Seq<char> {
    "Bead Pattern Summary\nSize: "@ + decimal(width as nat) + " x "@ + decimal(height as nat)
        + "\nTotal Beads: "@ + decimal(total as nat) + "\nPalette: "@ + brand + "\n\n"@
        + stat_lines(stats)
}

/// Produce the directly-copyable summary text for `grid` and `palette`,
/// built from [`count_colors`] and [`total_beads`] so that the summary and
/// the structured statistics never disagree. An empty grid gives the header
/// and the blank line only. Names are written verbatim.
pub fn generate_summary(grid: &BeadPattern, palette: &Palette) -> (text: String)
    requires
        grid.cells@.len() <= u32::MAX,
    ensures
        exists|stats: Seq<ColorStat>| #[trigger] are_color_stats(stats, grid, palette)
            && text@ == summary_text(grid.width, grid.height, grid.cells@.len() as u32, palette.brand@, stats),
{
    let stats = count_colors(grid, palette);
    let total = total_beads(grid);
    let mut out = String::from_str("Bead Pattern Summary\nSize: ");
    push_decimal(&mut out, grid.width as u64);
    out.append(" x ");
    push_decimal(&mut out, grid.height as u64);
    out.append("\nTotal Beads: ");
    push_decimal(&mut out, total as u64);
    out.append("\nPalette: ");
    out.append(palette.brand.as_str());
    out.append("\n\n");
    let ghost header = out@;
    let mut k: usize = 0;
    while k < stats.len()
        invariant
            0 <= k <= stats@.len(),
            out@ == header + stat_lines(stats@.take(k as int)),
        decreases stats@.len() - k,
    {
        let ghost before = out@;
        out.append(stats[k].code.as_str());
        out.append(" ");
        out.append(stats[k].name.as_str());
        out.append(": ");
        push_decimal(&mut out, stats[k].count as u64);
        out.append("\n");
        proof {
            assert(stats@.take(k + 1).drop_last() =~= stats@.take(k as int));
            assert(out@ =~= before + stat_line(stats@[k as int]));
        }
        k += 1;
    }
    assert(stats@.take(stats@.len() as int) =~= stats@);
    out
}

} // verus!

verus! {

/// Two statistics orders of the same cells agree: the order is determined.
proof fn lemma_stats_order_unique(o1: Seq<int>, o2: Seq<int>, cells: Seq<u16>, n: int)
    requires
        is_stats_order(o1, cells, n),
        is_stats_order(o2, cells, n),
    ensures
        o1 == o2,
    decreases o1.len(),
{
    // Both list the same set of indices; the strict key order makes positions unique.
    assert forall|k: int| 0 <= k < o1.len() implies #[trigger] o2.contains(o1[k]) by {
        assert(0 <= o1[k] < n && count_of(cells, o1[k]) > 0);
    }
    assert forall|k: int| 0 <= k < o2.len() implies #[trigger] o1.contains(o2[k]) by {
        assert(0 <= o2[k] < n && count_of(cells, o2[k]) > 0);
    }
    lemma_sorted_same_elements(o1, o2, cells);
}

/// Strictly key-sorted sequences with the same elements are equal.
proof fn lemma_sorted_same_elements(o1: Seq<int>, o2: Seq<int>, cells: Seq<u16>)
    requires
        forall|k: int, l: int| 0 <= k < l < o1.len() ==> key_before(cells, #[trigger] o1[k], #[trigger] o1[l]),
        forall|k: int, l: int| 0 <= k < l < o2.len() ==> key_before(cells, #[trigger] o2[k], #[trigger] o2[l]),
        forall|k: int| 0 <= k < o1.len() ==> #[trigger] o2.contains(o1[k]),
        forall|k: int| 0 <= k < o2.len() ==> #[trigger] o1.contains(o2[k]),
    ensures
        o1 == o2,
    decreases o1.len() + o2.len(),
{
    if o1.len() == 0 {
        if o2.len() > 0 {
            assert(o1.contains(o2[0]));
        }
        assert(o1 =~= o2);
    } else if o2.len() == 0 {
        assert(o2.contains(o1[0]));
    } else {
        // The first elements are both the key-smallest element.
        let a = o1[0];
        let b = o2[0];
        assert(o2.contains(o1[0]));
        assert(o1.contains(o2[0]));
        let ka = choose|k: int| 0 <= k < o2.len() && o2[k] == a;
        let kb = choose|k: int| 0 <= k < o1.len() && o1[k] == b;
        if a != b {
            assert(ka > 0);
            assert(kb > 0);
            assert(key_before(cells, o2[0], o2[ka]));
            assert(key_before(cells, o1[0], o1[kb]));
            lemma_key_before_asym(cells, a, b);
        }
        let t1 = o1.drop_first();
        let t2 = o2.drop_first();
        assert forall|k: int| 0 <= k < t1.len() implies #[trigger] t2.contains(t1[k]) by {
            assert(o2.contains(o1[k + 1]));
            let m = choose|m: int| 0 <= m < o2.len() && o2[m] == o1[k + 1];
            assert(key_before(cells, o1[0], o1[k + 1]));
            lemma_key_before_irrefl(cells, a);
            assert(m != 0);
            assert(t2[m - 1] == t1[k]);
        }
        assert forall|k: int| 0 <= k < t2.len() implies #[trigger] t1.contains(t2[k]) by {
            assert(o1.contains(o2[k + 1]));
            let m = choose|m: int| 0 <= m < o1.len() && o1[m] == o2[k + 1];
            assert(key_before(cells, o2[0], o2[k + 1]));
            lemma_key_before_irrefl(cells, b);
            assert(m != 0);
            assert(t1[m - 1] == t2[k]);
        }
        assert forall|k: int, l: int| 0 <= k < l < t1.len() implies key_before(cells, #[trigger] t1[k], #[trigger] t1[l]) by {
            assert(key_before(cells, o1[k + 1], o1[l + 1]));
        }
        assert forall|k: int, l: int| 0 <= k < l < t2.len() implies key_before(cells, #[trigger] t2[k], #[trigger] t2[l]) by {
            assert(key_before(cells, o2[k + 1], o2[l + 1]));
        }
        lemma_sorted_same_elements(t1, t2, cells);
        assert(o1 =~= seq![a] + t1);
        assert(o2 =~= seq![b] + t2);
    }
}

/// `a` comes strictly before `b` in statistics order.
pub open spec fn key_before(cells: Seq<u16>, a: int, b: int) -> bool {
    ||| count_of(cells, a) > count_of(cells, b)
    ||| (count_of(cells, a) == count_of(cells, b) && a < b)
}

proof fn lemma_key_before_asym(cells: Seq<u16>, a: int, b: int)
    ensures
        !(key_before(cells, a, b) && key_before(cells, b, a)),
{
}

proof fn lemma_key_before_irrefl(cells: Seq<u16>, a: int)
    ensures
        !key_before(cells, a, a),
{
}

/// Statistics with the same codes, names and counts give the same summary lines.
pub proof fn lemma_stat_lines_view(s1: Seq<ColorStat>, s2: Seq<ColorStat>)
    requires
        s1.len() == s2.len(),
        forall|k: int| 0 <= k < s1.len() ==> (#[trigger] s1[k]).code@ == s2[k].code@ && s1[k].name@ == s2[k].name@
            && s1[k].count == s2[k].count,
    ensures
        stat_lines(s1) == stat_lines(s2),
    decreases s1.len(),
{
    if s1.len() > 0 {
        lemma_stat_lines_view(s1.drop_last(), s2.drop_last());
        assert(s1.last().code@ == s2.last().code@);
    }
}

/// The color statistics of a pattern against a palette are unique: any two
/// sequences satisfying [`are_color_stats`] are equal.
pub proof fn lemma_color_stats_unique(s1: Seq<ColorStat>, s2: Seq<ColorStat>, grid: &BeadPattern, palette: &Palette)
    requires
        are_color_stats(s1, grid, palette),
        are_color_stats(s2, grid, palette),
    ensures
        s1.len() == s2.len(),
        forall|k: int| 0 <= k < s1.len() ==> (#[trigger] s1[k]).code@ == s2[k].code@ && s1[k].name@ == s2[k].name@
            && s1[k].count == s2[k].count,
{
    let n = palette.colors@.len() as int;
    let o1 = choose|order: Seq<int>| #[trigger] is_stats_order(order, grid.cells@, n)
        && stats_listed(s1, order, palette, grid.cells@);
    let o2 = choose|order: Seq<int>| #[trigger] is_stats_order(order, grid.cells@, n)
        && stats_listed(s2, order, palette, grid.cells@);
    lemma_stats_order_unique(o1, o2, grid.cells@, n);
    assert forall|k: int| 0 <= k < s1.len() implies (#[trigger] s1[k]).code@ == s2[k].code@ && s1[k].name@ == s2[k].name@
        && s1[k].count == s2[k].count by {
        assert(is_stat_for(s1[k], palette, grid.cells@, o1[k]));
        assert(is_stat_for(s2[k], palette, grid.cells@, o2[k]));
    }
}

/// The sum of the counts of a list of statistics entries.
pub open spec fn sum_counts(stats: Seq<ColorStat>) -> int
    decreases stats.len(),
{
    if stats.len() == 0 {
        0
    } else {
        sum_counts(stats.drop_last()) + stats.last().count
    }
}

/// How many cells use a palette index below `m`.
pub open spec fn count_below(cells: Seq<u16>, m: int) -> int
    decreases m,
{
    if m <= 0 {
        0
    } else {
        count_below(cells, m - 1) + count_of(cells, m - 1)
    }
}

/// The counts of the indices listed in `order`, summed.
pub open spec fn order_counts(cells: Seq<u16>, order: Seq<int>) -> int
    decreases order.len(),
{
    if order.len() == 0 {
        0
    } else {
        order_counts(cells, order.drop_last()) + count_of(cells, order.last())
    }
}

proof fn lemma_count_below_push(cells: Seq<u16>, x: u16, m: int)
    ensures
        count_below(cells.push(x), m) == count_below(cells, m) + if 0 <= x < m { 1int } else { 0int },
    decreases m,
{
    if m > 0 {
        lemma_count_below_push(cells, x, m - 1);
        lemma_count_of_push(cells, x, m - 1);
    }
}

/// When every cell is below `m`, the cells using an index below `m` are all of them.
proof fn lemma_count_below_all(cells: Seq<u16>, m: int)
    requires
        forall|i: int| 0 <= i < cells.len() ==> (#[trigger] cells[i] as int) < m,
    ensures
        count_below(cells, m) == cells.len(),
    decreases cells.len(),
{
    if cells.len() == 0 {
        lemma_count_below_empty(cells, m);
    } else {
        let init = cells.drop_last();
        assert forall|i: int| 0 <= i < init.len() implies (#[trigger] init[i] as int) < m by {
            assert(init[i] == cells[i]);
        }
        lemma_count_below_all(init, m);
        assert(init.push(cells.last()) =~= cells);
        lemma_count_below_push(init, cells.last(), m);
        assert((cells[cells.len() - 1] as int) < m);
    }
}

proof fn lemma_count_below_empty(cells: Seq<u16>, m: int)
    requires
        cells.len() == 0,
    ensures
        count_below(cells, m) == 0,
    decreases m,
{
    if m > 0 {
        lemma_count_below_empty(cells, m - 1);
    }
}

proof fn lemma_order_counts_remove(cells: Seq<u16>, order: Seq<int>, idx: int)
    requires
        0 <= idx < order.len(),
    ensures
        order_counts(cells, order) == order_counts(cells, order.remove(idx)) + count_of(cells, order[idx]),
    decreases order.len(),
{
    if idx == order.len() - 1 {
        assert(order.remove(idx) =~= order.drop_last());
    } else {
        lemma_order_counts_remove(cells, order.drop_last(), idx);
        assert(order.remove(idx).drop_last() =~= order.drop_last().remove(idx));
        assert(order.remove(idx).last() == order.last());
    }
}

/// Summing the counts over a duplicate-free list of all used indices below
/// `m` counts the cells below `m`, in whatever order the list has them.
proof fn lemma_order_counts_all(cells: Seq<u16>, order: Seq<int>, m: int)
    requires
        order.no_duplicates(),
        forall|k: int| 0 <= k < order.len() ==> 0 <= #[trigger] order[k] < m,
        forall|i: int| 0 <= i < m && count_of(cells, i) > 0 ==> #[trigger] order.contains(i),
    ensures
        order_counts(cells, order) == count_below(cells, m),
    decreases m,
{
    if m <= 0 {
        if order.len() > 0 {
            assert(0 <= order[0] < m);
        }
    } else if order.contains(m - 1) {
        let idx = choose|a: int| 0 <= a < order.len() && order[a] == m - 1;
        let o2 = order.remove(idx);
        assert forall|k: int| 0 <= k < o2.len() implies 0 <= #[trigger] o2[k] < m - 1 by {
            if k < idx {
                assert(order[k] != order[idx]);
            } else {
                assert(o2[k] == order[k + 1]);
                assert(order[k + 1] != order[idx]);
            }
        }
        assert forall|a: int, b: int| 0 <= a < o2.len() && 0 <= b < o2.len() && a != b implies o2[a] != o2[b] by {
            let a1 = if a < idx { a } else { a + 1 };
            let b1 = if b < idx { b } else { b + 1 };
            assert(o2[a] == order[a1]);
            assert(o2[b] == order[b1]);
        }
        assert(o2.no_duplicates());
        assert forall|i: int| 0 <= i < m - 1 && count_of(cells, i) > 0 implies #[trigger] o2.contains(i) by {
            assert(order.contains(i));
            let a = choose|a: int| 0 <= a < order.len() && order[a] == i;
            if a < idx {
                assert(o2[a] == i);
            } else {
                assert(o2[a - 1] == i);
            }
        }
        lemma_order_counts_remove(cells, order, idx);
        lemma_order_counts_all(cells, o2, m - 1);
    } else {
        assert forall|k: int| 0 <= k < order.len() implies 0 <= #[trigger] order[k] < m - 1 by {
            assert(order.contains(order[k]));
        }
        assert(count_of(cells, m - 1) == 0);
        lemma_order_counts_all(cells, order, m - 1);
    }
}

/// The counts of color statistics add up to the cells whose index is in the
/// palette.
proof fn lemma_sum_counts_in_palette(stats: Seq<ColorStat>, grid: &BeadPattern, palette: &Palette)
    requires
        are_color_stats(stats, grid, palette),
    ensures
        sum_counts(stats) == count_below(grid.cells@, palette.colors@.len() as int),
{
    let cells = grid.cells@;
    let n = palette.colors@.len() as int;
    let order = choose|order: Seq<int>| #[trigger] is_stats_order(order, cells, n)
        && stats_listed(stats, order, palette, cells);
    assert forall|a: int, b: int| 0 <= a < order.len() && 0 <= b < order.len() && a != b implies order[a] != order[b] by {
        if a < b {
            assert(key_before(cells, order[a], order[b]));
        } else {
            assert(key_before(cells, order[b], order[a]));
        }
    }
    assert(order.no_duplicates());
    lemma_order_counts_all(cells, order, n);
    lemma_sum_counts_listed(stats, order, palette, cells);
}

/// How many cells hold an index of at least `m` (out of a palette of `m` colors).
pub open spec fn count_out_of_range(cells: Seq<u16>, m: int) -> nat
    decreases cells.len(),
{
    if cells.len() == 0 {
        0
    } else {
        count_out_of_range(cells.drop_last(), m) + if cells.last() as int >= m { 1nat } else { 0nat }
    }
}

/// Every cell is either below `m` or out of range.
proof fn lemma_count_below_split(cells: Seq<u16>, m: int)
    ensures
        count_below(cells, m) + count_out_of_range(cells, m) == cells.len(),
    decreases cells.len(),
{
    if cells.len() == 0 {
        lemma_count_below_empty(cells, m);
    } else {
        let init = cells.drop_last();
        lemma_count_below_split(init, m);
        assert(init.push(cells.last()) =~= cells);
        lemma_count_below_push(init, cells.last(), m);
    }
}

/// At most every cell uses an index below `m`, and fewer as soon as one cell
/// does not.
proof fn lemma_count_below_bound(cells: Seq<u16>, m: int)
    ensures
        count_below(cells, m) <= cells.len(),
        (exists|i: int| 0 <= i < cells.len() && (cells[i] as int) >= m) ==> count_below(cells, m) < cells.len(),
    decreases cells.len(),
{
    if cells.len() == 0 {
        lemma_count_below_empty(cells, m);
    } else {
        let init = cells.drop_last();
        lemma_count_below_bound(init, m);
        assert(init.push(cells.last()) =~= cells);
        lemma_count_below_push(init, cells.last(), m);
        if exists|i: int| 0 <= i < cells.len() && (cells[i] as int) >= m {
            let i = choose|i: int| 0 <= i < cells.len() && (cells[i] as int) >= m;
            if i < cells.len() - 1 {
                assert(init[i] == cells[i]);
            }
        }
    }
}

/// The statistics account for every bead: when every cell is an index of the
/// palette, the counts of `count_colors` add up to the number of cells.
pub proof fn lemma_counts_sum_to_total(stats: Seq<ColorStat>, grid: &BeadPattern, palette: &Palette)
    requires
        are_color_stats(stats, grid, palette),
        forall|i: int| 0 <= i < grid.cells@.len() ==> (#[trigger] grid.cells@[i] as int) < palette.colors@.len(),
    ensures
        sum_counts(stats) == grid.cells@.len(),
{
    lemma_sum_counts_in_palette(stats, grid, palette);
    lemma_count_below_all(grid.cells@, palette.colors@.len() as int);
}

/// The statistics never count more beads than the pattern has: the counts
/// add up to the cells whose index is in the palette, so the counts plus the
/// out-of-range cells are all the cells, and the counts fall short of them as
/// soon as one cell's index is out of the palette's range.
pub proof fn lemma_counts_within_total(stats: Seq<ColorStat>, grid: &BeadPattern, palette: &Palette)
    requires
        are_color_stats(stats, grid, palette),
    ensures
        sum_counts(stats) == count_below(grid.cells@, palette.colors@.len() as int),
        sum_counts(stats) + count_out_of_range(grid.cells@, palette.colors@.len() as int) == grid.cells@.len(),
        sum_counts(stats) <= grid.cells@.len(),
        (exists|i: int| 0 <= i < grid.cells@.len() && (grid.cells@[i] as int) >= palette.colors@.len())
            ==> sum_counts(stats) < grid.cells@.len(),
{
    lemma_sum_counts_in_palette(stats, grid, palette);
    lemma_count_below_bound(grid.cells@, palette.colors@.len() as int);
    lemma_count_below_split(grid.cells@, palette.colors@.len() as int);
}

proof fn lemma_sum_counts_listed(stats: Seq<ColorStat>, order: Seq<int>, palette: &Palette, cells: Seq<u16>)
    requires
        stats_listed(stats, order, palette, cells),
    ensures
        sum_counts(stats) == order_counts(cells, order),
    decreases stats.len(),
{
    if stats.len() > 0 {
        let s2 = stats.drop_last();
        let o2 = order.drop_last();
        assert forall|k: int| 0 <= k < s2.len() implies is_stat_for(#[trigger] s2[k], palette, cells, o2[k]) by {
            assert(is_stat_for(stats[k], palette, cells, order[k]));
        }
        lemma_sum_counts_listed(s2, o2, palette, cells);
        assert(is_stat_for(stats[stats.len() - 1], palette, cells, order[order.len() - 1]));
    }
}

} // verus!
