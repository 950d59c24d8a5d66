//! Palette-aware bead-color reduction: merge an already-matched `BeadPattern`
//! down to fewer distinct bead colors. It runs after matching (pattern to
//! pattern), so it only ever merges existing bead colors and never invents an
//! intermediate one.
//!
//! [`BeadReducer`] is the reduction seam; [`GreedyReducer`] is the greedy
//! least-usage merge. The color space it merges in is a [`MergeTarget`]:
//! [`RgbSnapshot`] compares squared RGB distance in pure integer arithmetic,
//! with the lowest palette index winning a tie, as `RgbMatcher` does.

use vstd::prelude::*;
use crate::error::BeadError;
use crate::matcher::{check_palette_len, palette_len_failure, rgb_dist2};
use crate::models::BeadPattern;
use crate::palette::Palette;
use crate::statistics::{count_of, lemma_count_of_push};

verus! {

/// Reduces a `BeadPattern` to fewer distinct bead colors, producing a new
/// `BeadPattern` of the same shape.
pub trait BeadReducer {
    /// The patterns this reducer takes: those matched against its palette.
    spec fn accepts(&self, pattern: &BeadPattern) -> bool;

    /// Returns a new `BeadPattern` whose distinct bead-color count is bounded
    /// by the reducer's configured maximum.
    fn reduce(&self, pattern: &BeadPattern) -> BeadPattern
        requires
            self.accepts(pattern),
    ;
}

/// The color space a [`GreedyReducer`] merges in: which in-use color a
/// sacrificed color is folded into.
pub trait MergeTarget {
    /// Among the in-use colors other than `sac`, the one to merge `sac` into.
    fn nearest_target(&self, sac: usize, in_use: &Vec<bool>) -> (t: usize)
        requires
            sac < in_use@.len(),
            exists|j: int| 0 <= j < in_use@.len() && j != sac && #[trigger] in_use@[j],
        ensures
            t < in_use@.len(),
            t != sac,
            in_use@[t as int],
    ;
}

/// `t` is the lowest index among the in-use colors other than `sac` nearest
/// to color `sac` by squared RGB distance.
pub open spec fn is_rgb_merge_target(colors: Seq<[u8; 3]>, in_use: Seq<bool>, sac: int, t: int) -> bool {
    &&& 0 <= t < colors.len()
    &&& t != sac
    &&& in_use[t]
    &&& forall|j: int|
        0 <= j < colors.len() && j != sac && in_use[j] ==> rgb_dist2(colors[sac], colors[t])
            <= rgb_dist2(colors[sac], #[trigger] colors[j])
    &&& forall|j: int|
        0 <= j < t && j != sac && in_use[j] ==> rgb_dist2(colors[sac], colors[t]) < rgb_dist2(
            colors[sac],
            #[trigger] colors[j],
        )
}

/// At most one color is the RGB merge target of a sacrificed color.
pub proof fn lemma_rgb_merge_target_unique(colors: Seq<[u8; 3]>, in_use: Seq<bool>, sac: int, t1: int, t2: int)
    requires
        is_rgb_merge_target(colors, in_use, sac, t1),
        is_rgb_merge_target(colors, in_use, sac, t2),
    ensures
        t1 == t2,
{
    assert(rgb_dist2(colors[sac], colors[t1]) <= rgb_dist2(colors[sac], colors[t2]));
    assert(rgb_dist2(colors[sac], colors[t2]) <= rgb_dist2(colors[sac], colors[t1]));
}

/// Order-preserving snapshot of the palette's RGB taken at construction:
/// `colors[i]` is `palette.colors[i].rgb`.
#[derive(Debug)]
pub struct RgbSnapshot {
    cols: Vec<[u8; 3]>,
}

impl RgbSnapshot {
    /// The snapshot colors.
    pub closed spec fn colors(&self) -> Seq<[u8; 3]> {
        self.cols@
    }

    /// Snapshot the RGB of every palette color, in palette order.
    pub fn new(palette: &Palette) -> (s: RgbSnapshot)
        ensures
            s.colors().len() == palette.colors@.len(),
            forall|i: int| 0 <= i < palette.colors@.len() ==> #[trigger] s.colors()[i] == palette.colors@[i].rgb,
    {
        let n = palette.colors.len();
        let mut cols: Vec<[u8; 3]> = Vec::with_capacity(n);
        let mut i: usize = 0;
        while i < n
            invariant
                n == palette.colors@.len(),
                i <= n,
                cols@.len() == i,
                forall|k: int| 0 <= k < i ==> cols@[k] == #[trigger] palette.colors@[k].rgb,
            decreases n - i,
        {
            cols.push(palette.colors[i].rgb);
            i += 1;
        }
        RgbSnapshot { cols }
    }

    /// How many colors the snapshot holds.
    pub fn len(&self) -> (n: usize)
        ensures
            n == self.colors().len(),
    {
        self.cols.len()
    }
}

fn rgb_distance(a: [u8; 3], b: [u8; 3]) -> (d: u32)
    ensures
        d as int == rgb_dist2(a, b),
        d <= 195075,
{
    let dr = a[0] as i32 - b[0] as i32;
    let dg = a[1] as i32 - b[1] as i32;
    let db = a[2] as i32 - b[2] as i32;
    assert(0 <= dr * dr <= 65025) by (nonlinear_arith)
        requires
            -255 <= dr <= 255,
    ;
    assert(0 <= dg * dg <= 65025) by (nonlinear_arith)
        requires
            -255 <= dg <= 255,
    ;
    assert(0 <= db * db <= 65025) by (nonlinear_arith)
        requires
            -255 <= db <= 255,
    ;
    (dr * dr + dg * dg + db * db) as u32
}

impl MergeTarget for RgbSnapshot {
    /// Among the in-use colors other than `sac`, the nearest to `sac` by
    /// squared RGB distance, the lowest palette index winning a tie. When
    /// `in_use` does not match the snapshot's length, the first in-use color
    /// other than `sac` stands in.
    fn nearest_target(&self, sac: usize, in_use: &Vec<bool>) -> (t: usize)
        ensures
            in_use@.len() == self.colors().len() ==> is_rgb_merge_target(
                self.colors(),
                in_use@,
                sac as int,
                t as int,
            ),
    {
        let n = in_use.len();
        if n == self.cols.len() {
            let s = self.cols[sac];
            let mut best_i: usize = 0;
            let mut best_d: u32 = u32::MAX;
            let mut found = false;
            let mut i: usize = 0;
            while i < n
                invariant
                    n == in_use@.len(),
                    n == self.cols@.len(),
                    sac < n,
                    s == self.cols@[sac as int],
                    i <= n,
                    found ==> best_i < i && best_i != sac && in_use@[best_i as int] && best_d as int
                        == rgb_dist2(s, self.cols@[best_i as int]),
                    !found ==> best_d == u32::MAX && forall|j: int|
                        0 <= j < i && j != sac ==> !#[trigger] in_use@[j],
                    forall|j: int|
                        0 <= j < i && j != sac && in_use@[j] ==> best_d as int <= rgb_dist2(
                            s,
                            #[trigger] self.cols@[j],
                        ),
                    found ==> forall|j: int|
                        0 <= j < best_i && j != sac && in_use@[j] ==> (best_d as int) < rgb_dist2(
                            s,
                            #[trigger] self.cols@[j],
                        ),
                decreases n - i,
            {
                if i != sac && in_use[i] {
                    let d = rgb_distance(s, self.cols[i]);
                    if d < best_d {
                        best_d = d;
                        best_i = i;
                        found = true;
                    }
                }
                i += 1;
            }
            proof {
                if !found {
                    let k = choose|k: int| 0 <= k < in_use@.len() && k != sac && #[trigger] in_use@[k];
                    assert(!in_use@[k]);
                }
            }
            return best_i;
        }
        // Only reached when `in_use` does not match the snapshot.
        let mut j: usize = 0;
        while j < n
            invariant
                n == in_use@.len(),
                n != self.cols@.len(),
                sac < n,
                j <= n,
                forall|k: int| 0 <= k < j && k != sac ==> !#[trigger] in_use@[k],
                exists|k: int| 0 <= k < in_use@.len() && k != sac && #[trigger] in_use@[k],
            decreases n - j,
        {
            if j != sac && in_use[j] {
                return j;
            }
            j += 1;
        }
        proof {
            let k = choose|k: int| 0 <= k < in_use@.len() && k != sac && #[trigger] in_use@[k];
            assert(!in_use@[k]);
        }
        0
    }
}

/// Palette-aware bead-color reducer: greedy least-usage merge.
///
/// Holds the color space it merges in, the palette size it was built for and
/// the `max_colors` upper bound, all fixed at construction.
#[derive(Debug)]
pub struct GreedyReducer<S> {
    space: S,
    len: usize,
    max_colors: u32,
}

/// The colors a list of cells uses.
pub open spec fn colors_used(cells: Seq<u16>) -> Set<int> {
    Set::new(|c: int| exists|i: int| 0 <= i < cells.len() && cells[i] as int == c)
}

/// `out` recolors `input` to at most `max_colors` of its own colors: the
/// same length, cells of one color stay of one color, no color is invented,
/// and input already within the bound is kept as it is.
pub open spec fn is_reduction(input: Seq<u16>, out: Seq<u16>, max_colors: u32) -> bool {
    &&& out.len() == input.len()
    &&& forall|i: int, j: int|
        0 <= i < out.len() && 0 <= j < out.len() && input[i] == input[j] ==> #[trigger] out[i]
            == #[trigger] out[j]
    &&& colors_used(out).subset_of(colors_used(input))
    &&& colors_used(out).len() <= max_colors
    &&& colors_used(input).len() <= max_colors ==> out == input
}

/// The indices whose flag is set.
pub open spec fn flagged(flags: Seq<bool>) -> Set<int> {
    Set::new(|k: int| 0 <= k < flags.len() && flags[k])
}

/// The sum of a list of counts.
pub open spec fn total(s: Seq<u64>) -> int
    decreases s.len(),
{
    if s.len() == 0 {
        0
    } else {
        total(s.drop_last()) + s.last()
    }
}

/// Replacing one count changes the sum by the difference.
proof fn lemma_total_update(s: Seq<u64>, i: int, v: u64)
    requires
        0 <= i < s.len(),
    ensures
        total(s.update(i, v)) == total(s) - s[i] + v,
    decreases s.len(),
{
    if i < s.len() - 1 {
        lemma_total_update(s.drop_last(), i, v);
        assert(s.update(i, v).drop_last() =~= s.drop_last().update(i, v));
    } else {
        assert(s.update(i, v).drop_last() =~= s.drop_last());
    }
}

/// Two distinct counts together are at most the sum.
proof fn lemma_total_bound(s: Seq<u64>, a: int, b: int)
    requires
        0 <= a < s.len(),
        0 <= b < s.len(),
    ensures
        s[a] <= total(s),
        a != b ==> s[a] + s[b] <= total(s),
    decreases s.len(),
{
    lemma_total_nonneg(s.drop_last());
    let l = s.len() - 1;
    if a < l && b < l {
        lemma_total_bound(s.drop_last(), a, b);
    } else if a < l {
        lemma_total_bound(s.drop_last(), a, a);
    } else if b < l {
        lemma_total_bound(s.drop_last(), b, b);
    }
}

/// A sum of counts is never negative.
proof fn lemma_total_nonneg(s: Seq<u64>)
    ensures
        total(s) >= 0,
    decreases s.len(),
{
    if s.len() > 0 {
        lemma_total_nonneg(s.drop_last());
    }
}

/// The set flags of a list are finite and at most as many as the list.
proof fn lemma_flagged_finite(flags: Seq<bool>)
    ensures
        flagged(flags).finite(),
        flagged(flags).len() <= flags.len(),
{
    vstd::set_lib::lemma_int_range(0, flags.len() as int);
    assert(flagged(flags).subset_of(vstd::set_lib::set_int_range(0, flags.len() as int)));
    vstd::set_lib::lemma_len_subset(flagged(flags), vstd::set_lib::set_int_range(0, flags.len() as int));
}

/// The colors of cells below `n` are finite.
proof fn lemma_colors_used_finite(cells: Seq<u16>, n: int)
    requires
        n >= 0,
        forall|i: int| 0 <= i < cells.len() ==> (#[trigger] cells[i] as int) < n,
    ensures
        colors_used(cells).finite(),
        colors_used(cells).subset_of(vstd::set_lib::set_int_range(0, n)),
{
    vstd::set_lib::lemma_int_range(0, n);
    assert forall|c: int| colors_used(cells).contains(c) implies vstd::set_lib::set_int_range(0, n).contains(c) by {
        let i = choose|i: int| 0 <= i < cells.len() && cells[i] as int == c;
        assert((cells[i] as int) < n);
    }
    vstd::set_lib::lemma_len_subset(colors_used(cells), vstd::set_lib::set_int_range(0, n));
}

/// A merge state over the palette: each color's usage, whether it is in use,
/// and the color each input color is currently merged into.
pub type MergeState = (Seq<int>, Seq<bool>, Seq<int>);

/// The merge state before any merge: each color's usage in `cells`, in use
/// when used, and merged into itself.
pub open spec fn start_state(cells: Seq<u16>, n: int) -> MergeState {
    (
        Seq::new(n as nat, |c: int| count_of(cells, c) as int),
        Seq::new(n as nat, |c: int| count_of(cells, c) > 0),
        Seq::new(n as nat, |c: int| c),
    )
}

/// `s` is the color a greedy merge sacrifices: an in-use color with the
/// least usage, the larger index on a tie.
pub open spec fn is_sacrifice(usage: Seq<int>, in_use: Seq<bool>, s: int) -> bool {
    &&& 0 <= s < in_use.len()
    &&& in_use[s]
    &&& forall|i: int|
        0 <= i < in_use.len() && in_use[i] ==> usage[s] < #[trigger] usage[i] || (usage[s] == usage[i]
            && i <= s)
}

/// The state after merging `sac` into `tgt`: the usage of `sac` moves to
/// `tgt`, `sac` leaves use, and everything merged into `sac` now goes to `tgt`.
pub open spec fn merge_state(st: MergeState, sac: int, tgt: int) -> MergeState {
    (
        st.0.update(tgt, st.0[tgt] + st.0[sac]).update(sac, 0),
        st.1.update(sac, false),
        Seq::new(st.2.len(), |c: int| if st.2[c] == sac { tgt } else { st.2[c] }),
    )
}

/// The state after the merges `steps` (sacrifice, target), in order.
pub open spec fn run_merges(st: MergeState, steps: Seq<(usize, usize)>) -> MergeState
    decreases steps.len(),
{
    if steps.len() == 0 {
        st
    } else {
        merge_state(run_merges(st, steps.drop_last()), steps.last().0 as int, steps.last().1 as int)
    }
}

/// Step `k` of a greedy run is the greedy choice: more than `max_colors`
/// colors are still in use, it sacrifices per [`is_sacrifice`], and its
/// target is what `space` answers when asked with the in-use flags `asked`.
pub open spec fn is_greedy_step<S: MergeTarget>(
    space: S,
    start: MergeState,
    max_colors: u32,
    steps: Seq<(usize, usize)>,
    asked: Seq<Vec<bool>>,
    k: int,
) -> bool {
    let st = run_merges(start, steps.take(k));
    &&& flagged(st.1).len() > max_colors
    &&& is_sacrifice(st.0, st.1, steps[k].0 as int)
    &&& asked[k]@ == st.1
    &&& call_ensures(S::nearest_target, (&space, steps[k].0, &asked[k]), steps[k].1)
}

/// `steps` is the greedy merge run of `space` from `start`: every step is the
/// greedy choice, and the run stops once at most `max_colors` colors are in
/// use.
pub open spec fn is_greedy_run<S: MergeTarget>(
    space: S,
    start: MergeState,
    max_colors: u32,
    steps: Seq<(usize, usize)>,
    asked: Seq<Vec<bool>>,
) -> bool {
    &&& asked.len() == steps.len()
    &&& forall|k: int| 0 <= k < steps.len() ==> #[trigger] is_greedy_step(space, start, max_colors, steps, asked, k)
    &&& flagged(run_merges(start, steps).1).len() <= max_colors
}

/// A color is counted in a list of cells exactly when some cell holds it.
proof fn lemma_count_of_positive(cells: Seq<u16>, c: int)
    ensures
        count_of(cells, c) > 0 <==> exists|j: int| 0 <= j < cells.len() && cells[j] as int == c,
    decreases cells.len(),
{
    if cells.len() > 0 {
        let init = cells.drop_last();
        lemma_count_of_positive(init, c);
        if exists|j: int| 0 <= j < init.len() && init[j] as int == c {
            let j = choose|j: int| 0 <= j < init.len() && init[j] as int == c;
            assert(cells[j] as int == c);
        }
        if exists|j: int| 0 <= j < cells.len() && cells[j] as int == c {
            let j = choose|j: int| 0 <= j < cells.len() && cells[j] as int == c;
            if j < cells.len() - 1 {
                assert(init[j] as int == c);
            }
        }
    }
}

/// At most one color is the greedy sacrifice of a state.
proof fn lemma_sacrifice_unique(usage: Seq<int>, in_use: Seq<bool>, s1: int, s2: int)
    requires
        is_sacrifice(usage, in_use, s1),
        is_sacrifice(usage, in_use, s2),
    ensures
        s1 == s2,
{
    assert(usage[s1] < usage[s2] || (usage[s1] == usage[s2] && s2 <= s1));
    assert(usage[s2] < usage[s1] || (usage[s2] == usage[s1] && s1 <= s2));
}

/// In the RGB space the greedy reduction is fully determined: any two
/// greedy runs from the same start are the same merges.
pub proof fn lemma_rgb_greedy_run_unique(
    space: RgbSnapshot,
    start: MergeState,
    max_colors: u32,
    steps1: Seq<(usize, usize)>,
    asked1: Seq<Vec<bool>>,
    steps2: Seq<(usize, usize)>,
    asked2: Seq<Vec<bool>>,
)
    requires
        start.1.len() == space.colors().len(),
        is_greedy_run(space, start, max_colors, steps1, asked1),
        is_greedy_run(space, start, max_colors, steps2, asked2),
    ensures
        steps1 == steps2,
{
    let n1 = steps1.len();
    let n2 = steps2.len();
    let short: int = if n1 < n2 { n1 as int } else { n2 as int };
    lemma_rgb_greedy_prefix(space, start, max_colors, steps1, asked1, steps2, asked2, short);
    if n1 < n2 {
        assert(steps1.take(n1 as int) =~= steps1);
        assert(is_greedy_step(space, start, max_colors, steps2, asked2, n1 as int));
    } else if n2 < n1 {
        assert(steps2.take(n2 as int) =~= steps2);
        assert(is_greedy_step(space, start, max_colors, steps1, asked1, n2 as int));
    }
    assert(steps1.take(short) =~= steps1);
    assert(steps2.take(short) =~= steps2);
}

/// Two RGB greedy runs agree on their first `k` merges.
proof fn lemma_rgb_greedy_prefix(
    space: RgbSnapshot,
    start: MergeState,
    max_colors: u32,
    steps1: Seq<(usize, usize)>,
    asked1: Seq<Vec<bool>>,
    steps2: Seq<(usize, usize)>,
    asked2: Seq<Vec<bool>>,
    k: int,
)
    requires
        start.1.len() == space.colors().len(),
        is_greedy_run(space, start, max_colors, steps1, asked1),
        is_greedy_run(space, start, max_colors, steps2, asked2),
        0 <= k <= steps1.len(),
        k <= steps2.len(),
    ensures
        steps1.take(k) == steps2.take(k),
    decreases k,
{
    if k > 0 {
        lemma_rgb_greedy_prefix(space, start, max_colors, steps1, asked1, steps2, asked2, k - 1);
        let j = k - 1;
        assert(is_greedy_step(space, start, max_colors, steps1, asked1, j));
        assert(is_greedy_step(space, start, max_colors, steps2, asked2, j));
        let st = run_merges(start, steps1.take(j));
        assert(steps1.take(j) == steps2.take(j));
        lemma_greedy_len(space, start, max_colors, steps1, asked1, j);
        lemma_sacrifice_unique(st.0, st.1, steps1[j].0 as int, steps2[j].0 as int);
        assert(is_rgb_merge_target(space.colors(), asked1[j]@, steps1[j].0 as int, steps1[j].1 as int));
        assert(is_rgb_merge_target(space.colors(), asked2[j]@, steps2[j].0 as int, steps2[j].1 as int));
        lemma_rgb_merge_target_unique(space.colors(), st.1, steps1[j].0 as int, steps1[j].1 as int, steps2[j].1 as int);
        assert(steps1.take(k) =~= steps1.take(j).push(steps1[j]));
        assert(steps2.take(k) =~= steps2.take(j).push(steps2[j]));
    }
}

/// Along a greedy run the in-use flags keep their length.
proof fn lemma_greedy_len<S: MergeTarget>(
    space: S,
    start: MergeState,
    max_colors: u32,
    steps: Seq<(usize, usize)>,
    asked: Seq<Vec<bool>>,
    k: int,
)
    requires
        is_greedy_run(space, start, max_colors, steps, asked),
        0 <= k <= steps.len(),
    ensures
        run_merges(start, steps.take(k)).1.len() == start.1.len(),
    decreases k,
{
    if k > 0 {
        lemma_greedy_len(space, start, max_colors, steps, asked, k - 1);
        assert(is_greedy_step(space, start, max_colors, steps, asked, k - 1));
        assert(steps.take(k).drop_last() =~= steps.take(k - 1));
        assert(steps.take(k).last() == steps[k - 1]);
    }
}

impl<S: MergeTarget> BeadReducer for GreedyReducer<S> {
    open spec fn accepts(&self, pattern: &BeadPattern) -> bool {
        forall|i: int| 0 <= i < pattern.cells@.len() ==> (#[trigger] pattern.cells@[i] as int) < self.palette_len()
    }

    /// Greedy least-usage merge: while more than `max_colors` bead colors are
    /// in use, the least-used one (the larger index on a tie) is merged into
    /// the in-use color the space picks for it, and every color merged into
    /// it follows. A pattern already within the bound, the empty pattern
    /// among them, is returned verbatim.
    fn reduce(&self, pattern: &BeadPattern) -> (out: BeadPattern)
        ensures
            out.width == pattern.width,
            out.height == pattern.height,
            is_reduction(pattern.cells@, out.cells@, self.max_colors()),
            exists|steps: Seq<(usize, usize)>, asked: Seq<Vec<bool>>| {
                &&& #[trigger] is_greedy_run(
                    self.space(),
                    start_state(pattern.cells@, self.palette_len() as int),
                    self.max_colors(),
                    steps,
                    asked,
                )
                &&& forall|i: int| 0 <= i < out.cells@.len() ==> #[trigger] out.cells@[i] as int
                    == run_merges(start_state(pattern.cells@, self.palette_len() as int), steps).2[pattern.cells@[i] as int]
            },
    {
        proof {
            use_type_invariant(self);
        }
        let n = self.len;
        let cells = &pattern.cells;
        let m = cells.len();
        let ghost used = colors_used(cells@);
        let ghost start = start_state(cells@, n as int);
        assert forall|j: int| 0 <= j < m implies (#[trigger] cells@[j] as int) < n by {
            assert((pattern.cells@[j] as int) < self.palette_len());
        }
        proof {
            lemma_colors_used_finite(cells@, n as int);
        }
        // Usage per palette index.
        let mut usage: Vec<u64> = Vec::new();
        while usage.len() < n
            invariant
                usage@.len() <= n,
                forall|c: int| 0 <= c < usage@.len() ==> usage@[c] == 0,
                total(usage@) == 0,
            decreases n - usage@.len(),
        {
            let ghost before = usage@;
            usage.push(0);
            proof {
                assert(usage@.drop_last() =~= before);
            }
        }
        let mut i: usize = 0;
        while i < m
            invariant
                m == cells@.len(),
                i <= m,
                usage@.len() == n,
                n <= 65536,
                forall|j: int| 0 <= j < m ==> (#[trigger] cells@[j] as int) < n,
                total(usage@) == i,
                forall|c: int| 0 <= c < n ==> #[trigger] usage@[c] == count_of(cells@.take(i as int), c),
            decreases m - i,
        {
            let c = cells[i] as usize;
            proof {
                lemma_total_bound(usage@, c as int, c as int);
            }
            let ghost before = usage@;
            let u = usage[c];
            usage.set(c, u + 1);
            proof {
                lemma_total_update(before, c as int, (u + 1) as u64);
                assert(cells@.take(i + 1) =~= cells@.take(i as int).push(cells@[i as int]));
                assert forall|k: int| 0 <= k < n implies #[trigger] usage@[k] == count_of(cells@.take(i + 1), k) by {
                    lemma_count_of_push(cells@.take(i as int), cells@[i as int], k);
                }
            }
            i += 1;
        }
        proof {
            assert(cells@.take(m as int) =~= cells@);
        }
        // "In use" = usage > 0. `d` is the distinct bead-color count.
        let mut in_use: Vec<bool> = Vec::new();
        let mut d: u32 = 0;
        let mut k: usize = 0;
        proof {
            assert(flagged(in_use@) =~= Set::<int>::empty());
        }
        while k < n
            invariant
                k <= n,
                n <= 65536,
                usage@.len() == n,
                in_use@.len() == k,
                forall|c: int| 0 <= c < k ==> #[trigger] in_use@[c] == (usage@[c] > 0),
                d as int == flagged(in_use@).len(),
                d <= k,
            decreases n - k,
        {
            let ghost before = in_use@;
            let on = usage[k] > 0;
            in_use.push(on);
            proof {
                lemma_flagged_finite(before);
                if on {
                    assert(flagged(in_use@) =~= flagged(before).insert(k as int));
                } else {
                    assert(flagged(in_use@) =~= flagged(before));
                }
            }
            if on {
                d += 1;
            }
            k += 1;
        }
        proof {
            assert forall|c: int| #[trigger] flagged(in_use@).contains(c) == used.contains(c) by {
                if 0 <= c < n {
                    lemma_count_of_positive(cells@, c);
                }
                if used.contains(c) {
                    let j = choose|j: int| 0 <= j < cells@.len() && cells@[j] as int == c;
                    assert((cells@[j] as int) < n);
                    lemma_count_of_positive(cells@, c);
                }
            }
            assert(flagged(in_use@) =~= used);
            assert(in_use@ =~= start.1);
        }
        // Short-circuit no-op (the empty pattern among them): return verbatim.
        if d <= self.max_colors {
            let copy = cells.clone();
            proof {
                assert(copy@ =~= cells@);
                let steps = Seq::<(usize, usize)>::empty();
                let asked = Seq::<Vec<bool>>::empty();
                assert(run_merges(start, steps) == start);
                assert(is_greedy_run(self.space(), start, self.max_colors(), steps, asked));
                assert forall|i: int| 0 <= i < copy@.len() implies #[trigger] copy@[i] as int
                    == run_merges(start, steps).2[pattern.cells@[i] as int] by {
                    assert((cells@[i] as int) < n);
                }
            }
            return BeadPattern { width: pattern.width, height: pattern.height, cells: copy };
        }
        // `rep[i]` is the current representative of the input palette color
        // `i`; merge chains collapse through it, so output stays valid indices.
        let mut rep: Vec<u16> = Vec::new();
        let mut r: usize = 0;
        while r < n
            invariant
                r <= n,
                n <= 65536,
                d as int == flagged(in_use@).len(),
                rep@.len() == r,
                forall|c: int| 0 <= c < r ==> #[trigger] rep@[c] as int == c,
            decreases n - r,
        {
            rep.push(r as u16);
            r += 1;
        }
        let ghost mut steps: Seq<(usize, usize)> = Seq::empty();
        let ghost mut asked: Seq<Vec<bool>> = Seq::empty();
        proof {
            assert(run_merges(start, steps) == start);
        }
        while d > self.max_colors
            invariant
                n == self.palette_len(),
                0 < n <= 65536,
                self.max_colors() >= 1,
                in_use@.len() == n,
                usage@.len() == n,
                rep@.len() == n,
                m == cells@.len(),
                total(usage@) == m,
                used == colors_used(cells@),
                used.finite(),
                d as int == flagged(in_use@).len(),
                forall|c: int| 0 <= c < n && #[trigger] in_use@[c] ==> used.contains(c),
                forall|c: int|
                    0 <= c < n && used.contains(c) ==> (#[trigger] rep@[c] as int) < n && in_use@[rep@[c] as int],
                start == start_state(cells@, n as int),
                run_merges(start, steps).0.len() == n,
                run_merges(start, steps).2.len() == n,
                forall|c: int| 0 <= c < n ==> #[trigger] usage@[c] as int == run_merges(start, steps).0[c],
                in_use@ == run_merges(start, steps).1,
                forall|c: int| 0 <= c < n ==> #[trigger] rep@[c] as int == run_merges(start, steps).2[c],
                asked.len() == steps.len(),
                forall|j: int| 0 <= j < steps.len() ==> #[trigger] is_greedy_step(self.space(), start, self.max_colors(), steps, asked, j),
            decreases d,
        {
            proof {
                lemma_flagged_finite(in_use@);
            }
            let ghost st = run_merges(start, steps);
            // Sacrifice: least-used in-use color; tie goes to the larger index.
            let mut sac: usize = 0;
            let mut best_u: u64 = u64::MAX;
            let mut found = false;
            let mut i: usize = 0;
            while i < n
                invariant
                    n == in_use@.len(),
                    n == usage@.len(),
                    i <= n,
                    found ==> sac < i && in_use@[sac as int] && best_u == usage@[sac as int],
                    !found ==> best_u == u64::MAX,
                    !found ==> forall|c: int| 0 <= c < i ==> !#[trigger] in_use@[c],
                    found ==> forall|c: int|
                        0 <= c < i && in_use@[c] ==> usage@[sac as int] < #[trigger] usage@[c] || (usage@[sac as int]
                            == usage@[c] && c <= sac),
                decreases n - i,
            {
                if in_use[i] && usage[i] <= best_u {
                    best_u = usage[i];
                    sac = i;
                    found = true;
                }
                i += 1;
            }
            proof {
                if !found {
                    assert(flagged(in_use@) =~= Set::<int>::empty());
                }
                vstd::set::axiom_set_remove_len(flagged(in_use@), sac as int);
                assert(flagged(in_use@).contains(sac as int));
                let rest = flagged(in_use@).remove(sac as int);
                vstd::set::axiom_set_remove_finite(flagged(in_use@), sac as int);
                assert(rest.len() > 0);
                let j = rest.choose();
                vstd::set::axiom_set_choose_len(rest);
                assert(0 <= j < in_use@.len() && j != sac && in_use@[j]);
                assert(is_sacrifice(st.0, st.1, sac as int)) by {
                    assert forall|c: int| 0 <= c < st.1.len() && st.1[c] implies st.0[sac as int] < #[trigger] st.0[c]
                        || (st.0[sac as int] == st.0[c] && c <= sac) by {
                        assert(usage@[c] as int == st.0[c]);
                        assert(usage@[sac as int] as int == st.0[sac as int]);
                    }
                }
            }
            let ghost asked_flags = in_use;
            // Target: the in-use color the space picks for the sacrifice.
            let tgt = self.space.nearest_target(sac, &in_use);
            // Merge: repoint every color currently mapped to `sac`, fold usage.
            let sac16 = sac as u16;
            let tgt16 = tgt as u16;
            let ghost rep0 = rep@;
            let mut q: usize = 0;
            while q < n
                invariant
                    n == rep@.len(),
                    rep0.len() == n,
                    q <= n,
                    sac < n,
                    tgt < n,
                    sac16 as int == sac,
                    tgt16 as int == tgt,
                    forall|c: int|
                        0 <= c < n ==> #[trigger] rep@[c] == if c < q && rep0[c] == sac16 {
                            tgt16
                        } else {
                            rep0[c]
                        },
                decreases n - q,
            {
                if rep[q] == sac16 {
                    rep.set(q, tgt16);
                }
                q += 1;
            }
            let ghost usage0 = usage@;
            proof {
                lemma_total_bound(usage0, tgt as int, sac as int);
            }
            let folded = usage[tgt] + usage[sac];
            usage.set(tgt, folded);
            usage.set(sac, 0);
            proof {
                lemma_total_update(usage0, tgt as int, folded);
                lemma_total_update(usage0.update(tgt as int, folded), sac as int, 0);
            }
            let ghost in_use0 = in_use@;
            in_use.set(sac, false);
            proof {
                assert(flagged(in_use@) =~= flagged(in_use0).remove(sac as int));
                vstd::set::axiom_set_remove_len(flagged(in_use0), sac as int);
                assert forall|c: int|
                    0 <= c < n && used.contains(c) implies (#[trigger] rep@[c] as int) < n && in_use@[rep@[c] as int] by {
                    if rep0[c] == sac16 {
                        assert(rep@[c] == tgt16);
                    } else {
                        assert(rep@[c] == rep0[c]);
                    }
                }
                let steps0 = steps;
                let asked0 = asked;
                let next = merge_state(st, sac as int, tgt as int);
                steps = steps0.push((sac, tgt));
                asked = asked0.push(asked_flags);
                assert(steps.drop_last() =~= steps0);
                assert(run_merges(start, steps) == next);
                assert forall|c: int| 0 <= c < n implies #[trigger] usage@[c] as int == next.0[c] by {
                    assert(usage0[c] as int == st.0[c]);
                    assert(usage0[tgt as int] as int == st.0[tgt as int]);
                    assert(usage0[sac as int] as int == st.0[sac as int]);
                }
                assert(in_use@ =~= next.1);
                assert forall|c: int| 0 <= c < n implies #[trigger] rep@[c] as int == next.2[c] by {
                    assert(rep0[c] as int == st.2[c]);
                }
                assert forall|j: int| 0 <= j < steps.len() implies #[trigger] is_greedy_step(self.space(), start, self.max_colors(), steps, asked, j) by {
                    if j < steps0.len() {
                        assert(steps.take(j) =~= steps0.take(j));
                        assert(steps[j] == steps0[j]);
                        assert(asked[j] == asked0[j]);
                        assert(is_greedy_step(self.space(), start, self.max_colors(), steps0, asked0, j));
                    } else {
                        assert(steps.take(j) =~= steps0);
                        assert(asked[j] == asked_flags);
                    }
                }
            }
            d -= 1;
        }
        let mut out: Vec<u16> = Vec::with_capacity(m);
        let mut i: usize = 0;
        while i < m
            invariant
                m == cells@.len(),
                i <= m,
                out@.len() == i,
                rep@.len() == n,
                forall|j: int| 0 <= j < m ==> (#[trigger] cells@[j] as int) < n,
                forall|j: int| 0 <= j < i ==> #[trigger] out@[j] == rep@[cells@[j] as int],
            decreases m - i,
        {
            out.push(rep[cells[i] as usize]);
            i += 1;
        }
        proof {
            assert forall|c: int| colors_used(out@).contains(c) implies flagged(in_use@).contains(c) && used.contains(c) by {
                let j = choose|j: int| 0 <= j < out@.len() && out@[j] as int == c;
                let c0 = cells@[j] as int;
                assert(used.contains(c0));
                assert((cells@[j] as int) < self.palette_len());
                assert(rep@[c0] as int == c);
            }
            assert(colors_used(out@).subset_of(flagged(in_use@)));
            lemma_flagged_finite(in_use@);
            vstd::set_lib::lemma_len_subset(colors_used(out@), flagged(in_use@));
            assert(used.len() > self.max_colors());
            assert(is_greedy_run(self.space(), start, self.max_colors(), steps, asked));
            assert forall|i: int| 0 <= i < out@.len() implies #[trigger] out@[i] as int
                == run_merges(start, steps).2[pattern.cells@[i] as int] by {
                assert((cells@[i] as int) < n);
                assert(rep@[cells@[i] as int] as int == run_merges(start, steps).2[cells@[i] as int]);
            }
        }
        BeadPattern { width: pattern.width, height: pattern.height, cells: out }
    }
}

impl<S> GreedyReducer<S> {
    #[verifier::type_invariant]
    spec fn inv(self) -> bool {
        &&& self.max_colors >= 1
        &&& 0 < self.len <= 65536
    }

    /// The palette size the reducer was built for.
    pub closed spec fn palette_len(&self) -> nat {
        self.len as nat
    }

    /// The upper bound on distinct bead colors.
    pub closed spec fn max_colors(&self) -> u32 {
        self.max_colors
    }

    /// The color space the reducer merges in.
    pub closed spec fn space(&self) -> S {
        self.space
    }
}

impl<S: MergeTarget> GreedyReducer<S> {
    /// Build a reducer for `palette`, merging in `space`, with the given
    /// bead-color upper bound.
    ///
    /// Validation order is fixed: `max_colors == 0` is an `InvalidImage`
    /// before any palette check; only then is the palette size checked as the
    /// matchers check it (empty, or more than 65536 colors: `InvalidPalette`).
    /// Never panics.
    pub fn new(palette: &Palette, space: S, max_colors: u32) -> (r: Result<GreedyReducer<S>, BeadError>)
        ensures
            max_colors == 0 ==> (r matches Err(BeadError::InvalidImage { reason }) && reason@
                == "reducer: max_colors must be >= 1, got 0"@),
            max_colors != 0 ==> (match palette_len_failure(palette.colors@.len()) {
                None => r matches Ok(g) && g.palette_len() == palette.colors@.len() && g.max_colors()
                    == max_colors && g.space() == space,
                Some(reason) => r matches Err(BeadError::InvalidPalette { reason: e }) && e@
                    == reason,
            }),
    {
        if max_colors == 0 {
            return Err(BeadError::InvalidImage {
                reason: String::from_str("reducer: max_colors must be >= 1, got 0"),
            });
        }
        match check_palette_len(palette) {
            Ok(()) => {},
            Err(e) => return Err(e),
        }
        Ok(GreedyReducer { space, len: palette.colors.len(), max_colors })
    }

    /// Whether every cell of `pattern` is an index of the reducer's palette,
    /// the condition under which `reduce` may be called.
    pub fn accepts_pattern(&self, pattern: &BeadPattern) -> (b: bool)
        ensures
            b == self.accepts(pattern),
    {
        let n = pattern.cells.len();
        let mut i: usize = 0;
        while i < n
            invariant
                n == pattern.cells@.len(),
                i <= n,
                forall|k: int| 0 <= k < i ==> (pattern.cells@[k] as int) < self.palette_len(),
            decreases n - i,
        {
            if pattern.cells[i] as usize >= self.len {
                return false;
            }
            i += 1;
        }
        true
    }
}

} // verus!
