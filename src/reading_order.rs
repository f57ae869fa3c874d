//! The recursive cutter and the reading-order entry point.
use vstd::prelude::*;
use crate::histogram::{
    build_horizontal_histogram,
    build_vertical_histogram,
    find_largest_gap,
    histogram,
    is_best_gap,
    largest_gap,
};
use crate::matching::{lemma_partition_exact, partition_by_mask, select, unique_ids};
use crate::reinsertion::{
    best_anchor,
    first_target,
    insert_all,
    insert_one,
    insertion_queue,
    is_wide,
    lemma_merge_masked_permutes,
    merge_masked,
    merge_masked_into,
    queue_upto,
    with_priority,
};
use crate::trace::{NoTrace, Observer};
use crate::traits::{priority, Axis, Element, SemanticLabel};

verus! {

broadcast use {vstd::seq_lib::group_to_multiset_ensures, vstd::seq_lib::to_multiset_insert};

/// Tuning of the reading-order computation. Lengths are in coordinate units.
#[derive(Clone, Copy, Debug, PartialEq, Eq, Structural)]
pub struct XYCutConfig {
    /// Shortest empty projection run that counts as a cut.
    pub min_cut_threshold: u32,
    /// Histogram bins per 1000 coordinate units.
    pub histogram_resolution_scale: u32,
    /// Centers closer than this on the vertical axis share a row.
    pub same_row_tolerance: u32,
    /// A masked candidate farther than this from every text element is
    /// isolated.
    pub isolation_distance: u32,
    /// Left edges closer than this share a column when a masked element
    /// finds no anchor.
    pub same_column_distance: u32,
}

impl Default for XYCutConfig {
    fn default() -> (r: Self)
        ensures
            r.min_cut_threshold == 15,
            r.histogram_resolution_scale == 500,
            r.same_row_tolerance == 10,
            r.isolation_distance == 50,
            r.same_column_distance == 100,
    {
        XYCutConfig {
            min_cut_threshold: 15,
            histogram_resolution_scale: 500,
            same_row_tolerance: 10,
            isolation_distance: 50,
            same_column_distance: 100,
        }
    }
}

/// An axis-aligned rectangle of the page.
#[derive(Clone, Copy, Debug, PartialEq, Eq, Structural)]
pub struct Region {
    pub x_min: i32,
    pub y_min: i32,
    pub x_max: i32,
    pub y_max: i32,
}

impl Region {
    pub open spec fn lo(self, axis: Axis) -> int {
        match axis {
            Axis::X => self.x_min as int,
            Axis::Y => self.y_min as int,
        }
    }

    pub open spec fn hi(self, axis: Axis) -> int {
        match axis {
            Axis::X => self.x_max as int,
            Axis::Y => self.y_max as int,
        }
    }

    /// The part of the region before coordinate `c` on `axis`.
    pub open spec fn before(self, axis: Axis, c: i32) -> Region {
        match axis {
            Axis::X => Region { x_max: c, ..self },
            Axis::Y => Region { y_max: c, ..self },
        }
    }

    /// The part of the region from coordinate `c` on `axis`.
    pub open spec fn from(self, axis: Axis, c: i32) -> Region {
        match axis {
            Axis::X => Region { x_min: c, ..self },
            Axis::Y => Region { y_min: c, ..self },
        }
    }
}

impl Region {
    /// The part of the region before coordinate `c` on `axis`.
    pub fn part_before(&self, axis: Axis, c: i32) -> (r: Region)
        ensures
            r == self.before(axis, c),
    {
        match axis {
            Axis::X => Region { x_max: c, ..*self },
            Axis::Y => Region { y_max: c, ..*self },
        }
    }

    /// The part of the region from coordinate `c` on `axis`.
    pub fn part_from(&self, axis: Axis, c: i32) -> (r: Region)
        ensures
            r == self.from(axis, c),
    {
        match axis {
            Axis::X => Region { x_min: c, ..*self },
            Axis::Y => Region { y_min: c, ..*self },
        }
    }
}

pub open spec fn other_axis(axis: Axis) -> Axis {
    match axis {
        Axis::X => Axis::Y,
        Axis::Y => Axis::X,
    }
}

/// Number of histogram bins over a range of the given length.
pub open spec fn bin_total(range: int, cfg: XYCutConfig) -> int {
    if range <= 0 {
        0
    } else {
        range * cfg.histogram_resolution_scale / 1000
    }
}

/// Shortest qualifying gap, in bins.
pub open spec fn min_gap_bins(cfg: XYCutConfig) -> int {
    cfg.min_cut_threshold * cfg.histogram_resolution_scale / 1000
}

/// The cut coordinate on `axis` within `[lo, hi]`: the start of the bin at
/// the center of the largest qualifying gap, if any.
pub open spec fn find_cut(s: Seq<Element>, axis: Axis, lo: int, hi: int, cfg: XYCutConfig) -> Option<
    int,
> {
    let bins = bin_total(hi - lo, cfg);
    if bins == 0 || bins > usize::MAX {
        None
    } else {
        match largest_gap(histogram(s, axis, lo, hi, bins as nat), min_gap_bins(cfg)) {
            Some(k) => Some(lo + k * (hi - lo) / bins),
            None => None,
        }
    }
}

/// The elements of `s`, in order, whose center on `axis` lies before `c`
/// (`before`), or not (`!before`).
pub open spec fn side(s: Seq<Element>, axis: Axis, c: int, before: bool) -> Seq<Element>
    decreases s.len(),
{
    if s.len() == 0 {
        s
    } else {
        let r = side(s.drop_last(), axis, c, before);
        if (s.last().center_on(axis) < c) == before {
            r.push(s.last())
        } else {
            r
        }
    }
}

pub proof fn lemma_side_split(s: Seq<Element>, axis: Axis, c: int)
    ensures
        side(s, axis, c, true).len() + side(s, axis, c, false).len() == s.len(),
        side(s, axis, c, true).to_multiset().add(side(s, axis, c, false).to_multiset())
            == s.to_multiset(),
    decreases s.len(),
{
    broadcast use vstd::multiset::group_multiset_axioms;

    if s.len() > 0 {
        lemma_side_split(s.drop_last(), axis, c);
        assert(s.drop_last().push(s.last()) =~= s);
        assert(side(s, axis, c, true).to_multiset().add(side(s, axis, c, false).to_multiset())
            =~= s.to_multiset());
    }
}

/// Aspect weight of a box: width over height in units of 1/65536, rounded
/// toward zero; zero for a box without height.
pub open spec fn aspect_weight(e: Element) -> int {
    let w = e.width();
    let h = e.height();
    if h == 0 {
        0
    } else {
        let q = (if w < 0 { -w } else { w }) * 65536 / (if h < 0 { -h } else { h });
        if (w < 0) != (h < 0) {
            -q
        } else {
            q
        }
    }
}

/// Summed aspect weights of the cross-layout elements (`cross`) or of the
/// others (`!cross`).
pub open spec fn density(s: Seq<Element>, cross: bool) -> int
    decreases s.len(),
{
    if s.len() == 0 {
        0
    } else {
        density(s.drop_last(), cross) + if (s.last().label == SemanticLabel::CrossLayout) == cross {
            aspect_weight(s.last())
        } else {
            0
        }
    }
}

/// The density ratio (cross-layout over other aspect weight, taken as 1
/// where the other weight is zero) exceeds 0.9.
pub open spec fn prefers_columns(s: Seq<Element>) -> bool {
    let c = density(s, true);
    let o = density(s, false);
    o == 0 || (o > 0 && 10 * c > 9 * o) || (o < 0 && 10 * c < 9 * o)
}

/// `a` reads before `b`: by horizontal center within a row (vertical
/// centers less than `tol` apart), else by vertical center.
pub open spec fn reads_before(a: Element, b: Element, tol: int) -> bool {
    let dy = a.cy - b.cy;
    if (if dy < 0 { -dy } else { dy }) < tol {
        a.cx < b.cx
    } else {
        a.cy < b.cy
    }
}

/// `e` inserted into `r` by a backward scan: it moves before every trailing
/// element that it reads before.
pub open spec fn insert_by_position(r: Seq<Element>, e: Element, tol: int) -> Seq<Element>
    decreases r.len(),
{
    if r.len() == 0 {
        seq![e]
    } else if reads_before(e, r.last(), tol) {
        insert_by_position(r.drop_last(), e, tol).push(r.last())
    } else {
        r.push(e)
    }
}

/// Stable insertion sort of `s` in reading position.
pub open spec fn position_sort(s: Seq<Element>, tol: int) -> Seq<Element>
    decreases s.len(),
{
    if s.len() == 0 {
        s
    } else {
        insert_by_position(position_sort(s.drop_last(), tol), s.last(), tol)
    }
}

pub proof fn lemma_insert_by_position(r: Seq<Element>, e: Element, tol: int)
    ensures
        insert_by_position(r, e, tol).to_multiset() == r.to_multiset().insert(e),
        insert_by_position(r, e, tol).len() == r.len() + 1,
    decreases r.len(),
{
    broadcast use vstd::multiset::group_multiset_axioms;

    if r.len() > 0 {
        lemma_insert_by_position(r.drop_last(), e, tol);
        assert(r.drop_last().push(r.last()) =~= r);
        assert(insert_by_position(r, e, tol).to_multiset() =~= r.to_multiset().insert(e));
    } else {
        assert(seq![e] =~= r.push(e));
    }
}

/// The fallback sort keeps the elements.
pub proof fn lemma_position_sort_permutes(s: Seq<Element>, tol: int)
    ensures
        position_sort(s, tol).to_multiset() == s.to_multiset(),
        position_sort(s, tol).len() == s.len(),
    decreases s.len(),
{
    if s.len() > 0 {
        lemma_position_sort_permutes(s.drop_last(), tol);
        lemma_insert_by_position(position_sort(s.drop_last(), tol), s.last(), tol);
        assert(s.drop_last().push(s.last()) =~= s);
    }
}

/// The cut on `axis` where it splits `s` into two non-empty sides: each side
/// holds fewer elements than the whole.
pub open spec fn effective_cut(s: Seq<Element>, region: Region, axis: Axis, cfg: XYCutConfig) -> Option<
    int,
> {
    match find_cut(s, axis, region.lo(axis), region.hi(axis), cfg) {
        Some(c) => if side(s, axis, c, true).len() < s.len() && side(s, axis, c, false).len()
            < s.len() {
            Some(c)
        } else {
            None
        },
        None => None,
    }
}

/// The axis tried first: columns where the density ratio exceeds 0.9, rows
/// otherwise.
pub open spec fn first_axis(s: Seq<Element>) -> Axis {
    if prefers_columns(s) {
        Axis::X
    } else {
        Axis::Y
    }
}

/// Reading order of `s` within `region` by recursive cuts: an effective cut
/// on the first axis, else on the other, splits `s` and the two sides are
/// ordered in turn, the side before the cut first; with no effective cut the
/// elements are sorted by position.
pub open spec fn cut_order(s: Seq<Element>, region: Region, cfg: XYCutConfig) -> Seq<Element>
    decreases s.len(),
{
    if s.len() <= 1 {
        s
    } else {
        let a1 = first_axis(s);
        let a2 = other_axis(a1);
        let c1 = effective_cut(s, region, a1, cfg);
        let c2 = effective_cut(s, region, a2, cfg);
        if c1 is Some {
            let c = c1->0;
            cut_order(side(s, a1, c, true), region.before(a1, c as i32), cfg) + cut_order(
                side(s, a1, c, false),
                region.from(a1, c as i32),
                cfg,
            )
        } else if c2 is Some {
            let c = c2->0;
            cut_order(side(s, a2, c, true), region.before(a2, c as i32), cfg) + cut_order(
                side(s, a2, c, false),
                region.from(a2, c as i32),
                cfg,
            )
        } else {
            position_sort(s, cfg.same_row_tolerance as int)
        }
    }
}

/// The recursive cut keeps the elements.
pub proof fn lemma_cut_order_permutes(s: Seq<Element>, region: Region, cfg: XYCutConfig)
    ensures
        cut_order(s, region, cfg).to_multiset() == s.to_multiset(),
    decreases s.len(),
{
    broadcast use vstd::multiset::group_multiset_axioms;

    if s.len() > 1 {
        let a1 = first_axis(s);
        let a2 = other_axis(a1);
        let c1 = effective_cut(s, region, a1, cfg);
        let c2 = effective_cut(s, region, a2, cfg);
        if c1 is Some {
            let c = c1->0;
            lemma_side_split(s, a1, c);
            lemma_cut_order_permutes(side(s, a1, c, true), region.before(a1, c as i32), cfg);
            lemma_cut_order_permutes(side(s, a1, c, false), region.from(a1, c as i32), cfg);
            vstd::seq_lib::lemma_multiset_commutative(
                cut_order(side(s, a1, c, true), region.before(a1, c as i32), cfg),
                cut_order(side(s, a1, c, false), region.from(a1, c as i32), cfg),
            );
        } else if c2 is Some {
            let c = c2->0;
            lemma_side_split(s, a2, c);
            lemma_cut_order_permutes(side(s, a2, c, true), region.before(a2, c as i32), cfg);
            lemma_cut_order_permutes(side(s, a2, c, false), region.from(a2, c as i32), cfg);
            vstd::seq_lib::lemma_multiset_commutative(
                cut_order(side(s, a2, c, true), region.before(a2, c as i32), cfg),
                cut_order(side(s, a2, c, false), region.from(a2, c as i32), cfg),
            );
        } else {
            lemma_position_sort_permutes(s, cfg.same_row_tolerance as int);
        }
    }
}

/// Reading-order engine with its configuration.
pub struct XYCutPlusPlus {
    pub config: XYCutConfig,
}

/// A pending piece of the recursive cut: elements and the region they lie in.
struct Task {
    elements: Vec<Element>,
    region: Region,
}

/// The cut orders still owed by a stack of tasks, the top one first.
spec fn pending(st: Seq<Task>, cfg: XYCutConfig) -> Seq<Element>
    decreases st.len(),
{
    if st.len() == 0 {
        Seq::empty()
    } else {
        cut_order(st.last().elements@, st.last().region, cfg) + pending(st.drop_last(), cfg)
    }
}

/// Work left in a stack of non-empty tasks.
spec fn stack_weight(st: Seq<Task>) -> nat
    decreases st.len(),
{
    if st.len() == 0 {
        0
    } else {
        (2 * st.last().elements@.len() - 1) as nat + stack_weight(st.drop_last())
    }
}

impl XYCutPlusPlus {
    pub fn new(config: XYCutConfig) -> (r: Self)
        ensures
            r.config == config,
    {
        XYCutPlusPlus { config }
    }

    fn find_cut_on(&self, elements: &[Element], axis: Axis, lo: i32, hi: i32) -> (r: Option<i32>)
        ensures
            match r {
                Some(c) => find_cut(elements@, axis, lo as int, hi as int, self.config) == Some(
                    c as int,
                ) && lo <= c < hi,
                None => find_cut(elements@, axis, lo as int, hi as int, self.config) is None,
            },
    {
        let cfg = self.config;
        if hi <= lo {
            return None;
        }
        let range: u64 = (hi as i64 - lo as i64) as u64;
        assert(range * cfg.histogram_resolution_scale <= 0xffff_ffff * 0xffff_ffff)
            by (nonlinear_arith)
            requires
                range <= 0xffff_ffff,
                cfg.histogram_resolution_scale <= 0xffff_ffff,
        ;
        let bins64: u64 = range * cfg.histogram_resolution_scale as u64 / 1000;
        if bins64 == 0 || bins64 > usize::MAX as u64 {
            return None;
        }
        let bins = bins64 as usize;
        let hist = match axis {
            Axis::Y => build_horizontal_histogram(elements, lo, hi, bins),
            Axis::X => build_vertical_histogram(elements, lo, hi, bins),
        };
        assert(cfg.min_cut_threshold * cfg.histogram_resolution_scale <= 0xffff_ffff
            * 0xffff_ffff) by (nonlinear_arith)
            requires
                cfg.min_cut_threshold <= 0xffff_ffff,
                cfg.histogram_resolution_scale <= 0xffff_ffff,
        ;
        let min_gap: u64 = cfg.min_cut_threshold as u64 * cfg.histogram_resolution_scale as u64
            / 1000;
        if min_gap > bins64 {
            proof {
                let h = histogram(elements@, axis, lo as int, hi as int, bins as nat);
                assert(hist@ == h);
                assert(!exists|a: int, b: int| is_best_gap(h, min_gap as int, a, b));
            }
            return None;
        }
        match find_largest_gap(&hist, min_gap as usize) {
            Some(k) => {
                assert(0 <= k * range <= 0x1_0000_0000_0000_0000 * 0x1_0000_0000)
                    by (nonlinear_arith)
                    requires
                        k <= 0x1_0000_0000_0000_0000,
                        range <= 0x1_0000_0000,
                ;
                assert(k * range < bins * range) by (nonlinear_arith)
                    requires
                        0 <= k < bins,
                        0 < range,
                ;
                proof {
                    vstd::arithmetic::div_mod::lemma_multiply_divide_lt(
                        k * range,
                        bins as int,
                        range as int,
                    );
                    vstd::arithmetic::div_mod::lemma_div_pos_is_pos(k * range, bins as int);
                }
                let off: u128 = k as u128 * range as u128 / bins as u128;
                Some((lo as i64 + off as i64) as i32)
            },
            None => None,
        }
    }

    /// The row cut within `[y_min, y_max]`, if any.
    fn find_horizontal_cut(&self, elements: &[Element], y_min: i32, y_max: i32) -> (r: Option<i32>)
        ensures
            match r {
                Some(c) => find_cut(elements@, Axis::Y, y_min as int, y_max as int, self.config)
                    == Some(c as int) && y_min <= c < y_max,
                None => find_cut(elements@, Axis::Y, y_min as int, y_max as int, self.config) is None,
            },
    {
        self.find_cut_on(elements, Axis::Y, y_min, y_max)
    }

    /// The column cut within `[x_min, x_max]`, if any.
    fn find_vertical_cut(&self, elements: &[Element], x_min: i32, x_max: i32) -> (r: Option<i32>)
        ensures
            match r {
                Some(c) => find_cut(elements@, Axis::X, x_min as int, x_max as int, self.config)
                    == Some(c as int) && x_min <= c < x_max,
                None => find_cut(elements@, Axis::X, x_min as int, x_max as int, self.config) is None,
            },
    {
        self.find_cut_on(elements, Axis::X, x_min, x_max)
    }

    fn split_on(elements: &[Element], axis: Axis, cut: i32) -> (r: (Vec<Element>, Vec<Element>))
        ensures
            r.0@ == side(elements@, axis, cut as int, true),
            r.1@ == side(elements@, axis, cut as int, false),
    {
        let mut before: Vec<Element> = Vec::new();
        let mut after: Vec<Element> = Vec::new();
        let mut i: usize = 0;
        while i < elements.len()
            invariant
                0 <= i <= elements@.len(),
                before@ == side(elements@.take(i as int), axis, cut as int, true),
                after@ == side(elements@.take(i as int), axis, cut as int, false),
            decreases elements@.len() - i,
        {
            proof {
                assert(elements@.take(i + 1).drop_last() =~= elements@.take(i as int));
            }
            let e = elements[i];
            if e.center_of(axis) < cut {
                before.push(e);
            } else {
                after.push(e);
            }
            i = i + 1;
        }
        proof {
            assert(elements@.take(i as int) =~= elements@);
        }
        (before, after)
    }

    /// Splits the elements by vertical center: above the cut, then the rest.
    fn split_horizontal(&self, elements: &[Element], y_cut: i32) -> (r: (Vec<Element>, Vec<Element>))
        ensures
            r.0@ == side(elements@, Axis::Y, y_cut as int, true),
            r.1@ == side(elements@, Axis::Y, y_cut as int, false),
    {
        Self::split_on(elements, Axis::Y, y_cut)
    }

    /// Splits the elements by horizontal center: left of the cut, then the
    /// rest.
    fn split_vertical(&self, elements: &[Element], x_cut: i32) -> (r: (Vec<Element>, Vec<Element>))
        ensures
            r.0@ == side(elements@, Axis::X, x_cut as int, true),
            r.1@ == side(elements@, Axis::X, x_cut as int, false),
    {
        Self::split_on(elements, Axis::X, x_cut)
    }

    /// The summed aspect weights of the cross-layout elements and of the
    /// others: the numerator and denominator of the density ratio.
    fn compute_density_ratio(elements: &[Element]) -> (r: (i128, i128))
        ensures
            r.0 == density(elements@, true),
            r.1 == density(elements@, false),
            -0x1_0000_0000_0000_0000_0000_0000_0000 <= r.0 <= 0x1_0000_0000_0000_0000_0000_0000_0000,
            -0x1_0000_0000_0000_0000_0000_0000_0000 <= r.1 <= 0x1_0000_0000_0000_0000_0000_0000_0000,
    {
        let mut cross: i128 = 0;
        let mut single: i128 = 0;
        let mut i: usize = 0;
        while i < elements.len()
            invariant
                0 <= i <= elements@.len(),
                cross == density(elements@.take(i as int), true),
                single == density(elements@.take(i as int), false),
                -(i * 0x1_0000_0000_0000) <= cross <= i * 0x1_0000_0000_0000,
                -(i * 0x1_0000_0000_0000) <= single <= i * 0x1_0000_0000_0000,
            decreases elements@.len() - i,
        {
            proof {
                assert(elements@.take(i + 1).drop_last() =~= elements@.take(i as int));
            }
            let e = &elements[i];
            let w = e.x2 as i64 - e.x1 as i64;
            let h = e.y2 as i64 - e.y1 as i64;
            if h != 0 {
                let aw: u64 = if w < 0 { (-w) as u64 } else { w as u64 };
                let ah: u64 = if h < 0 { (-h) as u64 } else { h as u64 };
                assert(aw * 65536 <= 0xffff_ffff * 65536) by (nonlinear_arith)
                    requires
                        aw <= 0xffff_ffff,
                ;
                assert((aw * 65536) as int / (ah as int) <= aw * 65536) by (nonlinear_arith)
                    requires
                        ah >= 1,
                        aw >= 0,
                ;
                let q = (aw * 65536 / ah) as i128;
                let weight: i128 = if (w < 0) != (h < 0) { -q } else { q };
                if e.label == SemanticLabel::CrossLayout {
                    cross = cross + weight;
                } else {
                    single = single + weight;
                }
            }
            i = i + 1;
        }
        proof {
            assert(elements@.take(i as int) =~= elements@);
            assert(i * 0x1_0000_0000_0000 <= 0x1_0000_0000_0000_0000_0000_0000_0000)
                by (nonlinear_arith)
                requires
                    i <= 0xffff_ffff_ffff_ffff,
            ;
        }
        (cross, single)
    }

    /// Stable sort of the elements in reading position: by vertical center,
    /// and by horizontal center within a row.
    fn sort_by_position(&self, elements: &[Element]) -> (r: Vec<Element>)
        ensures
            r@ == position_sort(elements@, self.config.same_row_tolerance as int),
    {
        sort_in_reading_position(elements, self.config.same_row_tolerance)
    }

    /// The effective cut on `axis`, with the two sides it makes.
    fn try_cut(&self, elements: &[Element], region: Region, axis: Axis) -> (r: Option<
        (Vec<Element>, Vec<Element>, i32),
    >)
        ensures
            match r {
                Some((a, b, c)) => effective_cut(elements@, region, axis, self.config) == Some(
                    c as int,
                ) && a@ == side(elements@, axis, c as int, true) && b@ == side(
                    elements@,
                    axis,
                    c as int,
                    false,
                ),
                None => effective_cut(elements@, region, axis, self.config) is None,
            },
    {
        let found = match axis {
            Axis::Y => self.find_horizontal_cut(elements, region.y_min, region.y_max),
            Axis::X => self.find_vertical_cut(elements, region.x_min, region.x_max),
        };
        match found {
            Some(c) => {
                let (a, b) = match axis {
                    Axis::Y => self.split_horizontal(elements, c),
                    Axis::X => self.split_vertical(elements, c),
                };
                proof {
                    lemma_side_split(elements@, axis, c as int);
                }
                if a.len() > 0 && b.len() > 0 {
                    Some((a, b, c))
                } else {
                    None
                }
            },
            None => None,
        }
    }

    /// Reading order of the elements within the region by recursive cuts.
    /// The recursion runs on an explicit work stack, so that a deep cut
    /// sequence needs no deep call stack.
    fn recursive_cut<O: Observer>(&self, elements: &[Element], region: Region, observer: &mut O) -> (r:
        Vec<Element>)
        ensures
            r@ == cut_order(elements@, region, self.config),
    {
        let ghost cfg = self.config;
        let mut out: Vec<Element> = Vec::new();
        if elements.len() == 0 {
            return out;
        }
        let mut stack: Vec<Task> = Vec::new();
        stack.push(Task { elements: vstd::slice::slice_to_vec(elements), region });
        proof {
            assert(stack@.drop_last() =~= Seq::<Task>::empty());
            assert(pending(stack@.drop_last(), cfg) == Seq::<Element>::empty());
            assert(pending(stack@, cfg) == cut_order(elements@, region, cfg) + Seq::<
                Element,
            >::empty());
            assert(out@ + pending(stack@, cfg) =~= cut_order(elements@, region, cfg));
        }
        while stack.len() > 0
            invariant
                cfg == self.config,
                out@ + pending(stack@, cfg) == cut_order(elements@, region, cfg),
                forall|k: int| 0 <= k < stack@.len() ==> (#[trigger] stack@[k]).elements@.len() >= 1,
            decreases stack_weight(stack@),
        {
            let ghost st = stack@;
            let task = match stack.pop() {
                Some(t) => t,
                None => {
                    return out;
                },
            };
            assert(task == st.last());
            assert(stack@ == st.drop_last());
            let ghost s = task.elements@;
            let ghost rest = pending(stack@, cfg);
            assert(out@ + pending(st, cfg) == out@ + (cut_order(s, task.region, cfg) + rest));
            if task.elements.len() <= 1 {
                let mut done = task.elements;
                let ghost before = out@;
                out.append(&mut done);
                proof {
                    assert(before + (s + rest) =~= before + s + rest);
                }
            } else {
                let (cross, single) = Self::compute_density_ratio(&task.elements);
                let columns_first = single == 0 || (single > 0 && 10 * cross > 9 * single) || (
                single < 0 && 10 * cross < 9 * single);
                let a1 = if columns_first {
                    Axis::X
                } else {
                    Axis::Y
                };
                let a2 = match a1 {
                    Axis::X => Axis::Y,
                    Axis::Y => Axis::X,
                };
                assert(a1 == first_axis(s));
                assert(a2 == other_axis(a1));
                let mut cut = self.try_cut(&task.elements, task.region, a1);
                let mut axis = a1;
                if cut.is_none() {
                    cut = self.try_cut(&task.elements, task.region, a2);
                    axis = a2;
                }
                match cut {
                    Some((lower, upper, c)) => {
                        proof {
                            lemma_side_split(s, axis, c as int);
                        }
                        observer.cut(axis, c, lower.len(), upper.len());
                        let ghost t1 = cut_order(lower@, task.region.before(axis, c), cfg);
                        let ghost t2 = cut_order(upper@, task.region.from(axis, c), cfg);
                        assert(cut_order(s, task.region, cfg) == t1 + t2);
                        let r_lo = task.region.part_before(axis, c);
                        let r_hi = task.region.part_from(axis, c);
                        let ghost mid = stack@;
                        stack.push(Task { elements: upper, region: r_hi });
                        let ghost mid2 = stack@;
                        stack.push(Task { elements: lower, region: r_lo });
                        proof {
                            assert(stack@.drop_last() == mid2);
                            assert(mid2.drop_last() == mid);
                            assert(stack@.last().elements@ == lower@);
                            assert(mid2.last().elements@ == upper@);
                            assert(pending(mid2, cfg) == t2 + rest);
                            assert(pending(stack@, cfg) == t1 + (t2 + rest));
                            assert(lower@.len() + upper@.len() == s.len());
                            assert(lower@.len() >= 1 && upper@.len() >= 1);
                            assert(stack_weight(mid2) == (2 * upper@.len() - 1) as nat
                                + stack_weight(mid));
                            assert(stack_weight(st) == (2 * s.len() - 1) as nat + stack_weight(
                                mid,
                            ));
                            assert(out@ + (t1 + (t2 + rest)) =~= out@ + ((t1 + t2) + rest));
                            assert(stack_weight(stack@) < stack_weight(st));
                            assert forall|k: int| 0 <= k < stack@.len() implies (
                            #[trigger] stack@[k]).elements@.len() >= 1 by {
                                if k < mid.len() {
                                    assert(stack@[k] == st[k]);
                                }
                            }
                        }
                    },
                    None => {
                        observer.no_cut(task.elements.len());
                        let mut sorted = self.sort_by_position(&task.elements);
                        let ghost before = out@;
                        out.append(&mut sorted);
                        proof {
                            assert(cut_order(s, task.region, cfg) == position_sort(
                                s,
                                cfg.same_row_tolerance as int,
                            ));
                            assert(before + (cut_order(s, task.region, cfg) + rest) =~= before
                                + cut_order(s, task.region, cfg) + rest);
                        }
                    },
                }
            }
        }
        proof {
            assert(out@ + pending(stack@, cfg) =~= out@);
        }
        out
    }
}

fn reads_before_exec(a: &Element, b: &Element, tol: u32) -> (r: bool)
    ensures
        r == reads_before(*a, *b, tol as int),
{
    let dy = a.cy as i64 - b.cy as i64;
    let ady = if dy < 0 { -dy } else { dy };
    if ady < tol as i64 {
        a.cx < b.cx
    } else {
        a.cy < b.cy
    }
}

/// Stable insertion sort in reading position with row tolerance `tol`.
pub fn sort_in_reading_position(elements: &[Element], tol: u32) -> (r: Vec<Element>)
    ensures
        r@ == position_sort(elements@, tol as int),
{
    let ghost t = tol as int;
    let mut out: Vec<Element> = Vec::new();
    let mut i: usize = 0;
    while i < elements.len()
        invariant
            0 <= i <= elements@.len(),
            out@ == position_sort(elements@.take(i as int), t),
            t == tol,
        decreases elements@.len() - i,
    {
        proof {
            assert(elements@.take(i + 1).drop_last() =~= elements@.take(i as int));
        }
        let e = elements[i];
        let ghost r = out@;
        let mut j: usize = out.len();
        proof {
            assert(r.take(j as int) =~= r);
            assert(insert_by_position(r, e, t) + r.skip(j as int) =~= insert_by_position(r, e, t));
        }
        while j > 0 && reads_before_exec(&e, &out[j - 1], tol)
            invariant
                out@ == r,
                0 <= j <= r.len(),
                t == tol,
                insert_by_position(r, e, t) == insert_by_position(r.take(j as int), e, t) + r.skip(
                    j as int,
                ),
            decreases j,
        {
            proof {
                let p = r.take(j as int);
                assert(p.drop_last() =~= r.take(j - 1));
                assert(r.skip(j - 1) =~= seq![r[j - 1]] + r.skip(j as int));
                assert(insert_by_position(p, e, t) == insert_by_position(r.take(j - 1), e, t).push(
                    r[j - 1],
                ));
                assert(insert_by_position(r.take(j - 1), e, t).push(r[j - 1]) + r.skip(j as int)
                    =~= insert_by_position(r.take(j - 1), e, t) + r.skip(j - 1));
            }
            j = j - 1;
        }
        proof {
            let p = r.take(j as int);
            if j == 0 {
                assert(insert_by_position(p, e, t) == seq![e]);
            } else {
                assert(insert_by_position(p, e, t) == p.push(e));
            }
            assert(insert_by_position(p, e, t) + r.skip(j as int) =~= r.insert(j as int, e));
        }
        out.insert(j, e);
        i = i + 1;
    }
    proof {
        assert(elements@.take(i as int) =~= elements@);
    }
    out
}

/// The ids of the elements, in order.
pub open spec fn ids(s: Seq<Element>) -> Seq<usize> {
    s.map_values(|e: Element| e.id)
}

/// The page has positive width and height.
pub open spec fn page_is_valid(page: Region) -> bool {
    page.x_max > page.x_min && page.y_max > page.y_min
}

/// The elements of a valid page in reading order: the regular ones ordered
/// by recursive cuts over the page, with the masked ones folded in.
pub open spec fn ordered_elements(s: Seq<Element>, page: Region, cfg: XYCutConfig) -> Seq<Element> {
    let pw = page.x_max - page.x_min;
    let ph = page.y_max - page.y_min;
    let iso = cfg.isolation_distance as int;
    let regular = select(s, s, pw, ph, iso, false);
    let masked = select(s, s, pw, ph, iso, true);
    merge_masked(
        cut_order(regular, page, cfg),
        masked,
        cfg.same_row_tolerance as int,
        pw,
        cfg.same_column_distance as int,
    )
}

/// Reading order of the ids of `s` on `page`; empty for no elements or an
/// invalid page.
pub open spec fn reading_order(s: Seq<Element>, page: Region, cfg: XYCutConfig) -> Seq<usize> {
    if s.len() == 0 || !page_is_valid(page) {
        Seq::empty()
    } else {
        ids(ordered_elements(s, page, cfg))
    }
}

proof fn lemma_ids_permute(a: Seq<Element>, b: Seq<Element>)
    requires
        a.to_multiset() == b.to_multiset(),
    ensures
        ids(a).to_multiset() == ids(b).to_multiset(),
    decreases a.len(),
{
    broadcast use vstd::multiset::group_multiset_axioms;

    if a.len() == 0 {
        assert(a.to_multiset().len() == 0);
        assert(b.to_multiset().len() == b.len());
        assert(b.len() == 0);
        assert(ids(a) =~= Seq::<usize>::empty());
        assert(ids(b) =~= Seq::<usize>::empty());
    } else {
        let x = a.last();
        assert(a.drop_last().push(x) =~= a);
        assert(a.to_multiset().count(x) > 0);
        assert(b.contains(x));
        let k = choose|k: int| 0 <= k < b.len() && b[k] == x;
        let b2 = b.remove(k);
        vstd::seq_lib::to_multiset_remove(b, k);
        assert(b2.to_multiset() =~= a.drop_last().to_multiset());
        lemma_ids_permute(a.drop_last(), b2);
        assert(ids(a) =~= ids(a.drop_last()).push(x.id));
        assert(ids(b) =~= ids(b2).insert(k, x.id));
    }
}

/// The reading order is a permutation of the input ids: every id occurs as
/// often as in the input, so that with distinct input ids each occurs
/// exactly once. It is empty for no elements or an invalid page.
pub proof fn lemma_reading_order_permutes(s: Seq<Element>, page: Region, cfg: XYCutConfig)
    ensures
        s.len() > 0 && page_is_valid(page) ==> reading_order(s, page, cfg).to_multiset() == ids(
            s,
        ).to_multiset(),
        s.len() > 0 && page_is_valid(page) && unique_ids(s) ==> reading_order(
            s,
            page,
            cfg,
        ).no_duplicates(),
        s.len() == 0 || !page_is_valid(page) ==> reading_order(s, page, cfg) == Seq::<usize>::empty(),
{
    broadcast use vstd::multiset::group_multiset_axioms;

    if s.len() > 0 && page_is_valid(page) {
        let pw = page.x_max - page.x_min;
        let ph = page.y_max - page.y_min;
        let iso = cfg.isolation_distance as int;
        let regular = select(s, s, pw, ph, iso, false);
        let masked = select(s, s, pw, ph, iso, true);
        lemma_partition_exact(s, pw, ph, iso);
        lemma_cut_order_permutes(regular, page, cfg);
        lemma_merge_masked_permutes(
            cut_order(regular, page, cfg),
            masked,
            cfg.same_row_tolerance as int,
            pw,
            cfg.same_column_distance as int,
        );
        let out = ordered_elements(s, page, cfg);
        assert(out.to_multiset() =~= s.to_multiset());
        lemma_ids_permute(out, s);
        if unique_ids(s) {
            assert(ids(s).no_duplicates());
            ids(s).lemma_multiset_has_no_duplicates();
            ids(out).lemma_multiset_has_no_duplicates_conv();
        }
    }
}

/// The reading order depends on the elements, the page and the
/// configuration alone: equal inputs give equal orders.
pub proof fn lemma_reading_order_deterministic(
    s1: Seq<Element>,
    s2: Seq<Element>,
    page1: Region,
    page2: Region,
    cfg1: XYCutConfig,
    cfg2: XYCutConfig,
)
    requires
        s1 == s2,
        page1 == page2,
        cfg1 == cfg2,
    ensures
        reading_order(s1, page1, cfg1) == reading_order(s2, page2, cfg2),
{
}

/// No elements give an empty order, and a single element on a valid page
/// gives its id alone.
pub proof fn lemma_reading_order_small(s: Seq<Element>, page: Region, cfg: XYCutConfig)
    ensures
        s.len() == 0 ==> reading_order(s, page, cfg) == Seq::<usize>::empty(),
        s.len() == 1 && page_is_valid(page) ==> reading_order(s, page, cfg) == seq![s[0].id],
{
    if s.len() == 1 && page_is_valid(page) {
        let e = s[0];
        let pw = page.x_max - page.x_min;
        let ph = page.y_max - page.y_min;
        let iso = cfg.isolation_distance as int;
        let tol = cfg.same_row_tolerance as int;
        let sc = cfg.same_column_distance as int;
        let regular = select(s, s, pw, ph, iso, false);
        let masked = select(s, s, pw, ph, iso, true);
        assert(s.drop_last() =~= Seq::<Element>::empty());
        assert(s.last() == e);
        let base_f = select(s.drop_last(), s, pw, ph, iso, false);
        let base_t = select(s.drop_last(), s, pw, ph, iso, true);
        assert(base_f =~= Seq::<Element>::empty());
        assert(base_t =~= Seq::<Element>::empty());
        if !crate::matching::is_masked(e, s, pw, ph, iso) {
            assert(regular == base_f.push(e));
            assert(masked == base_t);
            assert(regular =~= s);
            assert(insertion_queue(masked, tol) =~= Seq::<Element>::empty()) by {
                assert(forall|p: int| with_priority(masked, p) =~= Seq::<Element>::empty());
                assert(position_sort(Seq::<Element>::empty(), tol) =~= Seq::<Element>::empty());
                assert(queue_upto(masked, tol, 0) =~= Seq::<Element>::empty());
                assert(queue_upto(masked, tol, 1) =~= Seq::<Element>::empty());
                assert(queue_upto(masked, tol, 2) =~= Seq::<Element>::empty());
                assert(queue_upto(masked, tol, 3) =~= Seq::<Element>::empty());
            }
            assert(ordered_elements(s, page, cfg) == s);
        } else {
            assert(masked == base_t.push(e));
            assert(regular == base_f);
            assert(masked =~= s);
            assert(regular =~= Seq::<Element>::empty());
            assert(queue_upto(masked, tol, 0) =~= Seq::<Element>::empty());
            let q = insertion_queue(masked, tol);
            let p = priority(e.label);
            let empty = Seq::<Element>::empty();
            assert(position_sort(empty, tol) =~= empty);
            assert(position_sort(s, tol) =~= s) by {
                assert(insert_by_position(empty, e, tol) =~= seq![e]);
            }
            assert(masked.drop_last() =~= empty);
            assert(masked.last() == e);
            assert(with_priority(empty, 0) == empty);
            assert(with_priority(empty, 1) == empty);
            assert(with_priority(empty, 2) == empty);
            assert(with_priority(empty, 3) == empty);
            assert(with_priority(masked, 0) =~= if p == 0 { s } else { empty });
            assert(with_priority(masked, 1) =~= if p == 1 { s } else { empty });
            assert(with_priority(masked, 2) =~= if p == 2 { s } else { empty });
            assert(with_priority(masked, 3) =~= if p == 3 { s } else { empty });
            assert(queue_upto(masked, tol, 1) =~= if p == 0 { s } else { empty });
            assert(queue_upto(masked, tol, 2) =~= if p <= 1 { s } else { empty });
            assert(queue_upto(masked, tol, 3) =~= if p <= 2 { s } else { empty });
            assert(q =~= s);
            assert(cut_order(regular, page, cfg) =~= empty);
            assert(q.drop_last() =~= empty);
            assert(q.last() == e);
            assert(insert_all(empty, q.drop_last(), pw, sc) == empty);
            assert(insert_all(empty, q, pw, sc) == insert_one(empty, e, pw, sc));
            assert(best_anchor(empty, e) is None);
            assert(first_target(empty, e, is_wide(e, pw), sc, 0) == 0);
            assert(empty.insert(0, e) =~= s);
            assert(ordered_elements(s, page, cfg) == s);
        }
        assert(ids(s) =~= seq![e.id]);
    }
}

/// Two elements in one row, with no effective cut on either axis, are read
/// left to right (in input order where their horizontal centers are equal).
pub proof fn lemma_same_row_pair_left_to_right(
    a: Element,
    b: Element,
    region: Region,
    cfg: XYCutConfig,
)
    requires
        effective_cut(seq![a, b], region, Axis::X, cfg) is None,
        effective_cut(seq![a, b], region, Axis::Y, cfg) is None,
        -(cfg.same_row_tolerance as int) < a.cy - b.cy < cfg.same_row_tolerance,
    ensures
        cut_order(seq![a, b], region, cfg) == if b.cx < a.cx {
            seq![b, a]
        } else {
            seq![a, b]
        },
{
    let s = seq![a, b];
    let tol = cfg.same_row_tolerance as int;
    let empty = Seq::<Element>::empty();
    assert(s.drop_last() =~= seq![a]);
    assert(seq![a].drop_last() =~= empty);
    assert(seq![a].drop_last() =~= empty);
    assert(seq![a].last() == a);
    assert(position_sort(empty, tol) == empty);
    assert(position_sort(seq![a], tol) == insert_by_position(empty, a, tol));
    assert(position_sort(seq![a], tol) =~= seq![a]);
    assert(insert_by_position(empty, b, tol) =~= seq![b]);
    assert(seq![b].push(a) =~= seq![b, a]);
    assert(seq![a].push(b) =~= seq![a, b]);
    assert(cut_order(s, region, cfg) == position_sort(s, tol));
}

impl XYCutPlusPlus {
    /// Folds the masked elements into the order of the regular ones.
    fn merged_masked_elements<O: Observer>(
        &self,
        regular_order: &[Element],
        masked_elements: &[Element],
        page_width: u32,
        observer: &mut O,
    ) -> (r: Vec<Element>)
        ensures
            r@ == merge_masked(
                regular_order@,
                masked_elements@,
                self.config.same_row_tolerance as int,
                page_width as int,
                self.config.same_column_distance as int,
            ),
    {
        merge_masked_into(
            regular_order,
            masked_elements,
            self.config.same_row_tolerance,
            page_width,
            self.config.same_column_distance,
            observer,
        )
    }

    /// Reading order of the ids of the elements on the page
    /// `(x_min, y_min) - (x_max, y_max)`. Empty for no elements or a page
    /// without positive width and height.
    pub fn compute_order(
        &self,
        elements: &[Element],
        x_min: i32,
        y_min: i32,
        x_max: i32,
        y_max: i32,
    ) -> (r: Vec<usize>)
        ensures
            r@ == reading_order(elements@, (Region { x_min, y_min, x_max, y_max }), self.config),
    {
        let mut quiet = NoTrace;
        self.compute_order_observed(elements, x_min, y_min, x_max, y_max, &mut quiet)
    }

    /// `compute_order`, reporting each cut and insertion decision to
    /// `observer`. The order returned is the same whatever the observer does.
    pub fn compute_order_observed<O: Observer>(
        &self,
        elements: &[Element],
        x_min: i32,
        y_min: i32,
        x_max: i32,
        y_max: i32,
        observer: &mut O,
    ) -> (r: Vec<usize>)
        ensures
            r@ == reading_order(elements@, (Region { x_min, y_min, x_max, y_max }), self.config),
    {
        let page = Region { x_min, y_min, x_max, y_max };
        if elements.len() == 0 || x_max <= x_min || y_max <= y_min {
            return Vec::new();
        }
        let page_width = (x_max as i64 - x_min as i64) as u32;
        let page_height = (y_max as i64 - y_min as i64) as u32;
        let partition = partition_by_mask(
            elements,
            page_width,
            page_height,
            self.config.isolation_distance,
        );
        let regular_order = self.recursive_cut(
            partition.regular_elements.as_slice(),
            page,
            observer,
        );
        let ordered = self.merged_masked_elements(
            regular_order.as_slice(),
            partition.masked_elements.as_slice(),
            page_width,
            observer,
        );
        let mut out: Vec<usize> = Vec::new();
        let mut i: usize = 0;
        while i < ordered.len()
            invariant
                0 <= i <= ordered@.len(),
                out@ == ids(ordered@.take(i as int)),
            decreases ordered@.len() - i,
        {
            proof {
                assert(ids(ordered@.take(i + 1)) =~= ids(ordered@.take(i as int)).push(
                    ordered@[i as int].id,
                ));
            }
            out.push(ordered[i].id);
            i = i + 1;
        }
        proof {
            assert(ordered@.take(i as int) =~= ordered@);
        }
        out
    }
}

} // verus!
