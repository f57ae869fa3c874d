//! Geometric measures: overlaps, distances, the median width and the
//! weighted anchor distance.
use vstd::prelude::*;
use crate::traits::{Element, SemanticLabel};

verus! {

broadcast use {vstd::seq_lib::group_to_multiset_ensures, vstd::seq_lib::to_multiset_insert};

/// The two boxes overlap on both axes.
pub open spec fn boxes_overlap(a: Element, b: Element) -> bool {
    a.x1 < b.x2 && a.x2 > b.x1 && a.y1 < b.y2 && a.y2 > b.y1
}

/// How many elements of `s`, other than those with `e`'s id, overlap `e`.
pub open spec fn overlap_count(e: Element, s: Seq<Element>) -> nat
    decreases s.len(),
{
    if s.len() == 0 {
        0
    } else {
        overlap_count(e, s.drop_last()) + if s.last().id != e.id && boxes_overlap(e, s.last()) {
            1nat
        } else {
            0nat
        }
    }
}

/// Counts the elements (other than the element itself, by id) whose boxes
/// overlap the element's box on both axes.
pub fn count_overlap(element: &Element, all_elements: &[Element]) -> (r: usize)
    ensures
        r == overlap_count(*element, all_elements@),
{
    let mut count: usize = 0;
    let mut i: usize = 0;
    while i < all_elements.len()
        invariant
            0 <= i <= all_elements@.len(),
            count == overlap_count(*element, all_elements@.take(i as int)),
            count <= i,
        decreases all_elements@.len() - i,
    {
        let other = &all_elements[i];
        proof {
            assert(all_elements@.take(i + 1).drop_last() =~= all_elements@.take(i as int));
        }
        if other.id != element.id && element.x1 < other.x2 && element.x2 > other.x1
            && element.y1 < other.y2 && element.y2 > other.y1 {
            count = count + 1;
        }
        i = i + 1;
    }
    proof {
        assert(all_elements@.take(i as int) =~= all_elements@);
    }
    count
}

/// Gap between the spans `[a1, a2]` and `[b1, b2]` on one axis; zero where
/// they touch or overlap.
pub open spec fn axis_gap(a1: int, a2: int, b1: int, b2: int) -> int {
    if a2 < b1 {
        b1 - a2
    } else if a1 > b2 {
        a1 - b2
    } else {
        0
    }
}

fn gap_on_axis(a1: i32, a2: i32, b1: i32, b2: i32) -> (r: i64)
    ensures
        r == axis_gap(a1 as int, a2 as int, b1 as int, b2 as int),
        0 <= r < 0x1_0000_0000,
{
    if a2 < b1 {
        b1 as i64 - a2 as i64
    } else if a1 > b2 {
        a1 as i64 - b2 as i64
    } else {
        0
    }
}

/// Squared distance between the boxes of `a` and `b`.
pub open spec fn box_distance_sq(a: Element, b: Element) -> int {
    let dx = axis_gap(a.x1 as int, a.x2 as int, b.x1 as int, b.x2 as int);
    let dy = axis_gap(a.y1 as int, a.y2 as int, b.y1 as int, b.y2 as int);
    dx * dx + dy * dy
}

/// Squared distance from `e` to the nearest unmasked element of `s` with
/// another id; `None` where there is none.
pub open spec fn nearest_text_distance_sq(e: Element, s: Seq<Element>) -> Option<int>
    decreases s.len(),
{
    if s.len() == 0 {
        None
    } else {
        let rest = nearest_text_distance_sq(e, s.drop_last());
        let o = s.last();
        if o.id == e.id || o.mask {
            rest
        } else {
            let d = box_distance_sq(e, o);
            match rest {
                None => Some(d),
                Some(r) => Some(if d < r { d } else { r }),
            }
        }
    }
}

/// Squared distance from the element's box to the nearest box of an unmasked
/// element with another id; `None` where there is no such element.
pub fn distance_to_nearest_text(element: &Element, all_elements: &[Element]) -> (r: Option<u128>)
    ensures
        r == (match nearest_text_distance_sq(*element, all_elements@) {
            Some(d) => Some(d as u128),
            None => None::<u128>,
        }),
        r is Some ==> r->0 == nearest_text_distance_sq(*element, all_elements@)->0,
{
    let mut best: Option<u128> = None;
    let mut i: usize = 0;
    while i < all_elements.len()
        invariant
            0 <= i <= all_elements@.len(),
            best is None <==> nearest_text_distance_sq(*element, all_elements@.take(i as int))
                is None,
            best is Some ==> best->0 == nearest_text_distance_sq(
                *element,
                all_elements@.take(i as int),
            )->0,
        decreases all_elements@.len() - i,
    {
        let other = &all_elements[i];
        proof {
            assert(all_elements@.take(i + 1).drop_last() =~= all_elements@.take(i as int));
        }
        if other.id != element.id && !other.mask {
            let dx = gap_on_axis(element.x1, element.x2, other.x1, other.x2);
            let dy = gap_on_axis(element.y1, element.y2, other.y1, other.y2);
            assert(dx * dx <= 0x1_0000_0000 * 0x1_0000_0000) by (nonlinear_arith)
                requires
                    0 <= dx < 0x1_0000_0000,
            ;
            assert(dy * dy <= 0x1_0000_0000 * 0x1_0000_0000) by (nonlinear_arith)
                requires
                    0 <= dy < 0x1_0000_0000,
            ;
            let d = (dx as u128) * (dx as u128) + (dy as u128) * (dy as u128);
            match best {
                None => {
                    best = Some(d);
                },
                Some(b) => {
                    if d < b {
                        best = Some(d);
                    }
                },
            }
        }
        i = i + 1;
    }
    proof {
        assert(all_elements@.take(i as int) =~= all_elements@);
    }
    best
}

/// The widths of the elements, in order.
pub open spec fn widths(s: Seq<Element>) -> Seq<int> {
    s.map_values(|e: Element| e.width())
}

/// Twice the median width: twice the middle width for an odd count, the sum
/// of the two middle widths for an even one, zero for no elements.
pub open spec fn median_width_doubled(s: Seq<Element>) -> int {
    let w = widths(s).sort();
    let n = w.len() as int;
    if n == 0 {
        0
    } else if n % 2 == 1 {
        2 * w[n / 2]
    } else {
        w[n / 2 - 1] + w[n / 2]
    }
}

pub open spec fn ascending(s: Seq<int>) -> bool {
    forall|i: int, j: int| 0 <= i < j < s.len() ==> s[i] <= s[j]
}

spec fn as_ints(s: Seq<i64>) -> Seq<int> {
    s.map_values(|x: i64| x as int)
}

/// Two ascending sequences that hold the same values are equal.
pub proof fn lemma_ascending_unique(a: Seq<int>, b: Seq<int>)
    requires
        ascending(a),
        ascending(b),
        a.to_multiset() == b.to_multiset(),
    ensures
        a == b,
    decreases a.len(),
{
    assert(a.len() == a.to_multiset().len());
    assert(b.len() == b.to_multiset().len());
    if a.len() > 0 {
        assert(a.contains(a[0]));
        assert(b.to_multiset().count(a[0]) > 0);
        assert(b.contains(a[0]));
        assert(b.contains(b[0]));
        assert(a.to_multiset().count(b[0]) > 0);
        assert(a.contains(b[0]));
        assert(a[0] == b[0]);
        vstd::seq_lib::to_multiset_remove(a, 0);
        vstd::seq_lib::to_multiset_remove(b, 0);
        assert(a.remove(0) =~= a.drop_first());
        assert(b.remove(0) =~= b.drop_first());
        lemma_ascending_unique(a.drop_first(), b.drop_first());
        assert forall|k: int| 0 <= k < a.len() implies a[k] == b[k] by {
            if k > 0 {
                assert(a[k] == a.drop_first()[k - 1]);
                assert(b[k] == b.drop_first()[k - 1]);
            }
        }
        assert(a =~= b);
    }
}

/// Twice the median of the element widths (zero for no elements), so that
/// the median of an even count, the mean of its two middle widths, stays
/// exact.
pub fn compute_median_width(elements: &[Element]) -> (r: i64)
    ensures
        r == median_width_doubled(elements@),
{
    let mut sorted: Vec<i64> = Vec::new();
    let mut i: usize = 0;
    while i < elements.len()
        invariant
            0 <= i <= elements@.len(),
            sorted@.len() == i,
            ascending(as_ints(sorted@)),
            as_ints(sorted@).to_multiset() == widths(elements@.take(i as int)).to_multiset(),
            forall|k: int| 0 <= k < sorted@.len() ==> -0x1_0000_0000 < #[trigger] sorted@[k]
                < 0x1_0000_0000,
        decreases elements@.len() - i,
    {
        let w = elements[i].x2 as i64 - elements[i].x1 as i64;
        let mut p: usize = 0;
        while p < sorted.len() && sorted[p] <= w
            invariant
                0 <= p <= sorted@.len(),
                forall|k: int| 0 <= k < p ==> sorted@[k] <= w,
            decreases sorted@.len() - p,
        {
            p = p + 1;
        }
        let ghost before = sorted@;
        sorted.insert(p, w);
        proof {
            assert forall|k: int| p <= k < before.len() implies w < before[k] by {
                assert(w < before[p as int]);
                assert(as_ints(before)[p as int] <= as_ints(before)[k]);
            }
            assert forall|a: int, b: int| 0 <= a < b < sorted@.len() implies as_ints(sorted@)[a]
                <= as_ints(sorted@)[b] by {
                if b < p {
                    assert(as_ints(before)[a] <= as_ints(before)[b]);
                } else if a > p {
                    assert(as_ints(before)[a - 1] <= as_ints(before)[b - 1]);
                } else if a < p && b > p {
                    assert(as_ints(before)[a] <= as_ints(before)[b - 1]);
                }
            }
            assert(as_ints(sorted@) =~= as_ints(before).insert(p as int, w as int));
            assert(widths(elements@.take(i + 1)) =~= widths(elements@.take(i as int)).push(
                w as int,
            ));
            assert(as_ints(sorted@) =~= as_ints(before).insert(p as int, w as int));
        }
        i = i + 1;
    }
    proof {
        assert(elements@.take(i as int) =~= elements@);
        widths(elements@).lemma_sort_ensures();
        let ws = widths(elements@).sort();
        assert(ascending(ws)) by {
            let leq = |x: int, y: int| x <= y;
            assert(vstd::relations::sorted_by(ws, leq));
            assert forall|a: int, b: int| 0 <= a < b < ws.len() implies ws[a] <= ws[b] by {
                assert(leq(ws[a], ws[b]));
            }
        }
        lemma_ascending_unique(as_ints(sorted@), ws);
    }
    let n = sorted.len();
    if n == 0 {
        0
    } else if n % 2 == 1 {
        2 * sorted[n / 2]
    } else {
        sorted[n / 2 - 1] + sorted[n / 2]
    }
}

/// The masked element's larger dimension, at least one unit.
pub open spec fn size_scale(m: Element) -> int {
    let d = if m.width() > m.height() { m.width() } else { m.height() };
    if d < 1 { 1 } else { d }
}

/// Ten times the label multipliers of the four distance weights.
pub open spec fn label_multipliers(m: Element) -> (int, int, int, int) {
    match m.label {
        SemanticLabel::CrossLayout => (10, 10, 1, 10),
        SemanticLabel::HorizontalTitle | SemanticLabel::VerticalTitle => {
            if m.width() > m.height() {
                (10, 1, 1, 10)
            } else {
                (2, 1, 10, 10)
            }
        },
        _ => (10, 10, 10, 1),
    }
}

/// Intersection component: 0 where the boxes overlap, else 100.
pub open spec fn phi_overlap(m: Element, r: Element) -> int {
    if boxes_overlap(m, r) { 0 } else { 100 }
}

/// Boundary component: the sum of the axis gaps for a cross-layout element,
/// their minimum for any other.
pub open spec fn phi_boundary(m: Element, r: Element) -> int {
    let dx = axis_gap(m.x1 as int, m.x2 as int, r.x1 as int, r.x2 as int);
    let dy = axis_gap(m.y1 as int, m.y2 as int, r.y1 as int, r.y2 as int);
    if m.label == SemanticLabel::CrossLayout {
        dx + dy
    } else if dx < dy {
        dx
    } else {
        dy
    }
}

/// Vertical continuity component.
pub open spec fn phi_vertical(m: Element, r: Element) -> int {
    if m.label == SemanticLabel::CrossLayout {
        if m.y1 > r.y2 { m.y1 - r.y2 } else { -m.y2 }
    } else {
        if r.y1 >= m.y2 { r.y1 - m.y1 } else { (m.y2 - r.y1) * 10 }
    }
}

/// The four weighted distance terms from masked element `m` to anchor `r`.
///
/// With `d` the size scale, the weights are `d^2, d, 1, 1/d` times the label
/// multipliers; every term here is that weighted term times `10 * d`, a
/// positive factor fixed by `m`, so that all of them are integers and the
/// distances to the anchors of one masked element compare as before.
pub open spec fn distance_terms(m: Element, r: Element) -> (int, int, int, int) {
    let d = size_scale(m);
    let (a, b, c, e) = label_multipliers(m);
    (
        a * (d * d * d) * phi_overlap(m, r),
        b * (d * d) * phi_boundary(m, r),
        c * d * phi_vertical(m, r),
        e * r.x1,
    )
}

pub open spec fn exceeds(partial: int, best: Option<int>) -> bool {
    best is Some && partial > best->0
}

/// The distance with early exit: the partial sum after the first term that
/// makes it exceed `best`, else the full sum. `None` stands for no bound.
pub open spec fn early_exit_distance(m: Element, r: Element, best: Option<int>) -> int {
    let (t1, t2, t3, t4) = distance_terms(m, r);
    if exceeds(t1, best) {
        t1
    } else if exceeds(t1 + t2, best) {
        t1 + t2
    } else if exceeds(t1 + t2 + t3, best) {
        t1 + t2 + t3
    } else {
        t1 + t2 + t3 + t4
    }
}

fn scale_and_multipliers(m: &Element) -> (r: (i128, i128, i128, i128, i128))
    ensures
        r.0 == size_scale(*m),
        1 <= r.0 <= 0x1_0000_0000,
        (r.1 as int, r.2 as int, r.3 as int, r.4 as int) == label_multipliers(*m),
        0 <= r.1 <= 10 && 0 <= r.2 <= 10 && 0 <= r.3 <= 10 && 0 <= r.4 <= 10,
{
    let mw = m.x2 as i64 - m.x1 as i64;
    let mh = m.y2 as i64 - m.y1 as i64;
    let mut d: i128 = if mw > mh { mw as i128 } else { mh as i128 };
    if d < 1 {
        d = 1;
    }
    let (a, b, c, e): (i128, i128, i128, i128) = match m.label {
        SemanticLabel::CrossLayout => (10, 10, 1, 10),
        SemanticLabel::HorizontalTitle | SemanticLabel::VerticalTitle => {
            if mw > mh {
                (10, 1, 1, 10)
            } else {
                (2, 1, 10, 10)
            }
        },
        _ => (10, 10, 10, 1),
    };
    (d, a, b, c, e)
}

fn overlap_term(m: &Element, r: &Element, d: i128, a: i128) -> (t: i128)
    requires
        1 <= d <= 0x1_0000_0000,
        0 <= a <= 10,
    ensures
        t == a * (d * d * d) * phi_overlap(*m, *r),
        0 <= t <= 0x1000_0000_0000_0000_0000_0000_0000,
{
    let phi1: i128 = if m.x1 < r.x2 && m.x2 > r.x1 && m.y1 < r.y2 && m.y2 > r.y1 {
        0
    } else {
        100
    };
    assert(0 <= a * (d * d * d) * phi1 <= 0x1000_0000_0000_0000_0000_0000_0000)
        by (nonlinear_arith)
        requires
            0 <= a <= 10,
            1 <= d <= 0x1_0000_0000,
            0 <= phi1 <= 100,
    {
        assert(d * d <= 0x1_0000_0000 * 0x1_0000_0000);
        assert(d * d * d <= 0x1_0000_0000 * 0x1_0000_0000 * 0x1_0000_0000);
        assert(a * (d * d * d) <= 10 * (0x1_0000_0000 * 0x1_0000_0000 * 0x1_0000_0000));
    }
    assert(1 <= d * d <= 0x1_0000_0000 * 0x1_0000_0000) by (nonlinear_arith)
        requires
            1 <= d <= 0x1_0000_0000,
    ;
    let d2 = d * d;
    assert(1 <= d2 * d <= 0x1_0000_0000 * 0x1_0000_0000 * 0x1_0000_0000) by (nonlinear_arith)
        requires
            1 <= d <= 0x1_0000_0000,
            1 <= d2 <= 0x1_0000_0000 * 0x1_0000_0000,
    ;
    let d3 = d2 * d;
    assert(0 <= a * d3 <= 10 * 0x1_0000_0000 * 0x1_0000_0000 * 0x1_0000_0000) by (nonlinear_arith)
        requires
            0 <= a <= 10,
            1 <= d3 <= 0x1_0000_0000 * 0x1_0000_0000 * 0x1_0000_0000,
    ;
    let ad3 = a * d3;
    ad3 * phi1
}

fn boundary_term(m: &Element, r: &Element, d: i128, b: i128) -> (t: i128)
    requires
        1 <= d <= 0x1_0000_0000,
        0 <= b <= 10,
    ensures
        t == b * (d * d) * phi_boundary(*m, *r),
        0 <= t <= 0x1000_0000_0000_0000_0000_0000_0000,
{
    let dx = gap_on_axis(m.x1, m.x2, r.x1, r.x2);
    let dy = gap_on_axis(m.y1, m.y2, r.y1, r.y2);
    let phi2: i128 = if m.label == SemanticLabel::CrossLayout {
        (dx + dy) as i128
    } else if dx < dy {
        dx as i128
    } else {
        dy as i128
    };
    assert(0 <= b * (d * d) * phi2 <= 0x1000_0000_0000_0000_0000_0000_0000) by (nonlinear_arith)
        requires
            0 <= b <= 10,
            1 <= d <= 0x1_0000_0000,
            0 <= phi2 <= 0x2_0000_0000,
    {
        assert(d * d <= 0x1_0000_0000 * 0x1_0000_0000);
        assert(b * (d * d) <= 10 * (0x1_0000_0000 * 0x1_0000_0000));
    }
    assert(1 <= d * d <= 0x1_0000_0000 * 0x1_0000_0000) by (nonlinear_arith)
        requires
            1 <= d <= 0x1_0000_0000,
    ;
    let d2 = d * d;
    assert(0 <= b * d2 <= 10 * 0x1_0000_0000 * 0x1_0000_0000) by (nonlinear_arith)
        requires
            0 <= b <= 10,
            1 <= d2 <= 0x1_0000_0000 * 0x1_0000_0000,
    ;
    let bd2 = b * d2;
    bd2 * phi2
}

fn vertical_term(m: &Element, r: &Element, d: i128, c: i128) -> (t: i128)
    requires
        1 <= d <= 0x1_0000_0000,
        0 <= c <= 10,
    ensures
        t == c * d * phi_vertical(*m, *r),
        -0x1000_0000_0000_0000_0000_0000_0000 <= t <= 0x1000_0000_0000_0000_0000_0000_0000,
{
    let phi3: i128 = if m.label == SemanticLabel::CrossLayout {
        if m.y1 > r.y2 {
            m.y1 as i128 - r.y2 as i128
        } else {
            -(m.y2 as i128)
        }
    } else {
        if r.y1 >= m.y2 {
            r.y1 as i128 - m.y1 as i128
        } else {
            (m.y2 as i128 - r.y1 as i128) * 10
        }
    };
    assert(-0x1000_0000_0000_0000_0000_0000_0000 <= c * d * phi3
        <= 0x1000_0000_0000_0000_0000_0000_0000) by (nonlinear_arith)
        requires
            0 <= c <= 10,
            1 <= d <= 0x1_0000_0000,
            -0x10_0000_0000 <= phi3 <= 0x10_0000_0000,
    {
        assert(0 <= c * d <= 10 * 0x1_0000_0000);
    }
    assert(0 <= c * d <= 10 * 0x1_0000_0000) by (nonlinear_arith)
        requires
            0 <= c <= 10,
            1 <= d <= 0x1_0000_0000,
    ;
    let cd = c * d;
    cd * phi3
}

/// Weighted four-component distance from a masked element to a candidate
/// anchor, in the scaled units of `distance_terms`. It stops adding terms as
/// soon as the partial sum exceeds `current_best` (`None`: no bound yet).
pub fn compute_distance_with_early_exit(
    masked: &Element,
    regular: &Element,
    current_best: Option<i128>,
) -> (r: i128)
    ensures
        r == early_exit_distance(
            *masked,
            *regular,
            match current_best {
                Some(b) => Some(b as int),
                None => None::<int>,
            },
        ),
{
    let (d, a, b, c, e) = scale_and_multipliers(masked);
    let t1 = overlap_term(masked, regular, d, a);
    if let Some(best_value) = current_best {
        if t1 > best_value {
            return t1;
        }
    }
    let t2 = boundary_term(masked, regular, d, b);
    if let Some(best_value) = current_best {
        if t1 + t2 > best_value {
            return t1 + t2;
        }
    }
    let t3 = vertical_term(masked, regular, d, c);
    if let Some(best_value) = current_best {
        if t1 + t2 + t3 > best_value {
            return t1 + t2 + t3;
        }
    }
    assert(-10 * 0x8000_0000 <= e * regular.x1 <= 10 * 0x8000_0000) by (nonlinear_arith)
        requires
            0 <= e <= 10,
            -0x8000_0000 <= regular.x1 < 0x8000_0000,
    ;
    let t4 = e * regular.x1 as i128;
    t1 + t2 + t3 + t4
}

} // verus!
