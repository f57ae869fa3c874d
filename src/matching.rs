//! Splitting a page's elements into masked structural elements and
//! regular flowing text.
use vstd::prelude::*;
use crate::traits::Element;
use crate::utils::{
    compute_median_width,
    count_overlap,
    distance_to_nearest_text,
    median_width_doubled,
    nearest_text_distance_sq,
    overlap_count,
};

verus! {

broadcast use {vstd::seq_lib::group_to_multiset_ensures, vstd::seq_lib::to_multiset_insert};

/// The element's center lies within a fifth of the page diagonal from the
/// page center `(page_width / 2, page_height / 2)`.
pub open spec fn is_central(e: Element, page_width: int, page_height: int) -> bool {
    let dx = 2 * e.cx - page_width;
    let dy = 2 * e.cy - page_height;
    25 * (dx * dx + dy * dy) <= 4 * (page_width * page_width + page_height * page_height)
}

/// No unmasked element of `all` with another id lies within
/// `isolation_distance` of `e`.
pub open spec fn is_isolated(e: Element, all: Seq<Element>, isolation_distance: int) -> bool {
    match nearest_text_distance_sq(e, all) {
        Some(d) => d > isolation_distance * isolation_distance,
        None => true,
    }
}

/// `e` is wider than 1.3 times the median width of `all` and overlaps at
/// least two other elements.
pub open spec fn is_cross_layout(e: Element, all: Seq<Element>) -> bool {
    20 * e.width() > 13 * median_width_doubled(all) && overlap_count(e, all) >= 2
}

/// `e`, one of `all`, is set apart from the flowing text.
pub open spec fn is_masked(
    e: Element,
    all: Seq<Element>,
    page_width: int,
    page_height: int,
    isolation_distance: int,
) -> bool {
    e.mask || is_cross_layout(e, all) || (is_central(e, page_width, page_height) && is_isolated(
        e,
        all,
        isolation_distance,
    ) && e.mask)
}

/// The elements of `s`, in order, that are masked (`masked`) or regular
/// (`!masked`) among `all`.
pub open spec fn select(
    s: Seq<Element>,
    all: Seq<Element>,
    page_width: int,
    page_height: int,
    isolation_distance: int,
    masked: bool,
) -> Seq<Element>
    decreases s.len(),
{
    if s.len() == 0 {
        s
    } else {
        let r = select(s.drop_last(), all, page_width, page_height, isolation_distance, masked);
        if is_masked(s.last(), all, page_width, page_height, isolation_distance) == masked {
            r.push(s.last())
        } else {
            r
        }
    }
}

/// The elements split into masked and regular ones, each group in input
/// order.
pub struct MaskPartition {
    pub masked_elements: Vec<Element>,
    pub regular_elements: Vec<Element>,
}

/// Splits the elements of a page of the given size into masked structural
/// elements and regular flowing text, keeping the input order in each group.
pub fn partition_by_mask(
    elements: &[Element],
    page_width: u32,
    page_height: u32,
    isolation_distance: u32,
) -> (r: MaskPartition)
    ensures
        r.masked_elements@ == select(
            elements@,
            elements@,
            page_width as int,
            page_height as int,
            isolation_distance as int,
            true,
        ),
        r.regular_elements@ == select(
            elements@,
            elements@,
            page_width as int,
            page_height as int,
            isolation_distance as int,
            false,
        ),
{
    let ghost all = elements@;
    let ghost pw = page_width as int;
    let ghost ph = page_height as int;
    let ghost iso = isolation_distance as int;
    let mut masked_elements: Vec<Element> = Vec::new();
    let mut regular_elements: Vec<Element> = Vec::new();
    let median2 = compute_median_width(elements);
    let w = page_width as i128;
    let h = page_height as i128;
    assert(0 <= w * w <= 0x1_0000_0000 * 0x1_0000_0000) by (nonlinear_arith)
        requires
            0 <= w <= 0x1_0000_0000,
    ;
    assert(0 <= h * h <= 0x1_0000_0000 * 0x1_0000_0000) by (nonlinear_arith)
        requires
            0 <= h <= 0x1_0000_0000,
    ;
    let diagonal_sq4 = 4 * (w * w + h * h);
    assert(isolation_distance * isolation_distance <= 0x1_0000_0000 * 0x1_0000_0000)
        by (nonlinear_arith)
        requires
            isolation_distance <= 0x1_0000_0000,
    ;
    let iso_sq = isolation_distance as u128 * isolation_distance as u128;
    let mut i: usize = 0;
    while i < elements.len()
        invariant
            all == elements@,
            pw == page_width && ph == page_height && iso == isolation_distance,
            median2 == median_width_doubled(all),
            w == pw && h == ph,
            diagonal_sq4 == 4 * (pw * pw + ph * ph),
            iso_sq == iso * iso,
            0 <= i <= all.len(),
            masked_elements@ == select(all.take(i as int), all, pw, ph, iso, true),
            regular_elements@ == select(all.take(i as int), all, pw, ph, iso, false),
        decreases all.len() - i,
    {
        proof {
            assert(all.take(i + 1).drop_last() =~= all.take(i as int));
        }
        let e = elements[i];
        let width = e.x2 as i64 - e.x1 as i64;
        let overlaps = count_overlap(&e, elements);
        let cross_layout = 20 * width as i128 > 13 * median2 as i128 && overlaps >= 2;
        let dx = 2 * e.cx as i128 - w;
        let dy = 2 * e.cy as i128 - h;
        assert(0 <= dx * dx <= 0x4_0000_0000 * 0x4_0000_0000) by (nonlinear_arith)
            requires
                -0x4_0000_0000 <= dx <= 0x4_0000_0000,
        ;
        assert(0 <= dy * dy <= 0x4_0000_0000 * 0x4_0000_0000) by (nonlinear_arith)
            requires
                -0x4_0000_0000 <= dy <= 0x4_0000_0000,
        ;
        let central = 25 * (dx * dx + dy * dy) <= diagonal_sq4;
        let isolated = match distance_to_nearest_text(&e, elements) {
            Some(d) => d > iso_sq,
            None => true,
        };
        let geometric = central && isolated && e.mask;
        if e.mask || cross_layout || geometric {
            masked_elements.push(e);
        } else {
            regular_elements.push(e);
        }
        i = i + 1;
    }
    proof {
        assert(all.take(i as int) =~= all);
    }
    MaskPartition { masked_elements, regular_elements }
}

/// Each element of a selection is an element of `s` of that kind.
pub proof fn lemma_select_member(
    s: Seq<Element>,
    all: Seq<Element>,
    pw: int,
    ph: int,
    iso: int,
    masked: bool,
    e: Element,
)
    requires
        select(s, all, pw, ph, iso, masked).contains(e),
    ensures
        s.contains(e),
        is_masked(e, all, pw, ph, iso) == masked,
    decreases s.len(),
{
    let r = select(s.drop_last(), all, pw, ph, iso, masked);
    if r.contains(e) {
        lemma_select_member(s.drop_last(), all, pw, ph, iso, masked, e);
        let k = choose|k: int| 0 <= k < s.drop_last().len() && s.drop_last()[k] == e;
        assert(s[k] == e);
    } else {
        assert(is_masked(s.last(), all, pw, ph, iso) == masked);
        assert(e == s.last());
        assert(s[s.len() - 1] == e);
    }
}

/// The masked and the regular group together hold exactly the input
/// elements.
pub proof fn lemma_select_split(s: Seq<Element>, all: Seq<Element>, pw: int, ph: int, iso: int)
    ensures
        select(s, all, pw, ph, iso, true).to_multiset().add(
            select(s, all, pw, ph, iso, false).to_multiset(),
        ) == s.to_multiset(),
    decreases s.len(),
{
    broadcast use vstd::multiset::group_multiset_axioms;

    if s.len() > 0 {
        lemma_select_split(s.drop_last(), all, pw, ph, iso);
        assert(s.drop_last().push(s.last()) =~= s);
        assert(select(s, all, pw, ph, iso, true).to_multiset().add(
            select(s, all, pw, ph, iso, false).to_multiset(),
        ) =~= s.to_multiset());
    }
}

/// The ids of `s` are pairwise distinct.
pub open spec fn unique_ids(s: Seq<Element>) -> bool {
    forall|i: int, j: int| 0 <= i < j < s.len() ==> s[i].id != s[j].id
}

/// The partition is exact: the masked and the regular group together hold
/// the input elements, each as often as the input does, and where the input
/// ids are distinct no id stands in both groups.
pub proof fn lemma_partition_exact(all: Seq<Element>, pw: int, ph: int, iso: int)
    ensures
        select(all, all, pw, ph, iso, true).to_multiset().add(
            select(all, all, pw, ph, iso, false).to_multiset(),
        ) == all.to_multiset(),
        unique_ids(all) ==> forall|a: Element, b: Element|
            select(all, all, pw, ph, iso, true).contains(a) && select(
                all,
                all,
                pw,
                ph,
                iso,
                false,
            ).contains(b) ==> a.id != b.id,
{
    lemma_select_split(all, all, pw, ph, iso);
    if unique_ids(all) {
        assert forall|a: Element, b: Element|
            select(all, all, pw, ph, iso, true).contains(a) && select(
                all,
                all,
                pw,
                ph,
                iso,
                false,
            ).contains(b) implies a.id != b.id by {
            lemma_select_member(all, all, pw, ph, iso, true, a);
            lemma_select_member(all, all, pw, ph, iso, false, b);
            let ia = choose|k: int| 0 <= k < all.len() && all[k] == a;
            let ib = choose|k: int| 0 <= k < all.len() && all[k] == b;
            if ia < ib {
                assert(all[ia].id != all[ib].id);
            } else if ib < ia {
                assert(all[ib].id != all[ia].id);
            }
        }
    }
}

} // verus!
