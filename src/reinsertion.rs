//! Folding masked elements back into the order of the regular ones.
use vstd::prelude::*;
use vstd::multiset::Multiset;
use crate::reading_order::{lemma_position_sort_permutes, position_sort, sort_in_reading_position};
use crate::trace::Observer;
use crate::traits::{label_priority, priority, Element};
use crate::utils::{compute_distance_with_early_exit, early_exit_distance};

verus! {

broadcast use {vstd::seq_lib::group_to_multiset_ensures, vstd::seq_lib::to_multiset_insert};

/// The elements of `s` of priority `p`, in order.
pub open spec fn with_priority(s: Seq<Element>, p: int) -> Seq<Element>
    decreases s.len(),
{
    if s.len() == 0 {
        s
    } else {
        let r = with_priority(s.drop_last(), p);
        if priority(s.last().label) == p {
            r.push(s.last())
        } else {
            r
        }
    }
}

/// The first `p` priority groups of `masked`, each sorted in reading
/// position, one after another.
pub open spec fn queue_upto(masked: Seq<Element>, tol: int, p: int) -> Seq<Element>
    decreases p,
{
    if p <= 0 {
        Seq::empty()
    } else {
        queue_upto(masked, tol, p - 1) + position_sort(with_priority(masked, p - 1), tol)
    }
}

/// The order in which masked elements are placed: by priority, and in
/// reading position within a priority.
pub open spec fn insertion_queue(masked: Seq<Element>, tol: int) -> Seq<Element> {
    queue_upto(masked, tol, 4)
}

pub open spec fn as_bound(b: Option<i128>) -> Option<int> {
    match b {
        Some(v) => Some(v as int),
        None => None,
    }
}

/// Scan of the first `k` positions of `r` for the anchor of `m`: the best
/// distance so far and its position. Anchors of lower priority than `m` are
/// skipped; a candidate replaces the best only with a strictly smaller
/// distance, computed with early exit against the best so far.
pub open spec fn anchor_scan(r: Seq<Element>, m: Element, k: int) -> (Option<int>, Option<int>)
    decreases k,
{
    if k <= 0 {
        (None, None)
    } else {
        let (bd, bp) = anchor_scan(r, m, k - 1);
        let c = r[k - 1];
        if priority(c.label) < priority(m.label) {
            (bd, bp)
        } else {
            let d = early_exit_distance(m, c, bd);
            if bd is None || d < bd->0 {
                (Some(d), Some(k - 1))
            } else {
                (bd, bp)
            }
        }
    }
}

/// Position of the best anchor for `m` in `r`, if any is eligible.
pub open spec fn best_anchor(r: Seq<Element>, m: Element) -> Option<int> {
    anchor_scan(r, m, r.len() as int).1
}

/// Where `m` goes when no anchor is eligible: before `c` if `c`'s center is
/// below `m`'s and, unless `m` is wide, `c`'s left edge is within
/// `same_column` of `m`'s.
pub open spec fn fallback_target(c: Element, m: Element, wide: bool, same_column: int) -> bool {
    let dx = c.x1 - m.x1;
    c.cy > m.cy && (wide || (if dx < 0 { -dx } else { dx }) <= same_column)
}

/// The first position from `i` on whose element is a fallback target, else
/// the end.
pub open spec fn first_target(r: Seq<Element>, m: Element, wide: bool, same_column: int, i: int) -> int
    decreases r.len() - i,
{
    if i >= r.len() {
        r.len() as int
    } else if fallback_target(r[i], m, wide, same_column) {
        i
    } else {
        first_target(r, m, wide, same_column, i + 1)
    }
}

/// `m` is wider than 60% of the page.
pub open spec fn is_wide(m: Element, page_width: int) -> bool {
    10 * m.width() > 6 * page_width
}

/// `r` with `m` inserted before its best anchor, or at the fallback position
/// where no anchor is eligible.
pub open spec fn insert_one(r: Seq<Element>, m: Element, page_width: int, same_column: int) -> Seq<
    Element,
> {
    match best_anchor(r, m) {
        Some(p) => r.insert(p, m),
        None => r.insert(first_target(r, m, is_wide(m, page_width), same_column, 0), m),
    }
}

/// `r` with the elements of `q` inserted one after another.
pub open spec fn insert_all(r: Seq<Element>, q: Seq<Element>, page_width: int, same_column: int) -> Seq<
    Element,
>
    decreases q.len(),
{
    if q.len() == 0 {
        r
    } else {
        insert_one(insert_all(r, q.drop_last(), page_width, same_column), q.last(), page_width, same_column)
    }
}

/// The regular order with the masked elements folded in.
pub open spec fn merge_masked(
    order: Seq<Element>,
    masked: Seq<Element>,
    tol: int,
    page_width: int,
    same_column: int,
) -> Seq<Element> {
    insert_all(order, insertion_queue(masked, tol), page_width, same_column)
}

proof fn lemma_anchor_scan_bounds(r: Seq<Element>, m: Element, k: int)
    requires
        0 <= k <= r.len(),
    ensures
        anchor_scan(r, m, k).1 is Some ==> 0 <= anchor_scan(r, m, k).1->0 < k,
        anchor_scan(r, m, k).1 is Some <==> anchor_scan(r, m, k).0 is Some,
    decreases k,
{
    if k > 0 {
        lemma_anchor_scan_bounds(r, m, k - 1);
    }
}

proof fn lemma_first_target_bounds(r: Seq<Element>, m: Element, wide: bool, same_column: int, i: int)
    requires
        0 <= i <= r.len(),
    ensures
        i <= first_target(r, m, wide, same_column, i) <= r.len(),
    decreases r.len() - i,
{
    if i < r.len() {
        lemma_first_target_bounds(r, m, wide, same_column, i + 1);
    }
}

proof fn lemma_insert_one(r: Seq<Element>, m: Element, page_width: int, same_column: int)
    ensures
        insert_one(r, m, page_width, same_column).to_multiset() == r.to_multiset().insert(m),
{
    lemma_anchor_scan_bounds(r, m, r.len() as int);
    lemma_first_target_bounds(r, m, is_wide(m, page_width), same_column, 0);
}

/// Inserting keeps every element and adds those of the queue.
pub proof fn lemma_insert_all(r: Seq<Element>, q: Seq<Element>, page_width: int, same_column: int)
    ensures
        insert_all(r, q, page_width, same_column).to_multiset() == r.to_multiset().add(
            q.to_multiset(),
        ),
    decreases q.len(),
{
    broadcast use vstd::multiset::group_multiset_axioms;

    if q.len() > 0 {
        lemma_insert_all(r, q.drop_last(), page_width, same_column);
        lemma_insert_one(insert_all(r, q.drop_last(), page_width, same_column), q.last(), page_width, same_column);
        assert(q.drop_last().push(q.last()) =~= q);
        assert(insert_all(r, q, page_width, same_column).to_multiset() =~= r.to_multiset().add(
            q.to_multiset(),
        ));
    } else {
        assert(q.to_multiset() =~= Multiset::empty());
        assert(r.to_multiset().add(q.to_multiset()) =~= r.to_multiset());
    }
}

/// The four priority groups together hold the elements.
proof fn lemma_priority_groups(s: Seq<Element>)
    ensures
        with_priority(s, 0).to_multiset().add(with_priority(s, 1).to_multiset()).add(
            with_priority(s, 2).to_multiset(),
        ).add(with_priority(s, 3).to_multiset()) == s.to_multiset(),
    decreases s.len(),
{
    broadcast use vstd::multiset::group_multiset_axioms;

    if s.len() > 0 {
        lemma_priority_groups(s.drop_last());
        assert(s.drop_last().push(s.last()) =~= s);
        assert(with_priority(s, 0).to_multiset().add(with_priority(s, 1).to_multiset()).add(
            with_priority(s, 2).to_multiset(),
        ).add(with_priority(s, 3).to_multiset()) =~= s.to_multiset());
    } else {
        assert(s.to_multiset() =~= Multiset::empty());
        assert(with_priority(s, 0).to_multiset().add(with_priority(s, 1).to_multiset()).add(
            with_priority(s, 2).to_multiset(),
        ).add(with_priority(s, 3).to_multiset()) =~= s.to_multiset());
    }
}

/// Every masked element is queued once.
pub proof fn lemma_insertion_queue(masked: Seq<Element>, tol: int)
    ensures
        insertion_queue(masked, tol).to_multiset() == masked.to_multiset(),
{
    broadcast use vstd::multiset::group_multiset_axioms;

    lemma_priority_groups(masked);
    let g0 = position_sort(with_priority(masked, 0), tol);
    let g1 = position_sort(with_priority(masked, 1), tol);
    let g2 = position_sort(with_priority(masked, 2), tol);
    let g3 = position_sort(with_priority(masked, 3), tol);
    lemma_position_sort_permutes(with_priority(masked, 0), tol);
    lemma_position_sort_permutes(with_priority(masked, 1), tol);
    lemma_position_sort_permutes(with_priority(masked, 2), tol);
    lemma_position_sort_permutes(with_priority(masked, 3), tol);
    assert(queue_upto(masked, tol, 0) =~= Seq::<Element>::empty());
    assert(queue_upto(masked, tol, 1) =~= g0);
    assert(queue_upto(masked, tol, 2) == g0 + g1);
    assert(queue_upto(masked, tol, 3) == g0 + g1 + g2);
    assert(queue_upto(masked, tol, 4) == g0 + g1 + g2 + g3);
    vstd::seq_lib::lemma_multiset_commutative(g0, g1);
    vstd::seq_lib::lemma_multiset_commutative(g0 + g1, g2);
    vstd::seq_lib::lemma_multiset_commutative(g0 + g1 + g2, g3);
}

/// The merge holds exactly the regular order's and the masked elements.
pub proof fn lemma_merge_masked_permutes(
    order: Seq<Element>,
    masked: Seq<Element>,
    tol: int,
    page_width: int,
    same_column: int,
)
    ensures
        merge_masked(order, masked, tol, page_width, same_column).to_multiset() == order.to_multiset().add(
            masked.to_multiset(),
        ),
{
    lemma_insert_all(order, insertion_queue(masked, tol), page_width, same_column);
    lemma_insertion_queue(masked, tol);
}

/// The masked elements of priority `p`, in input order.
pub fn priority_group(masked: &[Element], p: u8) -> (r: Vec<Element>)
    ensures
        r@ == with_priority(masked@, p as int),
{
    let mut group: Vec<Element> = Vec::new();
    let mut i: usize = 0;
    while i < masked.len()
        invariant
            0 <= i <= masked@.len(),
            group@ == with_priority(masked@.take(i as int), p as int),
        decreases masked@.len() - i,
    {
        proof {
            assert(masked@.take(i + 1).drop_last() =~= masked@.take(i as int));
        }
        if label_priority(masked[i].label) == p {
            group.push(masked[i]);
        }
        i = i + 1;
    }
    proof {
        assert(masked@.take(i as int) =~= masked@);
    }
    group
}

/// Position of the best eligible anchor for `masked` in `result`: the
/// smallest weighted distance, the earliest among equal ones, over the
/// elements whose priority is not below the masked element's.
pub fn find_anchor(result: &[Element], masked: &Element) -> (r: Option<usize>)
    ensures
        match r {
            Some(p) => best_anchor(result@, *masked) == Some(p as int),
            None => best_anchor(result@, *masked) is None,
        },
{
    let masked_priority = label_priority(masked.label);
    let mut best_distance: Option<i128> = None;
    let mut best_position: Option<usize> = None;
    let mut idx: usize = 0;
    while idx < result.len()
        invariant
            0 <= idx <= result@.len(),
            masked_priority == priority(masked.label),
            anchor_scan(result@, *masked, idx as int) == (
                as_bound(best_distance),
                match best_position {
                    Some(p) => Some(p as int),
                    None => None::<int>,
                },
            ),
        decreases result@.len() - idx,
    {
        let candidate = &result[idx];
        if label_priority(candidate.label) >= masked_priority {
            let distance = compute_distance_with_early_exit(masked, candidate, best_distance);
            let better = match best_distance {
                None => true,
                Some(b) => distance < b,
            };
            if better {
                best_distance = Some(distance);
                best_position = Some(idx);
            }
        }
        idx = idx + 1;
    }
    best_position
}

/// Where a masked element without an eligible anchor goes: before the first
/// element whose center is below its own and, unless it is wide, whose left
/// edge is within `same_column` of its own; else at the end.
pub fn fallback_index(result: &[Element], masked: &Element, wide: bool, same_column: u32) -> (r:
    usize)
    ensures
        r == first_target(result@, *masked, wide, same_column as int, 0),
{
    let mut i: usize = 0;
    while i < result.len()
        invariant
            0 <= i <= result@.len(),
            first_target(result@, *masked, wide, same_column as int, 0) == first_target(
                result@,
                *masked,
                wide,
                same_column as int,
                i as int,
            ),
        decreases result@.len() - i,
    {
        let c = &result[i];
        let dx = c.x1 as i64 - masked.x1 as i64;
        let adx = if dx < 0 { -dx } else { dx };
        if c.cy > masked.cy && (wide || adx <= same_column as i64) {
            return i;
        }
        i = i + 1;
    }
    i
}

/// Inserts a masked element before its best anchor, or at the fallback
/// position where no anchor is eligible. Returns the position and whether an
/// anchor was found.
pub fn insert_masked(result: &mut Vec<Element>, masked: Element, page_width: u32, same_column: u32) -> (r:
    (usize, bool))
    ensures
        final(result)@ == insert_one(old(result)@, masked, page_width as int, same_column as int),
        final(result)@ == old(result)@.insert(r.0 as int, masked),
        r.1 <==> best_anchor(old(result)@, masked) is Some,
{
    proof {
        lemma_anchor_scan_bounds(result@, masked, result@.len() as int);
    }
    match find_anchor(result.as_slice(), &masked) {
        Some(p) => {
            result.insert(p, masked);
            (p, true)
        },
        None => {
            let wide = 10 * (masked.x2 as i64 - masked.x1 as i64) > 6 * page_width as i64;
            let p = fallback_index(result.as_slice(), &masked, wide, same_column);
            proof {
                lemma_first_target_bounds(result@, masked, wide, same_column as int, 0);
            }
            result.insert(p, masked);
            (p, false)
        },
    }
}

/// Folds the masked elements into the regular order: by priority group, in
/// reading position within a group, each before its best anchor. Each
/// insertion is reported to `observer`.
pub fn merge_masked_into<O: Observer>(
    regular_order: &[Element],
    masked_elements: &[Element],
    tol: u32,
    page_width: u32,
    same_column: u32,
    observer: &mut O,
) -> (r: Vec<Element>)
    ensures
        r@ == merge_masked(
            regular_order@,
            masked_elements@,
            tol as int,
            page_width as int,
            same_column as int,
        ),
{
    let ghost order = regular_order@;
    let ghost masked = masked_elements@;
    let ghost t = tol as int;
    let ghost pw = page_width as int;
    let ghost sc = same_column as int;
    let mut result: Vec<Element> = vstd::slice::slice_to_vec(regular_order);
    let mut p: u8 = 0;
    proof {
        assert(insert_all(order, queue_upto(masked, t, 0), pw, sc) == order);
    }
    while p < 4
        invariant
            0 <= p <= 4,
            order == regular_order@ && masked == masked_elements@,
            t == tol && pw == page_width && sc == same_column,
            result@ == insert_all(order, queue_upto(masked, t, p as int), pw, sc),
        decreases 4 - p,
    {
        let group = priority_group(masked_elements, p);
        let sorted = sort_in_reading_position(group.as_slice(), tol);
        let ghost q = queue_upto(masked, t, p as int);
        let mut j: usize = 0;
        proof {
            assert(q + sorted@.take(0) =~= q);
        }
        while j < sorted.len()
            invariant
                0 <= j <= sorted@.len(),
                pw == page_width && sc == same_column,
                result@ == insert_all(order, q + sorted@.take(j as int), pw, sc),
            decreases sorted@.len() - j,
        {
            let m = sorted[j];
            proof {
                let x = q + sorted@.take(j + 1);
                assert(x.drop_last() =~= q + sorted@.take(j as int));
                assert(x.last() == m);
            }
            let (position, anchored) = insert_masked(&mut result, m, page_width, same_column);
            observer.insert(m.id, position, anchored);
            j = j + 1;
        }
        proof {
            assert(sorted@.take(j as int) =~= sorted@);
            assert(queue_upto(masked, t, p + 1) == q + position_sort(with_priority(masked, p as int), t));
        }
        p = p + 1;
    }
    result
}

} // verus!
