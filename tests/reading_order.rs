use xycut::histogram::{build_horizontal_histogram, build_vertical_histogram, find_largest_gap};
use xycut::matching::partition_by_mask;
use xycut::reading_order::{XYCutConfig, XYCutPlusPlus};
use xycut::reinsertion::{find_anchor, insert_masked};
use xycut::trace::{TraceEvent, TraceLog};
use xycut::traits::{label_priority, Axis, Element, SemanticLabel};
use xycut::utils::{
    compute_distance_with_early_exit, compute_median_width, count_overlap,
    distance_to_nearest_text,
};

fn block(id: usize, x1: i32, y1: i32, x2: i32, y2: i32) -> Element {
    Element::new(id, x1, y1, x2, y2, SemanticLabel::Regular, false)
}

fn engine() -> XYCutPlusPlus {
    XYCutPlusPlus::new(XYCutConfig::default())
}

#[test]
fn it_works() {}

#[test]
fn default_config_values() {
    let c = XYCutConfig::default();
    assert_eq!(c.min_cut_threshold, 15);
    assert_eq!(c.histogram_resolution_scale, 500);
    assert_eq!(c.same_row_tolerance, 10);
    assert_eq!(c.isolation_distance, 50);
    assert_eq!(c.same_column_distance, 100);
}

#[test]
fn empty_input_gives_empty_order() {
    assert_eq!(engine().compute_order(&[], 0, 0, 100, 100), Vec::<usize>::new());
}

#[test]
fn invalid_page_gives_empty_order() {
    let e = [block(7, 0, 0, 10, 10)];
    assert_eq!(engine().compute_order(&e, 0, 0, 0, 100), Vec::<usize>::new());
    assert_eq!(engine().compute_order(&e, 0, 50, 100, 10), Vec::<usize>::new());
}

#[test]
fn single_element_gives_its_id() {
    let e = [block(42, 10, 10, 50, 50)];
    assert_eq!(engine().compute_order(&e, 0, 0, 100, 100), vec![42]);
    let masked = [Element::new(9, 10, 10, 50, 50, SemanticLabel::Vision, true)];
    assert_eq!(engine().compute_order(&masked, 0, 0, 100, 100), vec![9]);
}

#[test]
fn three_stacked_blocks_read_top_to_bottom() {
    let e = [block(0, 0, 0, 200, 100), block(1, 0, 150, 200, 250), block(2, 0, 300, 200, 400)];
    let config = XYCutConfig { min_cut_threshold: 10, ..XYCutConfig::default() };
    assert_eq!(XYCutPlusPlus::new(config).compute_order(&e, 0, 0, 200, 500), vec![0, 1, 2]);
    let shuffled = [e[2], e[0], e[1]];
    assert_eq!(XYCutPlusPlus::new(config).compute_order(&shuffled, 0, 0, 200, 500), vec![0, 1, 2]);
}

#[test]
fn same_row_elements_read_left_to_right() {
    let e = [block(0, 100, 0, 200, 50), block(1, 0, 0, 100, 50)];
    assert_eq!(engine().compute_order(&e, 0, 0, 200, 50), vec![1, 0]);
}

#[test]
fn cross_layout_title_comes_first() {
    let title = Element::new(0, 100, 0, 900, 50, SemanticLabel::CrossLayout, true);
    let e = [block(1, 0, 100, 450, 900), block(2, 550, 100, 1000, 900), title];
    assert_eq!(engine().compute_order(&e, 0, 0, 1000, 1000), vec![0, 1, 2]);
}

#[test]
fn overlapping_masked_element_goes_before_its_anchor() {
    let figure = Element::new(2, 100, 220, 200, 280, SemanticLabel::Vision, true);
    let e = [block(0, 0, 0, 400, 100), block(1, 0, 200, 400, 300), figure];
    assert_eq!(engine().compute_order(&e, 0, 0, 400, 400), vec![0, 2, 1]);
}

#[test]
fn resolution_scale_does_not_change_cuts() {
    let e = [
        block(0, 0, 0, 400, 100),
        block(1, 600, 0, 1000, 100),
        block(2, 0, 300, 400, 400),
        block(3, 600, 300, 1000, 400),
        block(4, 0, 700, 1000, 800),
    ];
    for scale in [250u32, 500, 1000, 2000] {
        let config = XYCutConfig { histogram_resolution_scale: scale, ..XYCutConfig::default() };
        assert_eq!(
            XYCutPlusPlus::new(config).compute_order(&e, 0, 0, 1000, 1000),
            vec![0, 1, 2, 3, 4],
            "scale {}",
            scale
        );
    }
}

#[test]
fn two_columns_read_column_by_column() {
    let e = [
        block(0, 0, 0, 400, 300),
        block(1, 600, 0, 1000, 300),
        block(2, 0, 320, 400, 600),
        block(3, 600, 320, 1000, 600),
    ];
    let config = XYCutConfig { min_cut_threshold: 100, ..XYCutConfig::default() };
    assert_eq!(XYCutPlusPlus::new(config).compute_order(&e, 0, 0, 1000, 1000), vec![0, 2, 1, 3]);
}

#[test]
fn output_is_a_permutation_of_input_ids() {
    let e = [
        block(10, 0, 0, 300, 40),
        Element::new(11, 0, 60, 1000, 100, SemanticLabel::HorizontalTitle, true),
        block(12, 0, 120, 450, 500),
        block(13, 550, 120, 1000, 500),
        Element::new(14, 500, 520, 700, 700, SemanticLabel::Vision, true),
        block(15, 0, 720, 1000, 900),
    ];
    let mut order = engine().compute_order(&e, 0, 0, 1000, 1000);
    order.sort();
    assert_eq!(order, vec![10, 11, 12, 13, 14, 15]);
}

#[test]
fn label_priorities() {
    assert_eq!(label_priority(SemanticLabel::CrossLayout), 0);
    assert_eq!(label_priority(SemanticLabel::HorizontalTitle), 1);
    assert_eq!(label_priority(SemanticLabel::VerticalTitle), 1);
    assert_eq!(label_priority(SemanticLabel::Vision), 2);
    assert_eq!(label_priority(SemanticLabel::Regular), 3);
}

#[test]
fn element_center_is_floored_midpoint() {
    let e = Element::new(1, -5, -4, 0, 3, SemanticLabel::Regular, false);
    assert_eq!((e.cx, e.cy), (-3, -1));
    let f = Element::with_center(2, (0, 0, 10, 10), (1, 9), SemanticLabel::Vision, true);
    assert_eq!((f.cx, f.cy, f.x2, f.mask), (1, 9, 10, true));
}

#[test]
fn largest_gap_prefers_longest_run() {
    assert_eq!(find_largest_gap(&[1, 0, 0, 1, 0, 0, 0, 1], 2), Some(5));
    assert_eq!(find_largest_gap(&[1, 0, 0, 1, 0, 0, 0, 1], 4), None);
}

#[test]
fn largest_gap_earliest_wins_ties() {
    assert_eq!(find_largest_gap(&[0, 0, 1, 0, 0], 1), Some(1));
}

#[test]
fn largest_gap_trailing_run_and_edges() {
    assert_eq!(find_largest_gap(&[2, 0, 0, 0, 0], 3), Some(3));
    assert_eq!(find_largest_gap(&[], 0), None);
    assert_eq!(find_largest_gap(&[1, 1], 0), None);
    assert_eq!(find_largest_gap(&[0, 1, 0, 0], 3), None);
}

#[test]
fn histograms_count_touching_spans() {
    let e = [block(0, 0, 0, 10, 4), block(1, 5, 2, 20, 8)];
    assert_eq!(build_horizontal_histogram(&e, 0, 10, 5), vec![1, 2, 1, 1, 0]);
    assert_eq!(build_vertical_histogram(&e, 0, 20, 4), vec![1, 2, 1, 1]);
    assert_eq!(build_vertical_histogram(&e, 0, 0, 3), vec![0, 0, 0]);
}

#[test]
fn median_width_is_doubled() {
    let odd = [block(0, 0, 0, 100, 1), block(1, 0, 0, 300, 1), block(2, 0, 0, 200, 1)];
    assert_eq!(compute_median_width(&odd), 400);
    let even = [
        block(0, 0, 0, 500, 1),
        block(1, 0, 0, 100, 1),
        block(2, 0, 0, 300, 1),
        block(3, 0, 0, 200, 1),
    ];
    assert_eq!(compute_median_width(&even), 500);
    assert_eq!(compute_median_width(&[]), 0);
}

#[test]
fn overlap_count_skips_self_and_touching() {
    let e = [
        block(0, 0, 0, 100, 100),
        block(1, 50, 50, 150, 150),
        block(2, 100, 0, 200, 100),
        block(3, 10, 10, 20, 20),
    ];
    assert_eq!(count_overlap(&e[0], &e), 2);
    assert_eq!(count_overlap(&e[2], &e), 1);
}

#[test]
fn nearest_text_distance_is_squared() {
    let me = Element::new(0, 0, 0, 10, 10, SemanticLabel::Vision, true);
    let e = [me, block(1, 13, 14, 20, 20), block(2, 100, 100, 110, 110)];
    assert_eq!(distance_to_nearest_text(&me, &e), Some(9 + 16));
    let masked_only = [me, Element::new(1, 20, 0, 30, 10, SemanticLabel::Vision, true)];
    assert_eq!(distance_to_nearest_text(&me, &masked_only), None);
}

#[test]
fn weighted_distance_exact_value() {
    let m = Element::new(0, 0, 0, 10, 5, SemanticLabel::Vision, true);
    let r = block(1, 20, 30, 40, 50);
    // d = 10: 10*1000*100 + 10*100*min(10, 25) + 10*10*(30 - 0) + 1*20
    assert_eq!(compute_distance_with_early_exit(&m, &r, None), 1_000_000 + 10_000 + 3_000 + 20);
    // the first term alone already exceeds the bound
    assert_eq!(compute_distance_with_early_exit(&m, &r, Some(5)), 1_000_000);
}

#[test]
fn weighted_distance_cross_layout_prefers_above() {
    let m = Element::new(0, 0, 0, 100, 10, SemanticLabel::CrossLayout, true);
    let below = block(1, 0, 20, 50, 30);
    // d = 100: 10*10^6*100 + 10*10^4*(0 + 10) + 1*100*(-10) + 10*0
    assert_eq!(
        compute_distance_with_early_exit(&m, &below, None),
        1_000_000_000 + 1_000_000 - 1_000
    );
}

#[test]
fn partition_masks_flagged_and_wide_overlapping() {
    let wide = block(3, 0, 40, 1000, 60);
    let e = [
        block(0, 0, 0, 200, 50),
        block(1, 300, 0, 500, 50),
        Element::new(2, 0, 100, 100, 200, SemanticLabel::Vision, true),
        wide,
        block(4, 600, 500, 800, 600),
    ];
    let p = partition_by_mask(&e, 1000, 1000, 50);
    let masked: Vec<usize> = p.masked_elements.iter().map(|e| e.id).collect();
    let regular: Vec<usize> = p.regular_elements.iter().map(|e| e.id).collect();
    assert_eq!(masked, vec![2, 3]);
    assert_eq!(regular, vec![0, 1, 4]);
}

#[test]
fn anchor_skips_lower_priority_elements() {
    let anchors = [
        Element::new(0, 0, 0, 100, 100, SemanticLabel::CrossLayout, false),
        block(1, 0, 500, 100, 600),
    ];
    let title = Element::new(2, 0, 0, 100, 50, SemanticLabel::HorizontalTitle, true);
    assert_eq!(find_anchor(&anchors, &title), Some(1));
}

#[test]
fn no_anchor_falls_back_to_position() {
    let mut result = vec![
        Element::new(0, 0, 0, 100, 100, SemanticLabel::CrossLayout, false),
        Element::new(1, 500, 200, 600, 300, SemanticLabel::CrossLayout, false),
        Element::new(2, 0, 400, 100, 500, SemanticLabel::CrossLayout, false),
    ];
    let narrow = Element::new(3, 50, 150, 80, 180, SemanticLabel::Vision, true);
    insert_masked(&mut result, narrow, 1000, 100);
    let ids: Vec<usize> = result.iter().map(|e| e.id).collect();
    assert_eq!(ids, vec![0, 1, 3, 2]);

    let mut result2 = vec![
        Element::new(0, 0, 0, 100, 100, SemanticLabel::CrossLayout, false),
        Element::new(1, 500, 200, 600, 300, SemanticLabel::CrossLayout, false),
    ];
    let wide = Element::new(3, 0, 150, 900, 180, SemanticLabel::Vision, true);
    insert_masked(&mut result2, wide, 1000, 100);
    let ids2: Vec<usize> = result2.iter().map(|e| e.id).collect();
    assert_eq!(ids2, vec![0, 3, 1]);

    let mut empty: Vec<Element> = Vec::new();
    insert_masked(&mut empty, wide, 1000, 100);
    assert_eq!(empty.len(), 1);
}

#[test]
fn observer_sees_cuts_and_insertions() {
    let figure = Element::new(2, 100, 220, 200, 280, SemanticLabel::Vision, true);
    let e = [block(0, 0, 0, 400, 100), block(1, 0, 200, 400, 300), figure];
    let mut log = TraceLog::new();
    let order = engine().compute_order_observed(&e, 0, 0, 400, 400, &mut log);
    assert_eq!(order, engine().compute_order(&e, 0, 0, 400, 400));
    assert_eq!(
        log.events,
        vec![
            TraceEvent::Cut { axis: Axis::Y, coordinate: 150, before: 1, after: 1 },
            TraceEvent::Insert { id: 2, position: 1, anchored: true },
        ]
    );
}

#[test]
fn observer_sees_fallback_sort() {
    let e = [block(0, 100, 0, 200, 50), block(1, 0, 0, 100, 50)];
    let mut log = TraceLog::new();
    let order = engine().compute_order_observed(&e, 0, 0, 200, 50, &mut log);
    assert_eq!(order, vec![1, 0]);
    assert_eq!(log.events, vec![TraceEvent::NoCut { count: 2 }]);
}
