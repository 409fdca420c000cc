use retinaface_post::anchors::{anchor_centers, AnchorGridCache};
use retinaface_post::fusion::select_candidates;
use retinaface_post::nms::{nms, nms_ordered};
use retinaface_post::ranking::{argsort_desc, score_key};

fn key(x: f32) -> u32 {
    score_key(x.to_bits())
}

fn iou(a: [f32; 4], b: [f32; 4]) -> f32 {
    let w = (a[2].min(b[2]) - a[0].max(b[0])).max(0.0);
    let h = (a[3].min(b[3]) - a[1].max(b[1])).max(0.0);
    let inter = w * h;
    let area = |r: [f32; 4]| (r[2] - r[0]).max(0.0) * (r[3] - r[1]).max(0.0);
    inter / (area(a) + area(b) - inter)
}

fn table(boxes: &[[f32; 4]], thr: f32) -> Vec<Vec<bool>> {
    boxes
        .iter()
        .map(|a| boxes.iter().map(|b| iou(*a, *b) > thr).collect())
        .collect()
}

#[test]
fn anchor_grid_two_by_two() {
    let g = anchor_centers(2, 2, 8, 2);
    assert_eq!(g.len(), 8);
    assert_eq!(
        g,
        vec![(0, 0), (0, 0), (8, 0), (8, 0), (0, 8), (0, 8), (8, 8), (8, 8)]
    );
}

#[test]
fn anchor_grid_rectangular_and_empty() {
    let g = anchor_centers(3, 1, 16, 1);
    assert_eq!(g, vec![(0, 0), (16, 0), (32, 0)]);
    assert!(anchor_centers(0, 5, 8, 2).is_empty());
    assert!(anchor_centers(4, 4, 8, 0).is_empty());
    let big = anchor_centers(80, 80, 8, 2);
    assert_eq!(big.len(), 12800);
    assert_eq!(big[12799], (632, 632));
    assert_eq!(big[161], (0, 8));
}

#[test]
fn anchor_cache_reads_through() {
    let mut c = AnchorGridCache::new();
    let a = c.get(2, 2, 8, 2);
    let b = c.get(2, 2, 8, 2);
    let d = c.get(2, 2, 16, 2);
    assert_eq!(a, anchor_centers(2, 2, 8, 2));
    assert_eq!(a, b);
    assert_eq!(d, anchor_centers(2, 2, 16, 2));
    assert_eq!(d[2], (16, 0));
}

#[test]
fn score_keys_follow_score_order() {
    assert!(key(0.9) > key(0.8));
    assert!(key(0.0) > key(-0.5));
    assert!(key(-0.5) > key(-2.0));
    assert!(key(1.0) > key(f32::MIN_POSITIVE));
    assert_eq!(key(-0.0), key(0.0));
    assert_eq!(score_key(0), 0x8000_0000);
    assert_eq!(score_key(0xffff_ffff), 0);
    assert_eq!(key(f32::NAN), 0);
    assert_eq!(score_key(0x7fc0_0001), 0);
    assert!(key(f32::NEG_INFINITY) > 0);
    assert!(key(f32::INFINITY) > key(f32::MAX));
}

#[test]
fn argsort_descending_with_ties_by_index() {
    let keys = vec![key(0.5), key(0.9), key(0.5), key(0.1), key(0.9)];
    assert_eq!(argsort_desc(&keys), vec![1, 4, 0, 2, 3]);
    assert!(argsort_desc(&vec![]).is_empty());
}

#[test]
fn selection_keeps_stride_then_row_order() {
    let t = key(0.5);
    let keys = vec![
        vec![key(0.6), key(0.1), key(0.5)],
        vec![],
        vec![key(0.2), key(0.99)],
    ];
    assert_eq!(select_candidates(&keys, t), vec![(0, 0), (0, 2), (2, 1)]);
}

#[test]
fn raising_threshold_never_adds_candidates() {
    let keys = vec![
        vec![key(0.6), key(0.1), key(0.5), key(0.7)],
        vec![key(0.3), key(0.55)],
    ];
    let mut last = usize::MAX;
    for t in [0.0f32, 0.2, 0.5, 0.55, 0.65, 0.8, 1.0] {
        let n = select_candidates(&keys, key(t)).len();
        assert!(n <= last);
        last = n;
    }
    assert_eq!(select_candidates(&keys, key(0.5)).len(), 4);
    assert_eq!(select_candidates(&keys, key(0.6)).len(), 2);
}

#[test]
fn all_scores_below_threshold_gives_nothing() {
    let keys = vec![vec![key(0.1), key(0.2)], vec![key(0.3)], vec![key(0.0)]];
    let c = select_candidates(&keys, key(0.5));
    assert!(c.is_empty());
    assert!(nms(&vec![], &vec![]).is_empty());
}

#[test]
fn nms_removes_overlapping_lower_score() {
    let boxes = [[0.0, 0.0, 10.0, 10.0], [1.0, 1.0, 11.0, 11.0]];
    assert!(iou(boxes[0], boxes[1]) > 0.5);
    let sup = table(&boxes, 0.5);
    assert_eq!(nms(&vec![key(0.9), key(0.8)], &sup), vec![0]);
    assert_eq!(nms(&vec![key(0.8), key(0.9)], &sup), vec![1]);
}

#[test]
fn nms_keeps_boxes_below_threshold() {
    let boxes = [[0.0, 0.0, 10.0, 10.0], [8.0, 8.0, 18.0, 18.0]];
    let sup = table(&boxes, 0.5);
    assert_eq!(nms(&vec![key(0.9), key(0.8)], &sup), vec![0, 1]);
    assert_eq!(nms(&vec![key(0.3), key(0.8)], &sup), vec![1, 0]);
}

#[test]
fn nms_chain_is_greedy() {
    // 0 overlaps 1 and 1 overlaps 2, 0 and 2 do not overlap.
    let boxes = [
        [0.0, 0.0, 10.0, 10.0],
        [2.0, 0.0, 12.0, 10.0],
        [4.0, 0.0, 14.0, 10.0],
    ];
    let sup = table(&boxes, 0.5);
    assert!(!sup[0][2] && sup[0][1] && sup[1][2]);
    assert_eq!(nms(&vec![key(0.9), key(0.8), key(0.7)], &sup), vec![0, 2]);
    assert_eq!(nms(&vec![key(0.7), key(0.9), key(0.8)], &sup), vec![1]);
}

#[test]
fn nms_twice_returns_the_same() {
    let boxes = [
        [0.0, 0.0, 10.0, 10.0],
        [1.0, 1.0, 11.0, 11.0],
        [20.0, 20.0, 30.0, 30.0],
        [21.0, 20.0, 31.0, 30.0],
        [50.0, 50.0, 60.0, 60.0],
    ];
    let sup = table(&boxes, 0.4);
    let keys = vec![key(0.6), key(0.9), key(0.7), key(0.75), key(0.2)];
    let once = nms(&keys, &sup);
    assert_eq!(once, vec![1, 3, 4]);
    assert_eq!(nms_ordered(&once, &sup), once);
}

#[test]
fn nms_degenerate_box_is_kept() {
    let boxes = [[0.0, 0.0, 10.0, 10.0], [5.0, 5.0, 5.0, 5.0], [6.0, 6.0, 2.0, 2.0]];
    let sup = table(&boxes, 0.5);
    assert_eq!(nms(&vec![key(0.9), key(0.8), key(0.7)], &sup), vec![0, 1, 2]);
}
