use std::cell::{Cell, RefCell};
use std::collections::BTreeSet;

use knipsa::Point64;
use knipsa::broad_phase::{Bounds, LEAF_CAPACITY, boxes_touch_or_overlap64, certify_paths, visit_pairs};

fn check_pairs(boxes: &[Bounds]) {
    let mut expected = BTreeSet::new();
    for (first, &a) in boxes.iter().enumerate() {
        for (second, &b) in boxes.iter().enumerate().skip(first + 1) {
            if boxes_touch_or_overlap64(a, b) {
                expected.insert((first, second));
            }
        }
    }
    let actual = RefCell::new(BTreeSet::new());
    assert_eq!(
        visit_pairs(boxes, &|first: usize, second: usize| {
            assert!(first < second);
            assert!(actual.borrow_mut().insert((first, second)), "duplicate candidate");
            Some(())
        }),
        Some(())
    );
    assert_eq!(actual.into_inner(), expected);
}

#[test]
fn candidates_match_exhaustive_closed_box_intersections() {
    let mut boxes = Vec::new();
    for min_x in -1..=1 {
        for max_x in min_x..=1 {
            for min_y in -1..=1 {
                for max_y in min_y..=1 {
                    boxes.push((min_x, min_y, max_x, max_y));
                }
            }
        }
    }
    check_pairs(&boxes);
    boxes.reverse();
    check_pairs(&boxes);
    for length in 0..=LEAF_CAPACITY + 1 {
        check_pairs(&boxes[..length]);
    }
}

#[test]
fn candidates_match_seeded_random_and_full_range_boxes() {
    let mut seed = 0xe220_a839_7b1d_cdaf_u64;
    let mut coordinate = || {
        seed = seed.wrapping_mul(6_364_136_223_846_793_005).wrapping_add(1);
        i64::try_from(seed % 257).unwrap() - 128
    };
    let mut boxes = (0..256)
        .map(|_| {
            let (a, b, c, d) = (coordinate(), coordinate(), coordinate(), coordinate());
            (a.min(c), b.min(d), a.max(c), b.max(d))
        })
        .collect::<Vec<_>>();
    boxes.extend([
        (i64::MIN, i64::MIN, i64::MAX, i64::MAX),
        (i64::MIN, 0, i64::MIN, 0),
        (i64::MAX, 0, i64::MAX, 0),
        (0, i64::MIN, 0, i64::MAX),
    ]);
    check_pairs(&boxes);
}

#[test]
fn visitor_stops_immediately_on_a_rejected_pair() {
    let boxes = [(0, 0, 1, 1); 64];
    let calls = Cell::new(0);
    assert_eq!(
        visit_pairs(&boxes, &|_: usize, _: usize| {
            calls.set(calls.get() + 1);
            None
        }),
        None
    );
    assert_eq!(calls.get(), 1);
}

#[test]
fn sparse_boxes_are_pruned_on_either_axis() {
    for vertical in [false, true] {
        let boxes = (0..4096)
            .map(|index| {
                if vertical {
                    (-100, index * 3, 100, index * 3 + 1)
                } else {
                    (index * 3, -100, index * 3 + 1, 100)
                }
            })
            .collect::<Vec<_>>();
        assert_eq!(visit_pairs(&boxes, &|_: usize, _: usize| -> Option<()> { panic!("disjoint boxes") }), Some(()));
    }
}

#[test]
fn separated_rings_and_disjoint_collinear_supports_are_certified() {
    let paths = (0..256)
        .map(|index| {
            let x = index * 4;
            vec![Point64::new(x, 0), Point64::new(x + 2, 0), Point64::new(x + 2, 2), Point64::new(x, 2)]
        })
        .collect::<Vec<_>>();
    assert_eq!(certify_paths(&paths), Some(()));
    let concave = vec![
        Point64::new(0, 0),
        Point64::new(4, 0),
        Point64::new(4, 4),
        Point64::new(3, 4),
        Point64::new(3, 1),
        Point64::new(1, 1),
        Point64::new(1, 4),
        Point64::new(0, 4),
    ];
    assert_eq!(certify_paths(&[concave]), Some(()));
}

#[test]
fn crossings_contacts_overlaps_and_uncertain_arithmetic_defer() {
    let paths = [
        vec![Point64::new(0, 0), Point64::new(4, 4), Point64::new(0, 4), Point64::new(4, 0)],
        vec![
            Point64::new(0, 0),
            Point64::new(-4, 3),
            Point64::new(-3, -2),
            Point64::new(0, 0),
            Point64::new(4, -1),
            Point64::new(3, 4),
        ],
        vec![Point64::new(0, 0), Point64::new(4, 0), Point64::new(2, 0), Point64::new(2, 2)],
        vec![
            Point64::new(i64::MIN, i64::MIN),
            Point64::new(i64::MAX, i64::MIN),
            Point64::new(i64::MAX, i64::MAX),
            Point64::new(i64::MIN, i64::MAX),
        ],
    ];
    for path in paths {
        assert_eq!(certify_paths(&[path]), None);
    }
    let a = vec![Point64::new(0, 0), Point64::new(2, 0), Point64::new(0, 2)];
    let b = vec![Point64::new(2, 0), Point64::new(4, 0), Point64::new(2, 2)];
    assert_eq!(certify_paths(&[a, b]), None);
}
