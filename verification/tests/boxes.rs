use faceage::boxes::{iou, FaceBox};
use faceage::number::Num;

fn num(x: f64) -> Num {
    Num { bits: x.to_bits() }
}

fn boxed(b: (f64, f64, f64, f64)) -> FaceBox {
    (num(b.0), num(b.1), num(b.2), num(b.3))
}

fn ratio(a: (f64, f64, f64, f64), b: (f64, f64, f64, f64)) -> f64 {
    f64::from_bits(iou(boxed(a), boxed(b)).bits)
}

#[test]
fn overlap_is_the_intersection_over_the_union() {
    let a = (0.0, 0.0, 10.0, 10.0);
    assert!((ratio(a, a) - 1.0).abs() < 1e-12, "a box against itself");
    // Half of each box overlaps: 50 over 150.
    let half = ratio(a, (5.0, 0.0, 10.0, 10.0));
    assert!((half - 1.0 / 3.0).abs() < 1e-12, "{half}");
    assert_eq!(ratio(a, (20.0, 20.0, 10.0, 10.0)), 0.0, "no overlap at all");
    assert_eq!(ratio(a, (0.0, 0.0, 0.0, 10.0)), 0.0, "a degenerate box");
}

/// The same, as the machine computes it.
fn by_machine(a: (f64, f64, f64, f64), b: (f64, f64, f64, f64)) -> f64 {
    let (ax0, ay0, aw, ah) = a;
    let (bx0, by0, bw, bh) = b;
    if aw <= 0.0 || ah <= 0.0 || bw <= 0.0 || bh <= 0.0 {
        return 0.0;
    }
    let overlap = |a0: f64, a1: f64, b0: f64, b1: f64| (a1.min(b1) - a0.max(b0)).max(0.0);
    let iw = overlap(ax0, ax0 + aw, bx0, bx0 + bw);
    let ih = overlap(ay0, ay0 + ah, by0, by0 + bh);
    let inter = iw * ih;
    let union = aw * ah + bw * bh - inter;
    if union <= 0.0 {
        0.0
    } else {
        inter / union
    }
}

#[test]
fn overlaps_are_those_of_the_machine_and_mutual() {
    let mut list: Vec<(f64, f64, f64, f64)> = vec![
        (0.0, 0.0, 1e308, 1e308),
        (-1e308, 0.0, 1e308, 1.0),
        (1e17, 0.0, 1.0, 1.0),
        (-0.0, 0.0, 5e-324, 5e-324),
        (-5.0, 0.0, 5.0, 3.0),
        (0.0, 0.0, -1.0, 3.0),
    ];
    let mut seed: u64 = 7;
    for _ in 0..60 {
        let mut next = || {
            seed = seed.wrapping_mul(6364136223846793005).wrapping_add(1442695040888963407);
            (seed >> 40) as f64 / 1024.0
        };
        list.push((next(), next(), next() / 16.0, next() / 16.0));
    }
    for &a in &list {
        for &b in &list {
            let r = ratio(a, b);
            let m = by_machine(a, b);
            assert!(r == m || (r.is_nan() && m.is_nan()), "{a:?} {b:?}: {r} {m}");
            assert_eq!(iou(boxed(a), boxed(b)), iou(boxed(b), boxed(a)));
        }
    }
    // Boxes that do not touch, along either axis.
    assert_eq!(ratio((0.0, 0.0, 10.0, 10.0), (10.0, 0.0, 10.0, 10.0)), 0.0);
    assert_eq!(ratio((0.0, 0.0, 10.0, 10.0), (0.0, 10.0, 10.0, 10.0)), 0.0);
}

#[test]
fn the_overlap_of_whole_boxes_is_rounded_once() {
    for (w, h) in [(1.0, 1.0), (3.0, 7.0), (417.0, 500.0), (67108864.0, 67108863.0)] {
        let b = (-67108864.0, 12.0, w, h);
        assert_eq!(ratio(b, b), 1.0);
    }
    // 3 by 5 of 7 by 9 and 11 by 13.
    let (a, b) = ((0.0, 0.0, 7.0, 9.0), (4.0, 4.0, 11.0, 13.0));
    assert_eq!(ratio(a, b), 15.0 / (63.0 + 143.0 - 15.0));
}
