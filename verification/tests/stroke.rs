use infinite_canvas::stroke::{smooth_path, Simplifier, SmoothPath};

#[derive(Clone, Copy, Debug, PartialEq)]
struct P {
    x: f64,
    y: f64,
}

fn dist_sq_to_segment(p: P, a: P, b: P) -> f64 {
    let dx = b.x - a.x;
    let dy = b.y - a.y;
    let len_sq = dx * dx + dy * dy;
    if len_sq == 0.0 {
        let ex = p.x - a.x;
        let ey = p.y - a.y;
        return ex * ex + ey * ey;
    }
    let t = ((p.x - a.x) * dx + (p.y - a.y) * dy / len_sq).clamp(0.0, 1.0);
    let cx = a.x + t * dx - p.x;
    let cy = a.y + t * dy - p.y;
    cx * cx + cy * cy
}

/// The recursive formulation of Ramer-Douglas-Peucker.
fn rdp_recursive(points: &[P], epsilon: f64) -> Vec<P> {
    if points.len() < 3 {
        return points.to_vec();
    }
    let eps_sq = epsilon * epsilon;
    let first = points[0];
    let last = *points.last().unwrap();
    let (max_idx, max_dsq) = points[1..points.len() - 1]
        .iter()
        .enumerate()
        .map(|(i, &p)| (i + 1, dist_sq_to_segment(p, first, last)))
        .fold((0, 0.0f64), |(ai, ad), (bi, bd)| if bd > ad { (bi, bd) } else { (ai, ad) });
    if max_dsq > eps_sq {
        let mut left = rdp_recursive(&points[..=max_idx], epsilon);
        let right = rdp_recursive(&points[max_idx..], epsilon);
        left.pop();
        left.extend_from_slice(&right);
        left
    } else {
        vec![first, last]
    }
}

/// The same simplification driven through the library's simplifier.
fn rdp_driven(points: &[P], epsilon: f64) -> Vec<P> {
    let eps_sq = epsilon * epsilon;
    let mut s = Simplifier::new(points.len());
    while let Some((lo, hi)) = s.pending() {
        let (first, last) = (points[lo], points[hi]);
        let (max_idx, max_dsq) = points[lo + 1..hi]
            .iter()
            .enumerate()
            .map(|(i, &p)| (lo + 1 + i, dist_sq_to_segment(p, first, last)))
            .fold((lo, 0.0f64), |(ai, ad), (bi, bd)| if bd > ad { (bi, bd) } else { (ai, ad) });
        s.resolve(if max_dsq > eps_sq { Some(max_idx) } else { None });
    }
    s.into_kept().into_iter().map(|i| points[i]).collect()
}

fn pts(coords: &[(f64, f64)]) -> Vec<P> {
    coords.iter().map(|&(x, y)| P { x, y }).collect()
}

#[test]
fn simplifier_small_counts() {
    assert_eq!(Simplifier::new(0).into_kept(), Vec::<usize>::new());
    assert_eq!(Simplifier::new(1).into_kept(), vec![0]);
    let s = Simplifier::new(2);
    assert_eq!(s.pending(), None);
    assert_eq!(s.into_kept(), vec![0, 1]);
}

#[test]
fn simplifier_no_split_keeps_ends() {
    let mut s = Simplifier::new(6);
    assert_eq!(s.pending(), Some((0, 5)));
    s.resolve(None);
    assert_eq!(s.pending(), None);
    assert_eq!(s.into_kept(), vec![0, 5]);
}

#[test]
fn simplifier_splits_left_first() {
    let mut s = Simplifier::new(7);
    assert_eq!(s.pending(), Some((0, 6)));
    s.resolve(Some(3));
    assert_eq!(s.pending(), Some((0, 3)));
    s.resolve(Some(1));
    // (0, 1) has no interior point; (1, 3) comes next.
    assert_eq!(s.pending(), Some((1, 3)));
    s.resolve(None);
    assert_eq!(s.pending(), Some((3, 6)));
    s.resolve(Some(5));
    assert_eq!(s.pending(), Some((3, 5)));
    s.resolve(None);
    assert_eq!(s.pending(), None);
    assert_eq!(s.into_kept(), vec![0, 1, 3, 5, 6]);
}

#[test]
fn simplifier_ignores_split_outside_run() {
    let mut s = Simplifier::new(5);
    s.resolve(Some(4));
    assert_eq!(s.pending(), None);
    assert_eq!(s.into_kept(), vec![0, 4]);
}

#[test]
fn rdp_vertical_line_collapses() {
    let p = pts(&[(0.0, 0.0), (0.0, 1.0), (0.0, 2.0), (0.0, 3.0)]);
    assert_eq!(rdp_driven(&p, 1.5), pts(&[(0.0, 0.0), (0.0, 3.0)]));
}

#[test]
fn rdp_keeps_far_corner() {
    let p = pts(&[(0.0, 0.0), (0.0, 5.0), (5.0, 5.0)]);
    assert_eq!(rdp_driven(&p, 1.5), p);
}

#[test]
fn rdp_driven_matches_recursive() {
    let shapes: Vec<Vec<P>> = vec![
        pts(&[(0.0, 0.0), (1.0, 3.0), (2.0, -1.0), (4.0, 6.0), (5.0, 0.0), (7.0, 2.5), (9.0, 9.0)]),
        (0..40)
            .map(|i| {
                let t = i as f64 * 0.3;
                P { x: t * 10.0, y: (t * 2.0).sin() * 8.0 }
            })
            .collect(),
        (0..25)
            .map(|i| P { x: (i * i % 17) as f64, y: (i * 7 % 11) as f64 })
            .collect(),
        pts(&[(1.0, 1.0), (1.0, 1.0), (1.0, 1.0)]),
    ];
    for shape in &shapes {
        for eps in [0.0, 0.5, 1.5, 3.0, 10.0] {
            assert_eq!(rdp_driven(shape, eps), rdp_recursive(shape, eps));
        }
    }
}

#[test]
fn smooth_path_plans() {
    assert!(matches!(smooth_path(0), SmoothPath::Nothing));
    assert!(matches!(smooth_path(1), SmoothPath::Nothing));
    assert!(matches!(smooth_path(2), SmoothPath::Line(0, 1)));
    match smooth_path(4) {
        SmoothPath::Curves(segs) => {
            assert_eq!(segs, vec![(0, 0, 1, 2), (0, 1, 2, 3), (1, 2, 3, 3)]);
        }
        _ => panic!("expected curves"),
    }
    match smooth_path(3) {
        SmoothPath::Curves(segs) => assert_eq!(segs, vec![(0, 0, 1, 2), (0, 1, 2, 2)]),
        _ => panic!("expected curves"),
    }
}
