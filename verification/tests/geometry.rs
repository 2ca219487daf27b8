use interview::geometry::max_points_in_runs;

#[test]
fn test_max_points_in_runs() {
    assert_eq!(2, max_points_in_runs(&vec![(0, 0, 1)]));
    assert_eq!(
        4,
        max_points_in_runs(&vec![
            (0, 0, 1),
            (1, 0, 2),
            (1, 0, 3),
            (1, 2, 3),
            (1, 2, 5),
            (2, 1, 4),
            (3, 4, 5)
        ])
    );
    assert_eq!(
        4,
        max_points_in_runs(&vec![(7, 0, 1), (7, 1, 2), (8, 0, 2), (7, 3, 4), (7, 5, 6)])
    );
    assert_eq!(
        3,
        max_points_in_runs(&vec![(7, 0, 1), (7, 1, 2), (8, 0, 2), (7, 3, 4)])
    );
}

fn max_points_on_line(points: &[(i64, i64)]) -> usize {
    if points.is_empty() {
        return 0;
    }
    if points.len() == 1 {
        return 1;
    }
    let mut slopes: Vec<((f64, f64), usize, usize)> = vec![];
    for (ix1, p1) in points.iter().enumerate() {
        for (ix2, p2) in points.iter().enumerate().skip(ix1 + 1) {
            let slope = (p2.1 - p1.1) as f64 / (p2.0 - p1.0) as f64;
            let y = p1.1 as f64 - (slope * p1.0 as f64);
            slopes.push(((slope, y), ix1, ix2));
        }
    }
    slopes.sort_unstable_by(|(a, _, _), (b, _, _)| a.partial_cmp(b).unwrap());
    let mut lines: Vec<(usize, usize, usize)> = vec![];
    let mut number = 0;
    let mut fst = slopes[0].0;
    for f in slopes {
        if f.0 != fst {
            fst = f.0;
            number += 1;
        }
        lines.push((number, f.1, f.2));
    }
    max_points_in_runs(&lines)
}

#[test]
fn test_max_points_on_line() {
    assert_eq!(0, max_points_on_line(&[]));
    assert_eq!(1, max_points_on_line(&[(1, 1)]));
    assert_eq!(2, max_points_on_line(&[(1, 1), (2, 2)]));
    assert_eq!(
        4,
        max_points_on_line(&[(1, 1), (3, 2), (5, 3), (4, 1), (2, 3), (1, 4)])
    );
    assert_eq!(
        4,
        max_points_on_line(&[(1, 1), (3, 2), (4, 1), (2, 3), (1, 4), (2, 0)])
    );
}
