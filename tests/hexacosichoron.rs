use hypersphere::hexacosichoron::make_600_cell;

fn coordinate(level: i8) -> f64 {
    let phi = (1.0 + 5.0f64.sqrt()) / 2.0;
    let magnitude = match level.unsigned_abs() {
        0 => 0.0,
        1 => 1.0 / (2.0 * phi),
        2 => 0.5,
        3 => phi / 2.0,
        _ => 1.0,
    };
    if level < 0 {
        -magnitude
    } else {
        magnitude
    }
}

#[test]
fn the_600_cell_has_120_vertices() {
    assert_eq!(make_600_cell().len(), 120);
}

#[test]
fn axis_and_half_vertices_come_first() {
    let points = make_600_cell();
    let axes: Vec<[i8; 4]> = vec![
        [4, 0, 0, 0],
        [-4, 0, 0, 0],
        [0, 4, 0, 0],
        [0, -4, 0, 0],
        [0, 0, 4, 0],
        [0, 0, -4, 0],
        [0, 0, 0, 4],
        [0, 0, 0, -4],
    ];
    assert_eq!(points[..8].to_vec(), axes);
    assert_eq!(points[8], [2, 2, 2, 2]);
    assert_eq!(points[9], [-2, 2, 2, 2]);
    assert_eq!(points[10], [2, -2, 2, 2]);
    assert_eq!(points[23], [-2, -2, -2, -2]);
}

#[test]
fn golden_vertices_follow_the_even_permutations() {
    let points = make_600_cell();
    // The first even permutation is (0, 1/(2φ), 1/2, φ/2): the zero sits first, so the
    // last coordinate takes the first sign bit.
    assert_eq!(points[24], [0, 1, 2, 3]);
    assert_eq!(points[25], [0, 1, 2, -3]);
    assert_eq!(points[26], [0, -1, 2, 3]);
    assert_eq!(points[28], [0, 1, -2, 3]);
    // The second is (0, 1/2, φ/2, 1/(2φ)).
    assert_eq!(points[32], [0, 2, 3, 1]);
    // The last is (φ/2, 1/2, 1/(2φ), 0), with every sign negative at the end.
    assert_eq!(points[112], [3, 2, 1, 0]);
    assert_eq!(points[119], [-3, -2, -1, 0]);
}

#[test]
fn every_vertex_is_a_unit_vector() {
    for v in make_600_cell() {
        let length: f64 = v.iter().map(|&l| coordinate(l) * coordinate(l)).sum();
        assert!((length - 1.0).abs() < 1e-12, "{:?}", v);
    }
}

#[test]
fn vertices_are_pairwise_distinct() {
    let points = make_600_cell();
    for a in 0..points.len() {
        for b in a + 1..points.len() {
            assert_ne!(points[a], points[b]);
        }
    }
}

#[test]
fn each_vertex_has_twelve_nearest_neighbours() {
    let points = make_600_cell();
    let phi = (1.0 + 5.0f64.sqrt()) / 2.0;
    let edge = 1.0 / phi;
    for a in &points {
        let near = points
            .iter()
            .filter(|b| {
                let d: f64 = (0..4).map(|k| (coordinate(a[k]) - coordinate(b[k])).powi(2)).sum();
                (d.sqrt() - edge).abs() < 1e-9
            })
            .count();
        assert_eq!(near, 12);
    }
}
