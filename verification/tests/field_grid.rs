use lau_vibe_field::grid::GridShape;
use lau_vibe_field::stencil::{central_span, divergence_points, laplacian_points};

fn zeroed(width: usize, height: usize) -> (GridShape, Vec<f64>) {
    let shape = GridShape::new(width, height);
    (shape, vec![0.0; shape.cell_count()])
}

fn get(shape: &GridShape, cells: &Vec<f64>, x: usize, y: usize) -> f64 {
    shape.read(cells, x, y).unwrap_or(0.0)
}

fn gradient(shape: &GridShape, cells: &Vec<f64>, x: usize, y: usize) -> (f64, f64) {
    let dx = match central_span(x, shape.width) {
        Some((a, b)) => (get(shape, cells, a, y) - get(shape, cells, b, y)) / 2.0,
        None => 0.0,
    };
    let dy = match central_span(y, shape.height) {
        Some((a, b)) => (get(shape, cells, x, a) - get(shape, cells, x, b)) / 2.0,
        None => 0.0,
    };
    (dx, dy)
}

fn laplacian(shape: &GridShape, cells: &Vec<f64>, x: usize, y: usize) -> f64 {
    let p = laplacian_points(x, y);
    let neighbors = get(shape, cells, p[0].0, p[0].1)
        + get(shape, cells, p[1].0, p[1].1)
        + get(shape, cells, p[2].0, p[2].1)
        + get(shape, cells, p[3].0, p[3].1);
    neighbors - 4.0 * get(shape, cells, x, y)
}

#[test]
fn test_get_out_of_bounds_returns_zero() {
    let (shape, cells) = zeroed(3, 3);
    assert_eq!(get(&shape, &cells, 10, 10), 0.0);
}

#[test]
fn write_then_read_gives_the_value() {
    let (shape, mut cells) = zeroed(5, 5);
    shape.write(&mut cells, 2, 3, 42.0);
    assert_eq!(get(&shape, &cells, 2, 3), 42.0);
}

#[test]
fn write_hands_back_the_replaced_value() {
    let (shape, mut cells) = zeroed(5, 5);
    assert_eq!(shape.write(&mut cells, 1, 1, 10.0), Some(0.0));
    assert_eq!(shape.write(&mut cells, 1, 1, 20.0), Some(10.0));
    assert_eq!(get(&shape, &cells, 1, 1), 20.0);
}

#[test]
fn write_outside_changes_nothing() {
    let (shape, mut cells) = zeroed(4, 3);
    let before = cells.clone();
    assert_eq!(shape.write(&mut cells, 4, 0, 1.0), None);
    assert_eq!(shape.write(&mut cells, 0, 3, 1.0), None);
    assert_eq!(cells, before);
}

#[test]
fn write_touches_one_cell_only() {
    let (shape, mut cells) = zeroed(4, 3);
    shape.write(&mut cells, 3, 1, 9.0);
    for y in 0..3 {
        for x in 0..4 {
            let expected = if x == 3 && y == 1 { 9.0 } else { 0.0 };
            assert_eq!(shape.read(&cells, x, y), Some(expected));
        }
    }
}

#[test]
fn index_is_row_major() {
    let shape = GridShape::new(4, 3);
    assert_eq!(shape.cell_count(), 12);
    assert_eq!(shape.index_of(0, 0), Some(0));
    assert_eq!(shape.index_of(3, 0), Some(3));
    assert_eq!(shape.index_of(0, 1), Some(4));
    assert_eq!(shape.index_of(3, 2), Some(11));
    assert_eq!(shape.index_of(4, 0), None);
    assert_eq!(shape.index_of(0, 3), None);
    assert!(shape.contains(3, 2));
    assert!(!shape.contains(4, 2));
}

#[test]
fn empty_grid_holds_nothing() {
    let shape = GridShape::new(0, 0);
    let cells: Vec<f64> = Vec::new();
    assert_eq!(shape.cell_count(), 0);
    assert_eq!(shape.read(&cells, 0, 0), None);
}

#[test]
fn test_gradient_flat_field() {
    let (shape, cells) = zeroed(5, 5);
    let (gx, gy) = gradient(&shape, &cells, 2, 2);
    assert_eq!(gx, 0.0);
    assert_eq!(gy, 0.0);
}

#[test]
fn test_gradient_slope() {
    let (shape, mut cells) = zeroed(5, 5);
    shape.write(&mut cells, 1, 2, 1.0);
    shape.write(&mut cells, 3, 2, 3.0);
    let (gx, _) = gradient(&shape, &cells, 2, 2);
    assert!((gx - 1.0).abs() < 1e-10);
}

#[test]
fn test_gradient_boundary() {
    let (shape, cells) = zeroed(5, 5);
    let (gx, gy) = gradient(&shape, &cells, 0, 0);
    assert_eq!(gx, 0.0);
    assert_eq!(gy, 0.0);
}

#[test]
fn central_span_cases() {
    assert_eq!(central_span(0, 5), None);
    assert_eq!(central_span(1, 5), Some((2, 0)));
    assert_eq!(central_span(3, 5), Some((4, 2)));
    assert_eq!(central_span(4, 5), None);
    assert_eq!(central_span(9, 5), None);
    assert_eq!(central_span(1, 2), None);
}

#[test]
fn test_laplacian_zero_for_flat() {
    let (shape, cells) = zeroed(5, 5);
    assert_eq!(laplacian(&shape, &cells, 2, 2), 0.0);
}

#[test]
fn test_laplacian_peak() {
    let (shape, mut cells) = zeroed(5, 5);
    shape.write(&mut cells, 2, 2, 4.0);
    assert_eq!(laplacian(&shape, &cells, 2, 2), -16.0);
}

#[test]
fn test_laplacian_boundary() {
    let (shape, mut cells) = zeroed(5, 5);
    shape.write(&mut cells, 0, 0, 4.0);
    assert_eq!(laplacian(&shape, &cells, 0, 0), -8.0);
}

#[test]
fn laplacian_points_clamp_at_origin() {
    assert_eq!(laplacian_points(0, 0), [(1, 0), (0, 0), (0, 1), (0, 0)]);
    assert_eq!(laplacian_points(3, 2), [(4, 2), (2, 2), (3, 3), (3, 1)]);
}

#[test]
fn divergence_points_cases() {
    assert_eq!(divergence_points(2, 2), [(3, 2), (1, 2), (2, 1), (2, 3)]);
    assert_eq!(divergence_points(0, 0), [(1, 0), (0, 0), (0, 0), (0, 1)]);
}

#[test]
fn test_divergence_flat() {
    let (shape, cells) = zeroed(5, 5);
    let p = divergence_points(2, 2);
    let (_, gy_right) = gradient(&shape, &cells, p[0].0, p[0].1);
    let (_, gy_left) = gradient(&shape, &cells, p[1].0, p[1].1);
    let (gx_up, _) = gradient(&shape, &cells, p[2].0, p[2].1);
    let (gx_down, _) = gradient(&shape, &cells, p[3].0, p[3].1);
    let d = (gx_down - gx_up) / 2.0 + (gy_right - gy_left) / 2.0;
    assert!(d.abs() < 1e-10);
}
