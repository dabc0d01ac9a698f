use lau_vibe_field::grid::GridShape;
use lau_vibe_field::neighborhood::neighborhood;

fn field(width: usize, height: usize) -> (GridShape, Vec<f64>) {
    let shape = GridShape::new(width, height);
    (shape, vec![0.0; shape.cell_count()])
}

#[test]
fn test_neighborhood_center() {
    let (shape, mut cells) = field(10, 10);
    shape.write(&mut cells, 5, 5, 1.0);
    let n = neighborhood(&shape, &cells, 5, 5, 1);
    assert_eq!(n.len(), 5);
}

#[test]
fn test_neighborhood_corner() {
    let (shape, cells) = field(10, 10);
    let n = neighborhood(&shape, &cells, 0, 0, 1);
    assert_eq!(n.len(), 3);
}

#[test]
fn test_neighborhood_radius_0() {
    let (shape, mut cells) = field(5, 5);
    shape.write(&mut cells, 2, 2, 5.0);
    let n = neighborhood(&shape, &cells, 2, 2, 0);
    assert_eq!(n.len(), 1);
    assert_eq!(n[0], ((2, 2), 5.0));
}

#[test]
fn neighborhood_order_is_row_major() {
    let (shape, mut cells) = field(10, 10);
    shape.write(&mut cells, 5, 4, 7.0);
    let n = neighborhood(&shape, &cells, 5, 5, 1);
    let coords: Vec<(usize, usize)> = n.iter().map(|e| e.0).collect();
    assert_eq!(coords, vec![(5, 4), (4, 5), (5, 5), (6, 5), (5, 6)]);
    assert_eq!(n[0].1, 7.0);
}

#[test]
fn neighborhood_radius_two_is_a_disc() {
    let (shape, cells) = field(10, 10);
    let n = neighborhood(&shape, &cells, 5, 5, 2);
    // 1 + 3 + 5 + 3 + 1 cells: the corners at distance sqrt(8) and sqrt(5) > 2 stay out
    assert_eq!(n.len(), 13);
    assert!(n.iter().all(|e| {
        let dx = e.0 .0 as i64 - 5;
        let dy = e.0 .1 as i64 - 5;
        dx * dx + dy * dy <= 4
    }));
}

#[test]
fn neighborhood_centre_outside_the_grid() {
    let (shape, cells) = field(3, 3);
    let n = neighborhood(&shape, &cells, 4, 1, 1);
    let coords: Vec<(usize, usize)> = n.iter().map(|e| e.0).collect();
    assert_eq!(coords, Vec::<(usize, usize)>::new());
    let n = neighborhood(&shape, &cells, 3, 1, 1);
    let coords: Vec<(usize, usize)> = n.iter().map(|e| e.0).collect();
    assert_eq!(coords, vec![(2, 1)]);
}
