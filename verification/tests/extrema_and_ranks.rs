use lau_vibe_field::extrema::{local_maxima, local_minima};
use lau_vibe_field::grid::GridShape;
use lau_vibe_field::ledger::{deposit_accepted, withdraw_accepted};
use lau_vibe_field::ranks::{extreme_positions, rank_of_bits, ranked_above};

fn ranks(cells: &[f64]) -> Vec<Option<u64>> {
    cells.iter().map(|v| rank_of_bits(v.to_bits())).collect()
}

fn field(width: usize, height: usize) -> (GridShape, Vec<f64>) {
    let shape = GridShape::new(width, height);
    (shape, vec![0.0; shape.cell_count()])
}

#[test]
fn test_local_maxima_single_peak() {
    let (shape, mut cells) = field(5, 5);
    shape.write(&mut cells, 2, 2, 10.0);
    let maxima = local_maxima(&shape, &ranks(&cells));
    assert!(maxima.contains(&(2, 2)));
}

#[test]
fn test_local_maxima_flat_is_all_maxima() {
    let (shape, cells) = field(3, 3);
    let maxima = local_maxima(&shape, &ranks(&cells));
    assert_eq!(maxima.len(), 9);
}

#[test]
fn test_local_minima_single_dip() {
    let (shape, mut cells) = field(5, 5);
    for y in 0..5 {
        for x in 0..5 {
            if !(x == 2 && y == 2) {
                shape.write(&mut cells, x, y, 10.0);
            }
        }
    }
    let minima = local_minima(&shape, &ranks(&cells));
    assert!(minima.contains(&(2, 2)));
}

#[test]
fn single_peak_neighbours_are_not_maxima() {
    let (shape, mut cells) = field(5, 5);
    shape.write(&mut cells, 2, 2, 10.0);
    let maxima = local_maxima(&shape, &ranks(&cells));
    // every cell that does not touch the peak is still a (flat) maximum
    assert_eq!(maxima.len(), 25 - 8);
    assert!(!maxima.contains(&(1, 1)));
    assert!(!maxima.contains(&(3, 2)));
    assert!(maxima.contains(&(0, 0)));
    let minima = local_minima(&shape, &ranks(&cells));
    assert_eq!(minima.len(), 24);
    assert!(!minima.contains(&(2, 2)));
}

#[test]
fn extrema_come_in_row_major_order() {
    let (shape, mut cells) = field(4, 3);
    shape.write(&mut cells, 3, 0, 5.0);
    shape.write(&mut cells, 0, 2, 6.0);
    let maxima = local_maxima(&shape, &ranks(&cells));
    // the peaks, and the zero cells that touch neither peak
    assert_eq!(maxima, vec![(0, 0), (1, 0), (3, 0), (0, 2), (2, 2), (3, 2)]);
}

#[test]
fn negative_values_and_zero_signs() {
    let (shape, mut cells) = field(3, 1);
    shape.write(&mut cells, 0, 0, -0.0);
    shape.write(&mut cells, 1, 0, 0.0);
    shape.write(&mut cells, 2, 0, -3.5);
    let maxima = local_maxima(&shape, &ranks(&cells));
    assert_eq!(maxima, vec![(0, 0), (1, 0)]);
    let minima = local_minima(&shape, &ranks(&cells));
    assert_eq!(minima, vec![(0, 0), (2, 0)]);
}

#[test]
fn nan_compares_with_nothing() {
    let (shape, mut cells) = field(3, 1);
    shape.write(&mut cells, 0, 0, 1.0);
    shape.write(&mut cells, 1, 0, f64::NAN);
    shape.write(&mut cells, 2, 0, 2.0);
    // as with `>` on f64: no cell is disqualified by the NaN, nor the NaN by them
    assert_eq!(local_maxima(&shape, &ranks(&cells)), vec![(0, 0), (1, 0), (2, 0)]);
    assert_eq!(local_minima(&shape, &ranks(&cells)), vec![(0, 0), (1, 0), (2, 0)]);
}

#[test]
fn ranks_follow_number_order() {
    let values = [
        f64::NEG_INFINITY,
        -1e300,
        -2.5,
        -1e-300,
        -0.0,
        0.0,
        1e-310,
        1.0,
        2.5,
        1e300,
        f64::INFINITY,
    ];
    for a in values.iter() {
        for b in values.iter() {
            let ra = rank_of_bits(a.to_bits());
            let rb = rank_of_bits(b.to_bits());
            assert_eq!(ranked_above(ra, rb), a > b, "{} > {}", a, b);
            assert_eq!(ra == rb, a == b, "{} == {}", a, b);
        }
    }
}

#[test]
fn rank_values() {
    assert_eq!(rank_of_bits(0.0f64.to_bits()), Some(0x8000_0000_0000_0000));
    assert_eq!(rank_of_bits((-0.0f64).to_bits()), Some(0x8000_0000_0000_0000));
    assert_eq!(rank_of_bits(1.0f64.to_bits()), Some(0x8000_0000_0000_0000 + 0x3FF0_0000_0000_0000));
    assert_eq!(rank_of_bits((-1.0f64).to_bits()), Some(0x8000_0000_0000_0000 - 0x3FF0_0000_0000_0000));
    assert_eq!(rank_of_bits(f64::NAN.to_bits()), None);
    assert_eq!(rank_of_bits((-f64::NAN).to_bits()), None);
    assert!(!ranked_above(None, Some(0)));
    assert!(!ranked_above(Some(0), None));
}

#[test]
fn extreme_positions_find_first_min_and_max() {
    let values = [3.0, 1.0, f64::NAN, 7.0, 1.0, 7.0];
    let (low, high) = extreme_positions(&ranks(&values));
    assert_eq!(low, Some(1));
    assert_eq!(high, Some(3));
    let (low, high) = extreme_positions(&ranks(&[f64::NAN, f64::NAN]));
    assert_eq!((low, high), (None, None));
    let (low, high) = extreme_positions(&Vec::new());
    assert_eq!((low, high), (None, None));
}

#[test]
fn deposit_refuses_negative_amounts_only() {
    let rank = |v: f64| rank_of_bits(v.to_bits());
    assert!(deposit_accepted(rank(10.0)));
    assert!(deposit_accepted(rank(0.0)));
    assert!(deposit_accepted(rank(-0.0)));
    assert!(!deposit_accepted(rank(-1.0)));
    assert!(!deposit_accepted(rank(f64::NEG_INFINITY)));
    // `NaN < 0.0` is false, so a NaN amount is not refused
    assert!(deposit_accepted(rank(f64::NAN)));
}

#[test]
fn withdraw_needs_enough_energy() {
    let rank = |v: f64| rank_of_bits(v.to_bits());
    assert!(withdraw_accepted(rank(10.0), rank(4.0)));
    assert!(withdraw_accepted(rank(5.0), rank(5.0)));
    assert!(!withdraw_accepted(rank(5.0), rank(10.0)));
    assert!(!withdraw_accepted(rank(5.0), rank(-1.0)));
    assert!(withdraw_accepted(rank(0.0), rank(-0.0)));
}
