use ant_colony::tour::path_windows;
use ant_colony::PheromoneMatrix;

#[test]
fn new_matrix_has_initial_value() {
    let pm: PheromoneMatrix<f64> = PheromoneMatrix::new(5, 1.0, 0.1);
    assert_eq!(pm.get(0, 1), 1.0);
}

#[test]
fn set_is_symmetric() {
    let mut pm: PheromoneMatrix<f64> = PheromoneMatrix::new(3, 0.0, 0.1);
    pm.set(0, 2, 3.0);
    assert!((pm.get(2, 0) - 3.0).abs() < 1e-10);
}

#[test]
fn new_matrix_keeps_size_and_rate() {
    let pm = PheromoneMatrix::new(4, 2u64, 7u64);
    assert_eq!(pm.n(), 4);
    assert_eq!(pm.rho(), 7);
    for i in 0..4 {
        for j in 0..4 {
            assert_eq!(pm.get(i, j), 2);
        }
    }
}

#[test]
fn set_touches_only_its_pair() {
    let mut pm = PheromoneMatrix::new(3, 0u64, 0u64);
    pm.set(0, 2, 5);
    for i in 0..3 {
        for j in 0..3 {
            let expected = if (i, j) == (0, 2) || (i, j) == (2, 0) { 5 } else { 0 };
            assert_eq!(pm.get(i, j), expected);
        }
    }
}

#[test]
fn deposit_adds_symmetrically() {
    let mut pm: PheromoneMatrix<f64> = PheromoneMatrix::new(4, 0.0, 0.1);
    for (i, j) in path_windows(&[0, 1, 2]) {
        pm.update_pair(i, j, |v| v + 5.0);
    }
    assert!((pm.get(0, 1) - 5.0).abs() < 1e-10);
    assert!((pm.get(1, 0) - 5.0).abs() < 1e-10);
    assert!((pm.get(1, 2) - 5.0).abs() < 1e-10);
}

#[test]
fn evaporation_reduces_values() {
    let mut pm: PheromoneMatrix<f64> = PheromoneMatrix::new(3, 1.0, 0.5);
    let keep = 1.0 - pm.rho();
    pm.map_cells(|v| v * keep);
    assert!((pm.get(0, 1) - 0.5).abs() < 1e-10);
}

#[test]
fn clamp_limits_values() {
    let mut pm: PheromoneMatrix<f64> = PheromoneMatrix::new(3, 0.0, 0.1);
    pm.set(0, 1, 10.0);
    pm.map_cells(|v: f64| v.clamp(0.1, 5.0));
    assert!((pm.get(0, 1) - 5.0).abs() < 1e-10);
}

#[test]
fn update_pair_applies_to_both_directions() {
    let mut pm: PheromoneMatrix<f64> = PheromoneMatrix::new(4, 0.0, 0.1);
    for (i, j) in path_windows(&[0, 1, 2]) {
        pm.update_pair(i, j, |v| v + 5.0);
    }
    assert!((pm.get(0, 1) - 5.0).abs() < 1e-10);
    assert!((pm.get(1, 0) - 5.0).abs() < 1e-10);
    assert!((pm.get(1, 2) - 5.0).abs() < 1e-10);
    assert!((pm.get(2, 1) - 5.0).abs() < 1e-10);
    assert_eq!(pm.get(0, 2), 0.0);
    assert_eq!(pm.get(3, 3), 0.0);
}

#[test]
fn update_pair_on_the_diagonal_applies_twice() {
    let mut pm = PheromoneMatrix::new(2, 1u64, 0u64);
    pm.update_pair(1, 1, |v| v * 3);
    assert_eq!(pm.get(1, 1), 9);
    assert_eq!(pm.get(0, 0), 1);
    assert_eq!(pm.get(0, 1), 1);
}

#[test]
fn map_cells_applies_to_every_cell() {
    let mut pm: PheromoneMatrix<f64> = PheromoneMatrix::new(3, 1.0, 0.5);
    let keep = 1.0 - pm.rho();
    pm.map_cells(|v| v * keep);
    for i in 0..3 {
        for j in 0..3 {
            assert!((pm.get(i, j) - 0.5).abs() < 1e-10);
        }
    }
}

#[test]
fn map_cells_clamps_levels() {
    let mut pm: PheromoneMatrix<f64> = PheromoneMatrix::new(3, 0.0, 0.1);
    pm.set(0, 1, 10.0);
    pm.map_cells(|v: f64| v.clamp(0.1, 5.0));
    assert!((pm.get(0, 1) - 5.0).abs() < 1e-10);
    assert!((pm.get(1, 0) - 5.0).abs() < 1e-10);
    assert!((pm.get(2, 2) - 0.1).abs() < 1e-10);
}

#[test]
fn empty_matrix() {
    let pm: PheromoneMatrix<f64> = PheromoneMatrix::new(0, 1.0, 0.1);
    assert_eq!(pm.n(), 0);
}
