use cubing::kociemba::{generate_tables, solve};
use cubing::metric::Htm;
use cubing::puzzle::Cube3x3;

fn inverse_of(ix: usize) -> usize {
    match ix % 3 {
        0 => ix + 2,
        1 => ix,
        _ => ix - 2,
    }
}

fn htm(ix: usize) -> Htm {
    Htm::try_from(ix).unwrap()
}

#[test]
pub fn identity_solves_to_empty() {
    let t = generate_tables();
    let sol = solve(vec![], &t.0, &t.2, &t.1, &t.3, None).unwrap();
    assert!(sol.is_empty());
    let sol = solve(vec![], &t.0, &t.2, &t.1, &t.3, Some(0)).unwrap();
    assert!(sol.is_empty());
}

#[test]
pub fn single_turn_solves_to_inverse() {
    let t = generate_tables();
    for ix in [0, 3, 7, 11, 16].iter() {
        let sol = solve(vec![htm(*ix)], &t.0, &t.2, &t.1, &t.3, Some(1)).unwrap();
        assert_eq!(sol, vec![htm(inverse_of(*ix))]);
    }
}

#[test]
pub fn too_tight_bound_reports_no_solution() {
    let t = generate_tables();
    let scramble = vec![Htm::R1, Htm::U1, Htm::F2];
    assert!(solve(scramble.clone(), &t.0, &t.2, &t.1, &t.3, Some(3)).is_some());
    assert!(solve(scramble, &t.0, &t.2, &t.1, &t.3, Some(2)).is_none());
}

#[test]
pub fn solution_restores_the_cube() {
    let t = generate_tables();
    let scramble = vec![Htm::R1, Htm::U3, Htm::B2, Htm::L1, Htm::F1, Htm::D3];
    let cube = Cube3x3::from_slice(scramble.as_slice());
    let sol = cube.kociemba(&t, None).unwrap();
    let finished = cube.apply_seq(&sol);
    assert_eq!(finished, Cube3x3::solved());
}

#[test]
pub fn superflip_within_twenty_two() {
    let t = generate_tables();
    let scramble = vec![
        Htm::U1, Htm::R2, Htm::F1, Htm::B1, Htm::R1, Htm::B2, Htm::R1, Htm::U2, Htm::L1,
        Htm::B2, Htm::R1, Htm::U3, Htm::D3, Htm::R2, Htm::F1, Htm::R3, Htm::L1, Htm::B2,
        Htm::U2, Htm::F2,
    ];
    let cube = Cube3x3::from_slice(scramble.as_slice());
    let sol = cube.kociemba(&t, Some(22)).unwrap();
    assert!(sol.len() >= 20 && sol.len() <= 22);
    assert!(sol[0].to_usize() < 18);
    let finished = cube.apply_seq(&sol);
    assert_eq!(finished, Cube3x3::solved());
}

#[test]
pub fn phase1_corner_pruning_bounds() {
    let t = generate_tables();
    assert_eq!(t.1.corners.lookup(0), 0);
    let mut max = 0u8;
    for c in 0..2187 {
        let d = t.1.corners.lookup(c);
        if d > max {
            max = d;
        }
    }
    assert!(max <= 11);
}

#[test]
pub fn transition_tables_are_closed_under_inverses() {
    let t = generate_tables();
    let inv1: Vec<usize> = (0..18).map(inverse_of).collect();
    assert!(t.0.corners.check_inverses(&inv1));
    assert!(t.0.edges.check_inverses(&inv1));
    assert!(t.0.slice.check_inverses(&inv1));
    let inv2: Vec<usize> = vec![2, 1, 0, 5, 4, 3, 6, 7, 8, 9];
    assert!(t.2.corners.check_inverses(&inv2));
    assert!(t.2.edges.check_inverses(&inv2));
    assert!(t.2.slice.check_inverses(&inv2));
}
