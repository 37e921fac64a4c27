use cubing::definitions::{Array, CombinationCoord, Coordinate, CreationError, OrientationCoord,
    PermutationCoord};
use cubing::metric::{corner_move, edge_move};

#[test]
pub fn identity_combination_is_the_maximum() {
    let identity = Array::<12, 2>::default();
    let coord = identity.c_coordinate::<4>();
    assert_eq!(CombinationCoord::try_from(494).unwrap(), coord);
    assert_eq!(CombinationCoord::<12, 4>::bound(), 495);
}

#[test]
pub fn orientation_coordinates_round_trip() {
    for c in 0..2187usize {
        let coord = OrientationCoord::<8, 3>::try_from(c).unwrap();
        assert_eq!(coord, coord.array().o_coordinate());
    }
}

#[test]
pub fn permutation_coordinates_round_trip() {
    for c in 0..5040usize {
        let coord = PermutationCoord::<7>::try_from(c).unwrap();
        assert_eq!(coord, coord.array::<1>().p_coordinate());
    }
}

#[test]
pub fn combination_coordinates_round_trip() {
    for c in 0..495usize {
        let coord = CombinationCoord::<12, 4>::try_from(c).unwrap();
        assert_eq!(coord, coord.array::<1>().c_coordinate::<4>());
    }
}

#[test]
pub fn creation_rejects_bad_input() {
    let bad_orientation =
        Array::<4, 2>::create(vec![(0, 0), (1, 2), (2, 0), (3, 0)]);
    assert_eq!(bad_orientation.unwrap_err(), CreationError::InvalidOrientation);
    let bad_permutation =
        Array::<4, 2>::create(vec![(0, 0), (0, 1), (2, 0), (3, 0)]);
    assert_eq!(bad_permutation.unwrap_err(), CreationError::InvalidPermutation);
    assert!(Array::<4, 2>::create(vec![(0, 0), (1, 1), (2, 0), (3, 0)]).is_ok());
}

#[test]
pub fn reachable_arrays_survive_a_full_coordinate_round_trip() {
    let mut corners = Array::<8, 3>::default();
    let mut edges = Array::<12, 2>::default();
    for ix in [0usize, 3, 6, 9, 12, 15, 4, 8].iter() {
        corners = corners.permute(&corner_move(*ix));
        edges = edges.permute(&edge_move(*ix));
    }
    // a reachable array keeps its orientation sum at zero, so decoding its
    // full coordinate restores it exactly
    assert_eq!(corners, corners.coordinate().array());
    assert_eq!(edges, edges.coordinate().array());
}

#[test]
pub fn creation_reports_the_first_offending_position() {
    // the duplicate at position 0 is found before the bad orientation at
    // position 2: the scan walks position by position
    let r = Array::<3, 2>::create(vec![(0, 0), (0, 0), (2, 2)]);
    assert_eq!(r.unwrap_err(), CreationError::InvalidPermutation);
    // at one position the orientation is examined first
    let r = Array::<3, 2>::create(vec![(0, 2), (0, 0), (1, 0)]);
    assert_eq!(r.unwrap_err(), CreationError::InvalidOrientation);
}

#[test]
pub fn pair_coordinates_round_trip_through_their_index() {
    for v in [0usize, 1, 2186, 2187, 88179839].iter() {
        let c: Coordinate<8, 3> = Coordinate::try_from(*v).unwrap();
        assert_eq!(c.index(), *v);
    }
    assert!(Coordinate::<8, 3>::try_from(88179840).is_none());
}
