use cubing::definitions::{Array, CombinationCoord, OrientationCoord};
use cubing::metric::{corner_move, edge_move, Htm};

#[test]
pub fn phase1_array_cancellation() {
    for ix in (0..18).step_by(3) {
        let x1 = corner_move(ix);
        let x2 = corner_move(ix + 1);
        let x3 = corner_move(ix + 2);
        assert_eq!(
            Array::default(),
            x1.permute(&x3),
            "{:?}: {:?} {:?}",
            Htm::try_from(ix).unwrap(),
            x1,
            x3
        );
        assert_eq!(Array::default(), x3.permute(&x1));
        assert_eq!(Array::default(), x2.permute(&x2));
        assert_eq!(Array::default(), x1.permute(&x1).permute(&x1).permute(&x1));
        assert_eq!(Array::default(), x3.permute(&x3).permute(&x3).permute(&x3));
        assert_eq!(Array::default(), x2.permute(&x1).permute(&x1));
        assert_eq!(Array::default(), x2.permute(&x3).permute(&x3));

        let x1 = edge_move(ix);
        let x2 = edge_move(ix + 1);
        let x3 = edge_move(ix + 2);
        assert_eq!(
            Array::default(),
            x1.permute(&x3),
            "{:?}: {:?} {:?}",
            Htm::try_from(ix).unwrap(),
            x1,
            x3
        );
        assert_eq!(Array::default(), x3.permute(&x1));
        assert_eq!(Array::default(), x2.permute(&x2));
        assert_eq!(Array::default(), x1.permute(&x1).permute(&x1).permute(&x1));
        assert_eq!(Array::default(), x3.permute(&x3).permute(&x3).permute(&x3));
        assert_eq!(Array::default(), x2.permute(&x1).permute(&x1));
        assert_eq!(Array::default(), x2.permute(&x3).permute(&x3));
    }
}

#[test]
pub fn zero_orientations() {
    for ix in (1..18).step_by(3) {
        let co = corner_move(ix).o_coordinate();
        assert_eq!(
            OrientationCoord::default(),
            co,
            "{:?}",
            Htm::try_from(ix).unwrap()
        );

        let eo = edge_move(ix).o_coordinate();
        assert_eq!(
            OrientationCoord::default(),
            eo,
            "{:?}: {:?}",
            Htm::try_from(ix).unwrap(),
            edge_move(ix)
        );
    }

    for ix in 0..18 {
        let array = corner_move(ix);
        assert_eq!(OrientationCoord::default(), array.permute(&array).o_coordinate());

        let array = edge_move(ix);
        assert_eq!(OrientationCoord::default(), array.permute(&array).o_coordinate());
    }
}

#[test]
pub fn zero_combinations() {
    assert_eq!(
        CombinationCoord::try_from(0).unwrap(),
        Array::<12, 2>::new(vec![
            (8, 0),
            (9, 0),
            (10, 0),
            (11, 0),
            (0, 0),
            (1, 0),
            (2, 0),
            (3, 0),
            (4, 0),
            (5, 0),
            (6, 0),
            (7, 0)
        ])
        .c_coordinate::<4>()
    );
}

#[test]
pub fn max_combinations() {
    for ix in (1..18).step_by(3) {
        let cm = edge_move(ix).c_coordinate::<4>();
        assert_eq!(
            CombinationCoord::default(),
            cm,
            "{:?}: {:?}",
            Htm::try_from(ix).unwrap(),
            edge_move(ix)
        );
    }

    for ix in [0, 2, 12, 14].iter() {
        let array = edge_move(*ix);
        assert_eq!(CombinationCoord::default(), array.c_coordinate::<4>(),);
    }

    for ix in [3, 5, 6, 8, 9, 11, 15, 17].iter() {
        let array = edge_move(*ix);
        assert_ne!(
            CombinationCoord::default(),
            array.c_coordinate::<4>(),
            "{:?}: {:?}",
            Htm::try_from(*ix).unwrap(),
            array.c_coordinate::<4>()
        );
    }
}

#[test]
pub fn max_orientations() {
    let array = Array::<8, 3>::create(vec![
        (0, 2),
        (1, 2),
        (2, 2),
        (3, 2),
        (4, 2),
        (5, 2),
        (6, 2),
        (7, 1),
    ])
    .unwrap();
    let coord = OrientationCoord::try_from(2186).unwrap();
    assert_eq!(coord, array.o_coordinate());
    assert_eq!(array, coord.array());

    let array = Array::<12, 2>::create(vec![
        (0, 1),
        (1, 1),
        (2, 1),
        (3, 1),
        (4, 1),
        (5, 1),
        (6, 1),
        (7, 1),
        (8, 1),
        (9, 1),
        (10, 1),
        (11, 1),
    ])
    .unwrap();
    let coord = OrientationCoord::try_from(2047).unwrap();
    assert_eq!(coord, array.o_coordinate());
    assert_eq!(array, coord.array());
}
