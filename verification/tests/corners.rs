use cubing::corners::{Cube, Table};
use cubing::definitions::Array;
use cubing::metric::corner_move;

#[test]
pub fn corners_array_cancellation() {
    for (x, y) in [(0, 2), (2, 0), (1, 1), (3, 5), (5, 3), (4, 4)].iter() {
        assert_eq!(Array::<8, 3>::default(), corner_move(*x).permute(&corner_move(*y)));
    }
}

#[test]
pub fn coordinate_inverses() {
    for ix in 0..9 {
        let m = corner_move(ix);
        assert_eq!(m, m.coordinate().array());
    }
}

#[test]
pub fn corners_coordinate_cancellation() {
    let table = Table::new();

    for (x, y) in [(2, 0), (2, 0), (1, 1), (3, 5), (5, 3), (4, 4)].iter() {
        assert_eq!(
            Cube::default(),
            table.lookup(Cube::new(corner_move(*x).coordinate()), *y),
            "{} {}",
            x,
            y
        );
    }
}
