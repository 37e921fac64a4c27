use cubing::permutations::{Coordinate, PermutationArray};
use cubing::rubiks::{CornerCube, CornerCubeMoveTable};

fn corner_moves() -> Vec<PermutationArray<8>> {
    vec![
        PermutationArray::new(vec![3, 0, 1, 2, 4, 5, 6, 7]), // U
        PermutationArray::new(vec![2, 3, 0, 1, 4, 5, 6, 7]), // U2
        PermutationArray::new(vec![1, 2, 3, 0, 4, 5, 6, 7]), // U'
        PermutationArray::new(vec![4, 1, 2, 0, 7, 5, 6, 3]), // R
        PermutationArray::new(vec![7, 1, 2, 4, 3, 5, 6, 0]), // R2
        PermutationArray::new(vec![3, 1, 2, 7, 0, 5, 6, 4]), // R'
    ]
}

#[test]
pub fn permutation_array_cancellation() {
    let moves = corner_moves();
    let x = moves[0].permute(&moves[2]);
    assert_eq!(PermutationArray::<8>::identity(), x);

    let x = moves[2].permute(&moves[0]);
    assert_eq!(PermutationArray::<8>::identity(), x);

    let x = moves[1].permute(&moves[1]);
    assert_eq!(PermutationArray::<8>::identity(), x);

    let x = moves[0].permute(&moves[0]).permute(&moves[0]).permute(&moves[0]);
    assert_eq!(PermutationArray::<8>::identity(), x);

    let x = moves[2].permute(&moves[2]).permute(&moves[2]).permute(&moves[2]);
    assert_eq!(PermutationArray::<8>::identity(), x);

    let x = moves[1].permute(&moves[0]).permute(&moves[0]);
    assert_eq!(PermutationArray::<8>::identity(), x);

    let x = moves[3].permute(&moves[5]);
    assert_eq!(PermutationArray::<8>::identity(), x);

    let x = moves[5].permute(&moves[3]);
    assert_eq!(PermutationArray::<8>::identity(), x);

    let x = moves[4].permute(&moves[4]);
    assert_eq!(PermutationArray::<8>::identity(), x);

    let x = moves[3].permute(&moves[3]).permute(&moves[3]).permute(&moves[3]);
    assert_eq!(PermutationArray::<8>::identity(), x);

    let x = moves[5].permute(&moves[5]).permute(&moves[5]).permute(&moves[5]);
    assert_eq!(PermutationArray::<8>::identity(), x);

    let x = moves[4].permute(&moves[3]).permute(&moves[3]);
    assert_eq!(PermutationArray::<8>::identity(), x);
}

#[test]
pub fn rubiks_coordinate_cancellation() {
    let moves = corner_moves();
    let move_table = CornerCubeMoveTable::new(&moves);
    let cubes: Vec<CornerCube> = moves
        .iter()
        .map(|m| CornerCube::new(m.coordinate()))
        .collect();
    let solved = CornerCube::new(PermutationArray::identity().coordinate());

    let x = move_table.apply(cubes[0], 2);
    assert_eq!(solved, x);

    let x = move_table.apply(cubes[1], 1);
    assert_eq!(solved, x);

    let x = move_table.apply(cubes[2], 0);
    assert_eq!(solved, x);

    let x = move_table.apply(cubes[3], 5);
    assert_eq!(solved, x);

    let x = move_table.apply(cubes[4], 4);
    assert_eq!(solved, x);

    let x = move_table.apply(cubes[5], 3);
    assert_eq!(solved, x);
}

#[test]
pub fn permutation_identity() {
    for turn in corner_moves().iter() {
        assert_eq!(*turn, turn.permute(&PermutationArray::<8>::identity()));
        assert_eq!(*turn, PermutationArray::<8>::identity().permute(turn));
    }
}

#[test]
pub fn coordinate_inversion() {
    assert_eq!(
        PermutationArray::<8>::identity(),
        PermutationArray::<8>::identity().coordinate().permutation_array()
    );

    for m in corner_moves().iter() {
        assert_eq!(m, &m.coordinate().permutation_array());
    }
}

#[test]
pub fn specific_coordinates() {
    let perm: PermutationArray<8> = PermutationArray::new(vec![0, 1, 2, 3, 4, 5, 6, 7]);
    let coord = Coordinate::try_from(0).unwrap();
    assert_eq!(coord, perm.coordinate());

    let perm: PermutationArray<8> = PermutationArray::new(vec![7, 6, 5, 4, 3, 2, 1, 0]);
    let coord = Coordinate::try_from(40319).unwrap();
    assert_eq!(coord, perm.coordinate());
}
