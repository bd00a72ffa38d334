use algs::board::{generate_all_boards_of_size, Board};

#[test]
fn goal_testing_works_correctly() {
    assert!(Board::new(vec![1, 2, 3, 0]).is_goal());
    assert!(Board::new(vec![0]).is_goal());

    assert!(!Board::new(vec![1, 3, 2, 0]).is_goal());
    assert!(!Board::new(vec![0, 1, 2, 3]).is_goal());
}

#[test]
fn hamming_distance() {
    assert_eq!(Board::new(vec![0, 1, 2, 3]).hamming(), 3); // all numbers in wrong position

    assert_eq!(Board::new(vec![1, 2, 0, 3]).hamming(), 1); // 3 is in the wrong position

    assert_eq!(Board::new(vec![1, 2, 3, 0]).hamming(), 0); // all numbers in correct position

    assert_eq!(Board::new(vec![8, 1, 3, 4, 0, 2, 7, 6, 5]).hamming(), 5); // provided example
}

#[test]
fn manhattan_distance() {
    assert_eq!(Board::new(vec![0, 1, 2, 3]).manhattan(), 4); // 2 needs to move twice

    assert_eq!(Board::new(vec![1, 2, 0, 3]).manhattan(), 1); // 3 is in the wrong position

    assert_eq!(Board::new(vec![1, 2, 3, 0]).manhattan(), 0); // all numbers in correct position

    assert_eq!(Board::new(vec![8, 1, 3, 4, 0, 2, 7, 6, 5]).manhattan(), 10);
}

#[test]
fn neighbours() {
    assert_eq!(
        Board::new(vec![0, 1, 2, 3]).neighbours(),
        vec![
            // zero should move right and down
            Board::new(vec![1, 0, 2, 3]),
            Board::new(vec![2, 1, 0, 3]),
        ]
    );

    assert_eq!(
        Board::new(vec![1, 2, 3, 0]).neighbours(),
        vec![
            // zero should move left and up
            Board::new(vec![1, 2, 0, 3]),
            Board::new(vec![1, 0, 3, 2]),
        ]
    );

    assert_eq!(
        Board::new(vec![1, 2, 3, 4, 0, 5, 6, 7, 8]).neighbours(),
        vec![
            // zero should move in all four directions
            Board::new(vec![1, 2, 3, 0, 4, 5, 6, 7, 8]),
            Board::new(vec![1, 2, 3, 4, 5, 0, 6, 7, 8]),
            Board::new(vec![1, 0, 3, 4, 2, 5, 6, 7, 8]),
            Board::new(vec![1, 2, 3, 4, 7, 5, 6, 0, 8]),
        ]
    );
}

#[test]
fn twin_swaps_two_tiles_of_the_top_left_square() {
    assert_eq!(
        Board::new(vec![1, 2, 3, 0]).twin(),
        Board::new(vec![2, 1, 3, 0])
    );
    assert_eq!(
        Board::new(vec![0, 1, 2, 3]).twin(),
        Board::new(vec![0, 3, 2, 1])
    );
    assert_eq!(
        Board::new(vec![1, 0, 2, 3]).twin(),
        Board::new(vec![2, 0, 1, 3])
    );
}

#[test]
fn random_board_has_correct_dimensions() {
    let n = 3; // standard 8-puzzle
    let b = Board::random(n);
    assert_eq!(b.dimension(), n)
}

#[test]
fn random_board_distances_are_consistent() {
    // in the unshuffled order 0, 1, .., 15 every tile is one place too far left
    let mut some_tile_in_place = false;
    for _ in 0..20 {
        let b = Board::random(4);
        let h = b.hamming();
        let m = b.manhattan();
        assert!(0 <= h && h <= 15);
        // each misplaced tile is at least one move away
        assert!(m >= h);
        assert_eq!(b.is_goal(), h == 0);
        some_tile_in_place |= h < 15;
    }
    assert!(some_tile_in_place);
}

#[test]
fn all_boards_of_size_two() {
    let boards = generate_all_boards_of_size(2);
    assert_eq!(boards.len(), 24);
    for (i, a) in boards.iter().enumerate() {
        assert_eq!(a.dimension(), 2);
        for b in boards.iter().skip(i + 1) {
            assert_ne!(a, b);
        }
    }
    assert!(boards.contains(&Board::new(vec![1, 2, 3, 0])));
    assert_eq!(boards.iter().filter(|b| b.is_goal()).count(), 1);
    assert_eq!(generate_all_boards_of_size(1), vec![Board::new(vec![0])]);
}
