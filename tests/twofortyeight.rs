use mcts::mcts::{playout, Game, MCTS};
use mcts::twofortyeight::{
    merge_vec, shift_and_merge, spawn_at, Action, TwoFortyEight, HEIGHT, WIDTH,
};

#[test]
fn test_new() {
    let game = TwoFortyEight::new();

    assert_eq!(game.reward(), 0);
}

#[test]
fn test_setget_tile() {
    let mut game = TwoFortyEight::new();

    let coords = vec![(0, 1, 2), (2, 2, 4), (3, 1, 16)];

    for (row, col, num) in coords.clone() {
        game.set_tile(row, col, num);
    }

    for (row, col, num) in coords.clone() {
        assert_eq!(game.get_tile(row, col), num);
    }
}

#[test]
fn test_random_spawn() {
    let mut game = TwoFortyEight::new_empty();

    for _ in 0..WIDTH * HEIGHT {
        assert!(!game.board_full());
        game.random_spawn();
    }
    assert!(game.board_full());
}

#[test]
fn test_merge_vec() {
    let test_cases: Vec<(Vec<u16>, Vec<u16>)> = vec![
        (vec![0], vec![0]),
        (vec![2], vec![2]),
        (vec![0, 2], vec![2, 0]),
        (vec![2, 2], vec![4, 0]),
        (vec![2, 8, 2], vec![2, 8, 2]),
        (vec![2, 0, 4, 4], vec![2, 8, 0, 0]),
        (vec![2, 4, 2, 2], vec![2, 4, 4, 0]),
        (vec![2, 2, 2, 0], vec![4, 2, 0, 0]),
        (vec![1, 2, 0, 0, 4], vec![1, 2, 4, 0, 0]),
        (vec![1, 2, 2, 0, 4], vec![1, 4, 4, 0, 0]),
        (vec![1, 2, 2, 2, 4], vec![1, 4, 2, 4, 0]),
        (vec![0, 2, 0, 2, 0], vec![4, 0, 0, 0, 0]),
        (vec![0, 0, 0, 0, 0], vec![0, 0, 0, 0, 0]),
        (vec![2, 2, 2, 2, 2], vec![4, 4, 2, 0, 0]),
        (vec![2, 0, 2, 0, 4], vec![4, 4, 0, 0, 0]),
        (vec![2, 2, 0, 4, 4], vec![4, 8, 0, 0, 0]),
        (vec![2, 2, 4, 4, 4, 4], vec![4, 8, 8, 0, 0]),
        (vec![4, 0, 0, 0, 0, 4], vec![8, 0, 0, 0, 0, 0]),
    ];

    for (input, should) in test_cases {
        let output = merge_vec(&input);
        println!("merge_vec({:?}) => {:?}  (should be {:?})", input, output, should);
        assert_eq!(output.0.len(), input.len());
        assert_eq!(&output.0[..should.len()], &should[..]);
    }
}

#[test]
fn test_shift_and_merge() {
    let mut game = TwoFortyEight::new_empty();
    game.set_tile(2, 2, 4);

    let actions = vec![Action::Down, Action::Right, Action::Up, Action::Left];
    for a in &actions {
        let (board, points) = shift_and_merge(game.board, a);
        assert!(points.unwrap() == 0);
        game.board = board;
    }
    assert!(game.get_tile(0, 0) == 4);
}

#[test]
fn twofortyeight_test_playout() {
    let game = TwoFortyEight::new();
    let final_game = playout(&game);
    assert!(final_game.allowed_actions().is_empty());
    assert!(final_game.moves > 0);
}

#[test]
fn twofortyeight_test_mcts() {
    let game = TwoFortyEight::new();
    let mut mcts = MCTS::new(&game, 5).unwrap();

    mcts.search(25, 1000).unwrap();
    let action = mcts.best_action();
    action.expect("should give some action");
}

#[test]
fn merge_scores_points() {
    assert_eq!(merge_vec(&vec![2, 2, 2, 0]), (vec![4, 2, 0, 0], 4, true));
    assert_eq!(merge_vec(&vec![2, 2, 4, 4]), (vec![4, 8, 0, 0], 12, true));
    assert_eq!(merge_vec(&vec![2, 4, 8, 16]), (vec![2, 4, 8, 16], 0, false));
}

#[test]
fn largest_tiles_do_not_merge() {
    assert_eq!(merge_vec(&vec![32768, 32768]), (vec![32768, 32768], 0, false));
    assert_eq!(merge_vec(&vec![16384, 16384]), (vec![32768, 0], 32768, true));
}

#[test]
fn merge_of_empty_row() {
    assert_eq!(merge_vec(&vec![]), (vec![], 0, false));
}

#[test]
fn full_board_without_pairs_has_no_move() {
    let mut game = TwoFortyEight::new_empty();
    let tiles: [u16; 16] = [2, 4, 2, 4, 4, 2, 4, 2, 2, 4, 2, 4, 4, 2, 4, 2];
    game.board = tiles;
    assert!(game.board_full());
    assert!(game.allowed_actions().is_empty());
    assert_eq!(shift_and_merge(game.board, &Action::Left).1, None);
}

#[test]
fn allowed_actions_are_repeatable() {
    let mut game = TwoFortyEight::new_empty();
    game.set_tile(0, 0, 2);
    let first = game.allowed_actions();
    let second = game.allowed_actions();
    assert_eq!(first, second);
    assert_eq!(first, vec![Action::Up, Action::Down, Action::Left, Action::Right]);
}

#[test]
fn moves_without_room_are_not_allowed() {
    let mut game = TwoFortyEight::new_empty();
    let tiles: [u16; 16] = [2, 4, 2, 4, 2, 4, 2, 4, 2, 4, 2, 4, 2, 4, 2, 4];
    game.board = tiles;
    assert_eq!(game.allowed_actions(), vec![Action::Up, Action::Down]);
    let (board, points) = shift_and_merge(game.board, &Action::Up);
    assert_eq!(points, Some(48));
    assert_eq!(board[0], 4);
    assert_eq!(board[4], 4);
    assert_eq!(board[8], 0);
    assert_eq!(board[1], 8);
}

#[test]
fn move_scores_and_spawns() {
    let mut game = TwoFortyEight::new_empty();
    game.set_tile(0, 0, 2);
    game.set_tile(0, 1, 2);
    game.make_move(&Action::Left);
    assert_eq!(game.score, 4);
    assert_eq!(game.moves, 1);
    assert_eq!(game.get_tile(0, 0), 4);
    let sum: u32 = game.board.iter().map(|t| *t as u32).sum();
    assert_eq!(sum, 6);
    assert_eq!(game.reward(), 4);
}

#[test]
fn seeded_games_spawn_alike() {
    let mut a = TwoFortyEight::new_empty();
    let mut b = TwoFortyEight::new_empty();
    a.set_rng_seed(7);
    b.set_rng_seed(7);
    for _ in 0..6 {
        a.random_spawn();
        b.random_spawn();
    }
    assert_eq!(a.board, b.board);
    let c = a.duplicate();
    a.random_spawn();
    let mut d = c.duplicate();
    d.random_spawn();
    assert_eq!(a.board, d.board);
}

#[test]
fn new_game_has_two_tiles() {
    let game = TwoFortyEight::new();
    assert_eq!(game.board.iter().filter(|t| **t == 2).count(), 2);
    assert_eq!(game.board.iter().filter(|t| **t == 0).count(), 14);
}

#[test]
fn spawn_at_counts_empty_cells() {
    let mut board: [u16; 16] = [2; 16];
    board[3] = 0;
    board[7] = 0;
    board[12] = 0;
    let r = spawn_at(board, 0);
    assert_eq!(r[3], 2);
    assert_eq!(r[7], 0);
    let r = spawn_at(board, 4);
    assert_eq!(r[7], 2);
    assert_eq!(r[3], 0);
    let r = spawn_at(board, 5);
    assert_eq!(r[12], 2);
    assert_eq!(r.iter().filter(|t| **t == 0).count(), 2);
}
