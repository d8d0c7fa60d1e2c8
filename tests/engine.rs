use mcts::mcts::{
    expected_reward, mean_reward, playout, uct_value, Game, GameAction, SearchError, TreeNode,
    MCTS,
};

#[derive(Debug, Clone, Copy, PartialEq)]
enum Take {
    One,
    Two,
}

impl GameAction for Take {
    fn same_as(&self, other: &Self) -> bool {
        self == other
    }
}

/// Players remove one or two counters from a pile until it is empty; the
/// reward is the number of moves made.
#[derive(Debug, Clone, PartialEq)]
struct MiniGame {
    pile: u32,
    moves: u32,
}

impl MiniGame {
    fn new() -> MiniGame {
        MiniGame { pile: 6, moves: 0 }
    }
}

impl Game<Take> for MiniGame {
    fn allowed_actions(&self) -> Vec<Take> {
        match self.pile {
            0 => vec![],
            1 => vec![Take::One],
            _ => vec![Take::One, Take::Two],
        }
    }

    fn make_move(&mut self, action: &Take) {
        match action {
            Take::One => self.pile -= 1,
            Take::Two => self.pile -= 2,
        }
        self.moves += 1;
    }

    fn reward(&self) -> u32 {
        self.moves
    }

    fn duplicate(&self) -> Self {
        self.clone()
    }
}

#[derive(Debug, Clone, Copy, PartialEq)]
enum Door {
    Empty,
    Prize,
}

impl GameAction for Door {
    fn same_as(&self, other: &Self) -> bool {
        self == other
    }
}

/// One choice between two doors, worth 0 and 10.
#[derive(Debug, Clone, PartialEq)]
struct TwoDoors {
    opened: Option<Door>,
}

impl Game<Door> for TwoDoors {
    fn allowed_actions(&self) -> Vec<Door> {
        match self.opened {
            None => vec![Door::Empty, Door::Prize],
            Some(_) => vec![],
        }
    }

    fn make_move(&mut self, action: &Door) {
        assert!(self.opened.is_none(), "Illegal move");
        self.opened = Some(*action);
    }

    fn reward(&self) -> u32 {
        match self.opened {
            Some(Door::Prize) => 10,
            _ => 0,
        }
    }

    fn duplicate(&self) -> Self {
        self.clone()
    }
}

/// Four first moves, each ending the game.
#[derive(Debug, Clone, PartialEq)]
struct FourWays {
    done: bool,
}

impl Game<Way> for FourWays {
    fn allowed_actions(&self) -> Vec<Way> {
        if self.done {
            vec![]
        } else {
            vec![Way(0), Way(1), Way(2), Way(3)]
        }
    }

    fn make_move(&mut self, _action: &Way) {
        self.done = true;
    }

    fn reward(&self) -> u32 {
        1
    }

    fn duplicate(&self) -> Self {
        self.clone()
    }
}

#[derive(Debug, Clone, Copy, PartialEq)]
struct Way(u8);

impl GameAction for Way {
    fn same_as(&self, other: &Self) -> bool {
        self == other
    }
}

#[test]
fn mcts_test_playout() {
    let game = MiniGame::new();
    let game = playout(&game);
    println!("Final: {:?}", game);
    assert_eq!(game.pile, 0);
    assert!(game.allowed_actions().is_empty());
}

#[test]
fn test_expand() {
    let game = MiniGame::new();
    let mut root: TreeNode<Take> = TreeNode::new(None);

    assert_eq!(root.expand(&game), Some(0));
    assert!(!root.fully_expanded);
    assert_eq!(root.expand(&game), Some(1));
    assert!(root.fully_expanded);
    assert_eq!(root.children.len(), 2);
    assert_ne!(root.children[0].action, root.children[1].action);
    {
        let v = &mut root.children[0];
        assert_eq!(v.expand(&game), Some(0));
    }
}

#[test]
fn mcts_test_mcts() {
    let game = MiniGame::new();
    let mut root: TreeNode<Take> = TreeNode::new(None);

    for i in 0..5 {
        root.iteration(&mut game.duplicate(), 1000);
        println!("After {} iteration(s): n={} q={}", i, root.n, root.q);
    }
    assert_eq!(root.n, 5);
    assert_eq!(root.children.len(), 2);
}

#[test]
fn test_search() {
    let game = MiniGame::new();
    let mut mcts = MCTS::new(&game, 1).unwrap();

    mcts.search(100, 1000).unwrap();
    let action = mcts.best_action();
    println!("Search result: {:?}", action);
    assert!(action.is_some());
}

#[test]
fn playout_of_terminal_state_is_itself() {
    let game = TwoDoors { opened: Some(Door::Prize) };
    assert_eq!(playout(&game), game);
}

#[test]
fn expected_reward_lies_between_samples() {
    let game = TwoDoors { opened: None };
    let r = expected_reward(&game, 200);
    assert!(r <= 10_000_000);
    let sure = TwoDoors { opened: Some(Door::Prize) };
    assert_eq!(expected_reward(&sure, 3), 10_000_000);
    assert_eq!(expected_reward(&sure, 0), 0);
}

#[test]
fn mean_reward_in_millionths() {
    assert_eq!(mean_reward(&vec![1, 2]), 1_500_000);
    assert_eq!(mean_reward(&vec![0, 0, 1]), 333_333);
    assert_eq!(mean_reward(&vec![]), 0);
    assert_eq!(mean_reward(&vec![u32::MAX, u32::MAX]), 4_294_967_295_000_000);
}

#[test]
fn uct_value_exact() {
    assert_eq!(uct_value(10, 2, 4, 1000), 6_177_409);
    assert_eq!(uct_value(10, 2, 4, 0), 5_000_000);
    assert_eq!(uct_value(10, 2, 1, 1000), 5_000_000);
    assert_eq!(uct_value(10, 2, 3, 1000), 6_019_666);
    assert_eq!(uct_value(0, 1, 10, 500), 1_061_302);
}

#[test]
fn unvisited_child_is_selected_first() {
    let mut root: TreeNode<Way> = TreeNode::new(None);
    root.n = 3;
    root.q = 30;
    let mut a = TreeNode::new(Some(Way(0)));
    a.n = 2;
    a.q = 20;
    let b = TreeNode::new(Some(Way(1)));
    root.children.push(a);
    root.children.push(b);
    assert_eq!(root.best_child(1000, &vec![Way(0), Way(1)]), Some(1));
    assert_eq!(root.best_child(1000, &vec![Way(0)]), Some(0));
    assert_eq!(root.best_child(1000, &vec![Way(2)]), None);
}

#[test]
fn higher_mean_wins_without_exploration() {
    let mut root: TreeNode<Way> = TreeNode::new(None);
    root.n = 4;
    root.q = 12;
    let mut a = TreeNode::new(Some(Way(0)));
    a.n = 2;
    a.q = 2;
    let mut b = TreeNode::new(Some(Way(1)));
    b.n = 2;
    b.q = 10;
    root.children.push(a);
    root.children.push(b);
    assert_eq!(root.best_child(0, &vec![Way(0), Way(1)]), Some(1));
}

#[test]
fn iterations_expand_one_first_move_each() {
    let game = FourWays { done: false };
    for k in 1..=4u64 {
        let mut root: TreeNode<Way> = TreeNode::new(None);
        for _ in 0..k {
            root.iteration(&mut game.duplicate(), 1000);
        }
        assert_eq!(root.n, k);
        assert_eq!(root.children.len() as u64, k);
        assert_eq!(root.fully_expanded, k == 4);
    }
}

#[test]
fn terminal_root_counts_visits() {
    let game = FourWays { done: true };
    let mut root: TreeNode<Way> = TreeNode::new(None);
    root.iteration(&mut game.duplicate(), 1000);
    root.iteration(&mut game.duplicate(), 1000);
    assert!(root.terminal_state);
    assert_eq!(root.n, 2);
    assert_eq!(root.q, 2);
    assert!(root.children.is_empty());
}

#[test]
fn no_recommendation_before_search() {
    let mcts = MCTS::new(&TwoDoors { opened: None }, 3).unwrap();
    assert_eq!(mcts.best_action(), None);
}

#[test]
fn prize_door_is_recommended() {
    let game = TwoDoors { opened: None };
    let mut mcts = MCTS::new(&game, 1).unwrap();
    mcts.search(50, 1000).unwrap();
    assert_eq!(mcts.best_action(), Some(Door::Prize));
}

#[test]
fn advance_forgets_statistics() {
    let game = TwoDoors { opened: None };
    let mut mcts = MCTS::new(&game, 2).unwrap();
    mcts.search(10, 1000).unwrap();
    assert!(mcts.best_action().is_some());
    mcts.advance_game(&game);
    assert_eq!(mcts.best_action(), None);
}

#[test]
fn refused_requests() {
    let game = TwoDoors { opened: None };
    assert_eq!(MCTS::new(&game, 0).err(), Some(SearchError::EmptyEnsemble));
    let mut mcts = MCTS::new(&game, 1).unwrap();
    assert_eq!(mcts.search(0, 1000), Err(SearchError::NoSamples));
    assert_eq!(mcts.best_action(), None);
}

#[test]
fn terminal_state_gives_no_recommendation() {
    let game = TwoDoors { opened: Some(Door::Empty) };
    let mut mcts = MCTS::new(&game, 2).unwrap();
    mcts.search(5, 1000).unwrap();
    assert_eq!(mcts.best_action(), None);
}

#[test]
fn expected_reward_of_terminal_state_is_its_reward() {
    let game = TwoDoors { opened: Some(Door::Prize) };
    assert_eq!(expected_reward(&game, 7), 10 * 1_000_000);
}

#[test]
fn expanding_a_terminal_state_marks_the_node() {
    let game = TwoDoors { opened: Some(Door::Empty) };
    let mut root: TreeNode<Door> = TreeNode::new(None);
    assert_eq!(root.expand(&game), None);
    assert!(root.terminal_state);
    assert!(root.fully_expanded);
}

#[test]
fn iteration_expands_with_visit_and_reward() {
    let game = TwoDoors { opened: None };
    let mut root: TreeNode<Door> = TreeNode::new(None);
    let mut g = game.clone();
    let r = root.iteration(&mut g, 1000);
    assert_eq!(root.children.len(), 1);
    assert_eq!(root.children[0].n, 1);
    assert_eq!(root.children[0].q, r as u128);
    let expected = if root.children[0].action == Some(Door::Prize) { 10 } else { 0 };
    assert_eq!(r, expected);
}
