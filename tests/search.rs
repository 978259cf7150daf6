use std::cell::Cell;
use std::time::Instant;

use rand::rngs::StdRng;
use rand::SeedableRng;

use reversi::game::Mcts;
use reversi::reversi::{Player, Position, Reversi, Square, Turn};
use reversi::search::{decide, search, Config, ConfigError, SearchError, DURATION, MAX_ROUNDS, THRESHOLD};
use reversi::tree::{Node, Tree, UNVISITED};

/// Win rate plus exploration, as an order-keeping integer.
fn initiative(wins: u64, sims: u64, round: u64) -> u64 {
    let exploitation = wins as f64 / sims as f64;
    let exploration = 0.5 * ((round as f64).log10() / sims as f64).sqrt();
    let value = exploitation + exploration;
    if value.is_nan() || value < 0.0 {
        0
    } else {
        value.to_bits()
    }
}

fn frozen() -> u64 {
    0
}

fn capped(rounds: u64) -> Config {
    Config::new(DURATION, THRESHOLD, rounds).unwrap()
}

#[derive(Clone, Copy, Debug, PartialEq)]
enum Side {
    A,
    B,
}

/// One move, then the game ends: turn 0 wins for A, any other for B. A is
/// always the player to move.
#[derive(Clone, Debug, PartialEq)]
struct Fork {
    branches: usize,
    done: bool,
    winner: Option<Side>,
}

impl Mcts for Fork {
    type Player = Side;
    type Turn = usize;

    fn same_player(a: &Side, b: &Side) -> bool {
        a == b
    }

    fn snapshot(&self) -> Self {
        self.clone()
    }

    fn player(&self) -> Side {
        Side::A
    }

    fn turns(&self) -> Vec<usize> {
        if self.done {
            Vec::new()
        } else {
            (0..self.branches).collect()
        }
    }

    fn play(&mut self, turn: usize) {
        self.done = true;
        self.winner = Some(if turn == 0 { Side::A } else { Side::B });
    }

    fn over(&self) -> bool {
        self.done
    }

    fn winner(&self) -> Option<Side> {
        self.winner
    }
}

fn fork(branches: usize) -> Fork {
    Fork { branches, done: false, winner: None }
}

/// A game with the centre cleared and the given squares set.
fn position(pieces: &[(usize, usize, Player)]) -> Reversi {
    let mut game = Reversi::new();
    for (r, c) in [(3, 3), (3, 4), (4, 3), (4, 4)] {
        *game.board.get_mut(Position(r, c)).unwrap() = Square::Empty;
    }
    for (r, c, p) in pieces {
        *game.board.get_mut(Position(*r, *c)).unwrap() = Square::Piece(*p);
    }
    game
}

/// Black's only turn is a1: it captures b1.
fn forced() -> Reversi {
    position(&[(0, 1, Player::White), (0, 2, Player::Black)])
}

fn walk_wins<G: Mcts>(tree: &Tree<G>) {
    for i in 0..tree.len() {
        let node: &Node<G> = tree.borrow_node(i);
        assert!(node.wins <= node.sims);
        assert_eq!(node.idx, i);
    }
}

#[test]
fn it_works() {
    assert_eq!(2 + 2, 4);
}

#[test]
fn config_defaults_and_errors() {
    let config = Config::default();
    assert_eq!(config.time_budget_ms, 995);
    assert_eq!(config.expansion_threshold, 3);
    assert_eq!(config.max_rounds, MAX_ROUNDS);
    assert_eq!(Config::new(0, 3, 10), Err(ConfigError::ZeroTimeBudget));
    assert_eq!(Config::new(10, 3, 0), Err(ConfigError::ZeroRounds));
    assert_eq!(
        Config::new(10, 2, 5),
        Ok(Config { time_budget_ms: 10, expansion_threshold: 2, max_rounds: 5 })
    );
}

#[test]
fn new_tree_has_unvisited_root() {
    let mut tree = Tree::new(Reversi::new());
    assert_eq!(tree.len(), 1);
    assert_eq!(tree.borrow_node(0).initiative, UNVISITED);
    assert_eq!(tree.select(), 0);
    assert_eq!(tree.robust_child(), None);
    tree.expand(0);
    assert_eq!(tree.len(), 5);
    assert_eq!(tree.borrow_node(0).children, vec![1, 2, 3, 4]);
    assert_eq!(tree.borrow_node(2).action, Some(Turn::new(Player::Black, Position(2, 3))));
    assert_eq!(tree.borrow_node(2).parent, 0);
    // Every child is unvisited: the first one is selected
    assert_eq!(tree.select(), 1);
    assert_eq!(tree.robust_child(), Some(1));
}

#[test]
fn backpropagate_counts_up_to_the_root() {
    let mut tree = Tree::new(Reversi::new());
    tree.expand(0);
    tree.expand(3);
    let leaf = tree.borrow_node(3).children[0];
    // Black moved at the root; white is to move at node 3
    tree.backpropagate(leaf, Some(Player::White), 2, &|w, s, _r| w * 100 + s);
    let root = tree.borrow_node(0);
    assert_eq!((root.sims, root.wins), (0, 0));
    let mid = tree.borrow_node(3);
    assert_eq!((mid.sims, mid.wins, mid.initiative), (1, 1, 101));
    let low = tree.borrow_node(leaf);
    assert_eq!(low.sims, 1);
    assert_eq!(tree.borrow_node(1).sims, 0);
    assert_eq!(tree.borrow_node(1).initiative, UNVISITED);
    // The most simulated root child, and the best-scored path
    assert_eq!(tree.robust_child(), Some(3));
    assert_eq!(tree.select(), 1);
}

#[test]
fn root_visits_equal_simulations() {
    let mut rng = StdRng::seed_from_u64(7);
    let (tree, rounds) = search(Reversi::new(), &capped(300), &mut rng, &frozen, &initiative);
    assert_eq!(rounds, 300);
    let root = tree.borrow_node(0);
    let total: u64 = root.children.iter().map(|c| tree.borrow_node(*c).sims).sum();
    assert_eq!(total, 300);
    walk_wins(&tree);
}

#[test]
fn seeded_decisions_agree() {
    let game = Reversi::new();
    let mut first = StdRng::seed_from_u64(42);
    let mut second = StdRng::seed_from_u64(42);
    let a = decide(&game, &capped(400), &mut first, &frozen, &initiative);
    let b = decide(&game, &capped(400), &mut second, &frozen, &initiative);
    assert_eq!(a, b);
    assert!(a.is_ok());
}

#[test]
fn forced_turn_needs_no_simulation() {
    let calls = Cell::new(0u32);
    let clock = || {
        calls.set(calls.get() + 1);
        0
    };
    let game = forced();
    assert_eq!(game.turns(), vec![Turn::new(Player::Black, Position(0, 0))]);
    let mut rng = StdRng::seed_from_u64(1);
    assert_eq!(
        decide(&game, &Config::default(), &mut rng, &clock, &initiative),
        Ok(Turn::new(Player::Black, Position(0, 0)))
    );
    let (tree, rounds) = search(game, &Config::default(), &mut rng, &clock, &initiative);
    assert_eq!(rounds, 0);
    assert_eq!(tree.len(), 2);
    assert_eq!(tree.borrow_node(1).sims, 0);
    assert_eq!(calls.get(), 0);
}

#[test]
fn terminal_state_is_an_error() {
    let mut game = Reversi::new();
    *game.board.get_mut(Position(3, 3)).unwrap() = Square::Piece(Player::Black);
    *game.board.get_mut(Position(4, 4)).unwrap() = Square::Piece(Player::Black);
    assert!(game.over());
    let mut rng = StdRng::seed_from_u64(3);
    assert_eq!(
        decide(&game, &capped(50), &mut rng, &frozen, &initiative),
        Err(SearchError::InternalInvariantViolation)
    );
}

#[test]
fn winning_turn_is_chosen() {
    let start = Instant::now();
    let clock = || start.elapsed().as_millis() as u64;
    let mut rng = StdRng::seed_from_u64(11);
    assert_eq!(decide(&fork(2), &Config::default(), &mut rng, &clock, &initiative), Ok(0));
    let mut rng = StdRng::seed_from_u64(12);
    let (tree, rounds) = search(fork(2), &capped(500), &mut rng, &frozen, &initiative);
    assert_eq!(rounds, 500);
    assert!(tree.borrow_node(1).sims > tree.borrow_node(2).sims);
    assert_eq!(tree.borrow_node(1).wins, tree.borrow_node(1).sims);
    assert_eq!(tree.borrow_node(2).wins, 0);
}

#[test]
fn forced_fork_turn() {
    let mut rng = StdRng::seed_from_u64(2);
    assert_eq!(decide(&fork(1), &capped(10), &mut rng, &frozen, &initiative), Ok(0));
    assert_eq!(
        decide(&fork(0), &capped(10), &mut rng, &frozen, &initiative),
        Err(SearchError::InternalInvariantViolation)
    );
}

#[test]
fn single_round_returns_a_legal_turn() {
    let game = Reversi::new();
    let mut rng = StdRng::seed_from_u64(5);
    let turn = decide(&game, &capped(1), &mut rng, &frozen, &initiative).unwrap();
    assert!(game.turns().contains(&turn));
    assert_eq!(game.turns().len(), 4);
}

#[test]
fn decision_leaves_the_state_alone() {
    let game = Reversi::new();
    let copy = game.clone();
    let mut rng = StdRng::seed_from_u64(9);
    let _ = decide(&game, &capped(200), &mut rng, &frozen, &initiative);
    assert_eq!(game, copy);
}

#[test]
fn rollout_reaches_the_end() {
    let mut rng = StdRng::seed_from_u64(13);
    let node = Node::new(0, 0, forced(), None);
    assert_eq!(node.simulate(&mut rng), Some(Player::Black));
    let node = Node::new(0, 0, Reversi::new(), None);
    let winner = node.simulate(&mut rng);
    assert!(winner.is_none() || winner == Some(Player::Black) || winner == Some(Player::White));
}

#[test]
fn rollout_of_finished_state_gives_its_winner() {
    let mut game = Reversi::new();
    *game.board.get_mut(Position(3, 3)).unwrap() = Square::Piece(Player::White);
    *game.board.get_mut(Position(3, 4)).unwrap() = Square::Piece(Player::White);
    *game.board.get_mut(Position(4, 3)).unwrap() = Square::Piece(Player::White);
    assert!(game.over());
    let mut rng = StdRng::seed_from_u64(21);
    let node = Node::new(0, 0, game, None);
    assert_eq!(node.simulate(&mut rng), Some(Player::White));
    assert_eq!(node.state, game);
}

#[test]
fn players_compare() {
    assert!(Reversi::same_player(&Player::Black, &Player::Black));
    assert!(!Reversi::same_player(&Player::Black, &Player::White));
    assert!(Fork::same_player(&Side::B, &Side::B));
}
