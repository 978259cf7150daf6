use vstd::prelude::*;

use rand::rngs::StdRng;
use rand::seq::SliceRandom;

use crate::game::Mcts;
use crate::tree::{first_max, lemma_sum_same, lemma_sum_zero, root_visits, visits_of, Node, Tree};

verus! {

/// Default time budget of one decision, in milliseconds.
pub const DURATION: u64 = 995;

/// Default number of simulations a leaf needs before it is expanded.
pub const THRESHOLD: u64 = 3;

/// Default cap on the number of simulations of one decision.
pub const MAX_ROUNDS: u64 = 0xffff_ffff_ffff_ffff;

#[verifier::external_type_specification]
#[verifier::external_body]
pub struct ExStdRng(StdRng);

/// Relies on rand's `SliceRandom::choose` on a slice: `None` when the slice
/// is empty, else a reference to one of its elements.
#[verifier::external_body]
fn choose_one<'a, T>(rng: &mut StdRng, items: &'a [T]) -> (r: Option<&'a T>)
    ensures
        match r {
            Some(x) => items@.contains(*x),
            None => items@.len() == 0,
        },
{
    items.choose(rng)
}

/// The settings of one decision.
#[derive(Clone, Copy, Debug, PartialEq, Eq)]
pub struct Config {
    /// Wall-clock budget, in milliseconds.
    pub time_budget_ms: u64,
    /// A leaf is expanded once it has been simulated more often than this.
    pub expansion_threshold: u64,
    /// Cap on the number of simulations.
    pub max_rounds: u64,
}

/// Settings that no search can run with.
#[derive(Clone, Copy, Debug, PartialEq, Eq, Structural)]
pub enum ConfigError {
    /// The time budget is zero.
    ZeroTimeBudget,
    /// The cap on simulations is zero.
    ZeroRounds,
}

/// The search found no move to return.
#[derive(Clone, Copy, Debug, PartialEq, Eq, Structural)]
pub enum SearchError {
    /// The root has no children: the state offers no legal turn.
    InternalInvariantViolation,
}

impl Config {
    /// The settings allow a search: a positive time budget and a positive
    /// cap on simulations.
    pub open spec fn valid(&self) -> bool {
        self.time_budget_ms > 0 && self.max_rounds > 0
    }

    /// Settings with a positive time budget and a positive cap on
    /// simulations.
    pub fn new(time_budget_ms: u64, expansion_threshold: u64, max_rounds: u64) -> (r: Result<
        Config,
        ConfigError,
    >)
        ensures
            time_budget_ms == 0 ==> r == Err::<Config, ConfigError>(ConfigError::ZeroTimeBudget),
            time_budget_ms > 0 && max_rounds == 0 ==> r == Err::<Config, ConfigError>(
                ConfigError::ZeroRounds,
            ),
            time_budget_ms > 0 && max_rounds > 0 ==> r == Ok::<Config, ConfigError>(
                Config { time_budget_ms, expansion_threshold, max_rounds },
            ),
    {
        if time_budget_ms == 0 {
            Err(ConfigError::ZeroTimeBudget)
        } else if max_rounds == 0 {
            Err(ConfigError::ZeroRounds)
        } else {
            Ok(Config { time_budget_ms, expansion_threshold, max_rounds })
        }
    }
}

impl Default for Config {
    fn default() -> (r: Self)
        ensures
            r.time_budget_ms == DURATION,
            r.expansion_threshold == THRESHOLD,
            r.max_rounds == MAX_ROUNDS,
    {
        Config { time_budget_ms: DURATION, expansion_threshold: THRESHOLD, max_rounds: MAX_ROUNDS }
    }
}

impl<G: Mcts> Node<G> {
    /// Simulate the game from this node: play uniformly random legal turns
    /// until the game is over, or no turn is left, and return the winner
    /// there. A finished state gives its own winner.
    pub fn simulate(&self, rng: &mut StdRng) -> (r: Option<G::Player>)
        requires
            self.state.wf(),
        ensures
            self.state.is_over() ==> r == self.state.outcome(),
            exists|path: Seq<G>, ts: Seq<G::Turn>|
                {
                    &&& #[trigger] playout(path, ts)
                    &&& path[0] == self.state
                    &&& finished(path.last())
                    &&& r == path.last().outcome()
                },
    {
        // Copy the current state to simulate
        let mut state = self.state.snapshot();
        let ghost mut path: Seq<G> = seq![state];
        let ghost mut ts: Seq<G::Turn> = Seq::empty();
        while !state.over()
            invariant
                state.wf(),
                playout(path, ts),
                path[0] == self.state,
                path.last() == state,
                self.state.is_over() ==> ts.len() == 0,
            ensures
                state.wf(),
                playout(path, ts),
                path[0] == self.state,
                path.last() == state,
                self.state.is_over() ==> ts.len() == 0,
                finished(state),
            decreases state.moves_left(),
        {
            // Policy: select a random turn
            let turns = state.turns();
            let turn = match choose_one(rng, turns.as_slice()) {
                Some(t) => *t,
                None => {
                    break;
                },
            };
            let ghost prev = state;
            state.play(turn);
            proof {
                assert(prev.legal_turns().contains(turn));
                let old_path = path;
                let old_ts = ts;
                path = path.push(state);
                ts = ts.push(turn);
                assert forall|k: int| 0 <= k < ts.len() implies #[trigger] path[k].legal_turns().contains(ts[k])
                    && path[k].played(ts[k], path[k + 1]) by {
                    if k < old_ts.len() {
                        assert(old_path[k].legal_turns().contains(old_ts[k]));
                    }
                }
            }
        }
        let r = state.winner();
        proof {
            assert(playout(path, ts) && path[0] == self.state && finished(path.last()) && r == path.last().outcome());
        }
        r
    }
}

/// `path` is a game played from `path[0]`: each state is the one before
/// with the legal turn of `ts` at that place played.
pub open spec fn playout<G: Mcts>(path: Seq<G>, ts: Seq<G::Turn>) -> bool {
    &&& path.len() == ts.len() + 1
    &&& forall|k: int|
        0 <= k < ts.len() ==> #[trigger] path[k].legal_turns().contains(ts[k]) && path[k].played(
            ts[k],
            path[k + 1],
        )
}

/// The game is over, or offers no turn.
pub open spec fn finished<G: Mcts>(s: G) -> bool {
    s.is_over() || s.legal_turns().len() == 0
}

/// After a search from `state`, the root holds `state`, and its children
/// are nodes 1 to m, one for each legal turn of `state`, in order.
pub open spec fn root_matches<G: Mcts>(tree: Tree<G>, state: G) -> bool {
    let n = tree.nodes();
    let turns = state.legal_turns();
    &&& n.len() > turns.len()
    &&& n[0].state == state
    &&& n[0].children@.len() == turns.len()
    &&& forall|k: int| 0 <= k < turns.len() ==> #[trigger] n[0].children@[k] == k + 1
    &&& forall|k: int| 0 <= k < turns.len() ==> #[trigger] n[k + 1].action == Some(turns[k])
}

/// `tree` and `rounds` are what a search from `state` with `config` and
/// `clock` hands back: the tree is well formed, its root holds `state` and
/// one child per legal turn, the root's children count one simulation per
/// round, a forced turn runs no round, and the rounds stop at the cap or at
/// a reading of `clock` that reached the time budget.
pub open spec fn searched<G: Mcts, C: Fn() -> u64>(
    tree: Tree<G>,
    rounds: u64,
    state: G,
    config: Config,
    clock: C,
) -> bool {
    &&& tree.wf()
    &&& root_matches(tree, state)
    &&& rounds <= config.max_rounds
    &&& state.legal_turns().len() == 1 ==> rounds == 0
    &&& state.legal_turns().len() >= 1 ==> root_visits(tree.nodes()) == rounds
    &&& state.legal_turns().len() != 1 && rounds < config.max_rounds ==> exists|t: u64|
        #[trigger] clock.ensures((), t) && t >= config.time_budget_ms
}

/// The turn of the most simulated child of the root, the earliest on ties,
/// or an error if the root has no children.
pub open spec fn robust_turn<G: Mcts>(tree: Tree<G>) -> Result<G::Turn, SearchError> {
    let n = tree.nodes();
    let cs = n[0].children@;
    if cs.len() == 0 {
        Err(SearchError::InternalInvariantViolation)
    } else {
        Ok(n[cs[first_max(visits_of(n, cs), cs.len()) as int] as int].action->0)
    }
}

/// Run the search for one decision from `state`: expand the root, then,
/// unless it has exactly one child, repeat select, expand, simulate and
/// backpropagate until `clock` reaches the time budget or the cap on
/// simulations is met. Returns the tree and the number of simulations.
///
/// `clock` gives the milliseconds elapsed since the decision started, and
/// `score` the score of a node from its wins, its simulations and the round.
///
/// The root keeps `state` as it was given: expansions and simulations work
/// on copies. When the state offers a turn, the simulations counted at the
/// root's children add up to the number of rounds run, which is zero for a
/// forced turn.
pub fn search<G: Mcts, C: Fn() -> u64, S: Fn(u64, u64, u64) -> u64>(
    state: G,
    config: &Config,
    rng: &mut StdRng,
    clock: &C,
    score: &S,
) -> (r: (Tree<G>, u64))
    requires
        state.wf(),
        config.valid(),
        clock.requires(()),
        forall|w: u64, v: u64, k: u64| score.requires((w, v, k)),
    ensures
        searched(r.0, r.1, state, *config, *clock),
        state.is_over() ==> state.legal_turns().len() == 0,
{
    let ghost turns = state.legal_turns();
    let ghost m = turns.len();

    // Create the game tree, and expand at the root
    let mut tree = Tree::new(state);
    tree.expand(0);
    proof {
        let n = tree.nodes();
        assert forall|k: int| 0 <= k < m implies #[trigger] n[0].children@[k] == k + 1 by {
            assert(n[0].children@[k] == (1 + k) as usize);
        }
        assert forall|k: int| 0 <= k < m implies #[trigger] n[k + 1].action == Some(turns[k]) by {
            assert(n[1 + k].parent == 0);
        }
        assert forall|i: int| 0 <= i < n.len() implies #[trigger] n[i].sims <= 0 by {
            if i > 0 {
                assert(n[1 + (i - 1)].parent == 0);
            }
        }
        assert forall|k: int| 0 <= k < n[0].children@.len() implies #[trigger] n[n[0].children@[k] as int].sims == 0 by {
            assert(n[n[0].children@[k] as int].sims <= 0);
        }
        lemma_sum_zero(n, n[0].children@);
    }

    // Return immediately if only one valid turn
    if tree.borrow_node(0).children.len() == 1 {
        return (tree, 0);
    }

    let mut round: u64 = 0;
    loop
        invariant
            tree.wf(),
            root_matches(tree, state),
            turns == state.legal_turns(),
            m == turns.len(),
            m != 1,
            round <= config.max_rounds,
            forall|i: int| 0 <= i < tree.nodes().len() ==> #[trigger] tree.nodes()[i].sims <= round,
            m >= 2 ==> root_visits(tree.nodes()) == round,
            clock.requires(()),
            forall|w: u64, v: u64, k: u64| score.requires((w, v, k)),
        ensures
            tree.wf(),
            root_matches(tree, state),
            round <= config.max_rounds,
            m >= 2 ==> root_visits(tree.nodes()) == round,
            round < config.max_rounds ==> exists|t: u64|
                #[trigger] clock.ensures((), t) && t >= config.time_budget_ms,
        decreases config.max_rounds - round,
    {
        // Stop at the cap on simulations, or once the time budget is spent
        if round >= config.max_rounds {
            break;
        }
        let now = clock();
        if now >= config.time_budget_ms {
            proof {
                assert(clock.ensures((), now));
            }
            break;
        }

        // Select a leaf node to expand
        let mut leaf = tree.select();

        // Expand `leaf` if it has been simulated more than the threshold
        if tree.borrow_node(leaf).sims > config.expansion_threshold {
            let ghost o = tree.nodes();
            tree.expand(leaf);
            proof {
                let n = tree.nodes();
                assert(leaf != 0);
                assert(n[0] == o[0]);
                assert forall|k: int| 0 <= k < m implies #[trigger] n[k + 1].action == Some(turns[k]) by {
                    if k + 1 != leaf {
                        assert(n[k + 1] == o[k + 1]);
                    }
                }
                assert forall|k: int| 0 <= k < n[0].children@.len() implies #[trigger] n[n[0].children@[k] as int].sims == o[n[0].children@[k] as int].sims by {
                    assert(o[0].children@[k] == k + 1);
                    if k + 1 != leaf {
                        assert(n[k + 1] == o[k + 1]);
                    }
                }
                lemma_sum_same(o, n, n[0].children@);
                assert forall|i: int| 0 <= i < n.len() implies #[trigger] n[i].sims <= round by {
                    if i < o.len() && i != leaf {
                        assert(n[i] == o[i]);
                    } else if i >= o.len() {
                        assert(n[o.len() + (i - o.len())].parent == leaf);
                    }
                }
            }
            let children = &tree.borrow_node(leaf).children;
            let ghost parent = leaf;
            match choose_one(rng, children.as_slice()) {
                Some(child) => {
                    proof {
                        let n = tree.nodes();
                        let j = choose|j: int| 0 <= j < children@.len() && children@[j] == *child;
                        assert(n[parent as int].children@[j] > parent);
                        assert(n[parent as int].children@[j] < n.len());
                    }
                    leaf = *child;
                },
                None => {},
            }
        }

        // Simulate at `leaf`
        let winner = tree.borrow_node(leaf).simulate(rng);

        // Backpropagate the winner
        let ghost o = tree.nodes();
        proof {
            assert forall|i: int| 0 <= i < o.len() implies #[trigger] o[i].sims < 0xffff_ffff_ffff_ffffu64 by {
                assert(o[i].sims <= round);
            }
            if m >= 2 {
                assert(o[0].children@.len() > 0);
                assert(o[0].children@[0] == 1);
            }
        }
        tree.backpropagate(leaf, winner, round, score);
        proof {
            let n = tree.nodes();
            assert forall|k: int| 0 <= k < m implies #[trigger] n[k + 1].action == Some(turns[k]) by {
                assert(crate::tree::same_shape(n[k + 1], o[k + 1]));
            }
            assert(crate::tree::same_shape(n[0], o[0]));
            assert forall|i: int| 0 <= i < n.len() implies #[trigger] n[i].sims <= round + 1 by {
                assert(n[i].sims <= o[i].sims + 1);
            }
        }

        // Increment the round number
        round = round + 1;
    }
    (tree, round)
}

/// The turn of the most simulated child of the root, the earliest on ties.
pub fn best_turn<G: Mcts>(tree: &Tree<G>) -> (r: Result<G::Turn, SearchError>)
    requires
        tree.wf(),
    ensures
        r == robust_turn(*tree),
{
    match tree.robust_child() {
        Some(best) => {
            proof {
                let n = tree.nodes();
                let cs = n[0].children@;
                crate::tree::lemma_first_max_bound(visits_of(n, cs), cs.len());
                let f = first_max(visits_of(n, cs), cs.len()) as int;
                assert(cs[f] > 0);
            }
            match tree.borrow_node(best).action {
                Some(turn) => Ok(turn),
                None => Err(SearchError::InternalInvariantViolation),
            }
        },
        None => Err(SearchError::InternalInvariantViolation),
    }
}

/// Run MCTS to select a turn for `state`, which is left as it is.
///
/// Returns the turn of the most simulated child of the root after a search
/// from `state`. Fails exactly when `state` offers no legal turn, as a game
/// that is over does; a forced turn is returned without any simulation.
pub fn decide<G: Mcts, C: Fn() -> u64, S: Fn(u64, u64, u64) -> u64>(
    state: &G,
    config: &Config,
    rng: &mut StdRng,
    clock: &C,
    score: &S,
) -> (r: Result<G::Turn, SearchError>)
    requires
        state.wf(),
        config.valid(),
        clock.requires(()),
        forall|w: u64, v: u64, k: u64| score.requires((w, v, k)),
    ensures
        exists|tree: Tree<G>, rounds: u64|
            #[trigger] searched(tree, rounds, *state, *config, *clock) && r == robust_turn(tree),
        r is Err <==> state.legal_turns().len() == 0,
        r is Err ==> r == Err::<G::Turn, SearchError>(SearchError::InternalInvariantViolation),
        r is Ok ==> state.legal_turns().contains(r->Ok_0),
        state.legal_turns().len() == 1 ==> r == Ok::<G::Turn, SearchError>(state.legal_turns()[0]),
        state.is_over() ==> r is Err,
{
    let root = state.snapshot();
    let (tree, rounds) = search(root, config, rng, clock, score);
    let r = best_turn(&tree);
    proof {
        assert(searched(tree, rounds, *state, *config, *clock));
        let n = tree.nodes();
        let cs = n[0].children@;
        let turns = state.legal_turns();
        if cs.len() > 0 {
            crate::tree::lemma_first_max_bound(visits_of(n, cs), cs.len());
            let f = first_max(visits_of(n, cs), cs.len()) as int;
            assert(cs[f] == f + 1);
            assert(n[f + 1].action == Some(turns[f]));
            assert(turns[f] == r->Ok_0);
        }
    }
    r
}

} // verus!
