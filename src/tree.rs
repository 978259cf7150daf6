use vstd::prelude::*;

use crate::game::Mcts;

verus! {

/// The score of a node that has not been visited yet, above every other.
pub const UNVISITED: u64 = 0xffff_ffff_ffff_ffff;

/// A single state in the game tree.
pub struct Node<G: Mcts> {
    /// The node's own index in the arena.
    pub idx: usize,
    /// The index of the parent; the root is its own parent.
    pub parent: usize,
    /// The indices of the children, in the order they were created.
    pub children: Vec<usize>,
    /// The game state reached at this node.
    pub state: G,
    /// The turn that led here from the parent; `None` at the root.
    pub action: Option<G::Turn>,
    /// Simulations through this node won by the player to move here.
    pub wins: u64,
    /// Simulations through this node.
    pub sims: u64,
    /// The selection score, `UNVISITED` until the node is simulated.
    pub initiative: u64,
}

impl<G: Mcts> Node<G> {
    /// Create a new Node, not yet simulated.
    pub fn new(idx: usize, parent: usize, state: G, action: Option<G::Turn>) -> (r: Node<G>)
        ensures
            r.idx == idx,
            r.parent == parent,
            r.children@ == Seq::<usize>::empty(),
            r.state == state,
            r.action == action,
            r.wins == 0,
            r.sims == 0,
            r.initiative == UNVISITED,
    {
        Node {
            idx,
            parent,
            children: Vec::new(),
            state,
            action,
            wins: 0,
            sims: 0,
            initiative: UNVISITED,
        }
    }
}

/// The arena is a tree rooted at index 0: each node knows its index, every
/// other node has a smaller parent that lists it among its children, children
/// are listed in increasing order, the root holds no statistics, and no node
/// has more wins than simulations.
pub open spec fn tree_wf<G: Mcts>(n: Seq<Node<G>>) -> bool {
    &&& n.len() >= 1
    &&& n[0].parent == 0
    &&& n[0].action is None
    &&& n[0].sims == 0
    &&& n[0].wins == 0
    &&& forall|i: int|
        #![trigger n[i]]
        0 <= i < n.len() ==> {
            &&& n[i].idx == i
            &&& n[i].wins <= n[i].sims
            &&& n[i].state.wf()
        }
    &&& forall|i: int|
        #![trigger n[i].parent]
        0 < i < n.len() ==> {
            &&& n[i].parent < i
            &&& n[i].action is Some
            &&& n[n[i].parent as int].state.legal_turns().contains(n[i].action->0)
            &&& n[n[i].parent as int].children@.contains(i as usize)
        }
    &&& forall|i: int, k: int|
        0 <= i < n.len() && 0 <= k < n[i].children@.len() ==> {
            &&& i < #[trigger] n[i].children@[k] < n.len()
            &&& n[n[i].children@[k] as int].parent == i
        }
    &&& forall|i: int, a: int, b: int|
        0 <= i < n.len() && 0 <= a < b < n[i].children@.len() ==> #[trigger] n[i].children@[a]
            < #[trigger] n[i].children@[b]
}

/// Position, among the first `k` of `keys`, of the first greatest key.
pub open spec fn first_max(keys: Seq<u64>, k: nat) -> nat
    decreases k,
{
    if k <= 1 {
        0
    } else {
        let b = first_max(keys, (k - 1) as nat);
        if keys[k - 1] > keys[b as int] {
            (k - 1) as nat
        } else {
            b
        }
    }
}

/// The scores of the nodes `cs`.
pub open spec fn scores_of<G: Mcts>(n: Seq<Node<G>>, cs: Seq<usize>) -> Seq<u64> {
    cs.map_values(|c: usize| n[c as int].initiative)
}

/// The simulation counts of the nodes `cs`.
pub open spec fn visits_of<G: Mcts>(n: Seq<Node<G>>, cs: Seq<usize>) -> Seq<u64> {
    cs.map_values(|c: usize| n[c as int].sims)
}

/// The child of `i` that selection moves to: the first of greatest score.
pub open spec fn best_scored<G: Mcts>(n: Seq<Node<G>>, i: int) -> int {
    let cs = n[i].children@;
    cs[first_max(scores_of(n, cs), cs.len()) as int] as int
}

/// The leaf that selection reaches from `i`, moving to the best-scored child
/// until a node has no children.
pub open spec fn greedy_leaf<G: Mcts>(n: Seq<Node<G>>, i: int) -> int
    decreases n.len() - i,
{
    if !(0 <= i < n.len()) || n[i].children@.len() == 0 {
        i
    } else {
        let c = best_scored(n, i);
        if c <= i || c >= n.len() {
            i
        } else {
            greedy_leaf(n, c)
        }
    }
}

/// Node `i` lies on the path from `j` up to the root, the root excluded.
#[verifier::opaque]
pub open spec fn on_path<G: Mcts>(n: Seq<Node<G>>, j: int, i: int) -> bool
    decreases j,
{
    if j <= 0 || j >= n.len() {
        false
    } else if i == j {
        true
    } else if n[j].parent >= j {
        false
    } else {
        on_path(n, n[j].parent as int, i)
    }
}

/// The sum of the simulation counts of the nodes `cs`.
pub open spec fn sum_visits<G: Mcts>(n: Seq<Node<G>>, cs: Seq<usize>) -> int
    decreases cs.len(),
{
    if cs.len() == 0 {
        0
    } else {
        sum_visits(n, cs.drop_last()) + n[cs.last() as int].sims
    }
}

/// The simulations counted at the root's children.
pub open spec fn root_visits<G: Mcts>(n: Seq<Node<G>>) -> int {
    sum_visits(n, n[0].children@)
}

/// A simulation won by `winner` counts as a win at a node whose player to
/// move is `winner`.
pub open spec fn credits<G: Mcts>(state: G, winner: Option<G::Player>) -> bool {
    winner == Some(state.mover())
}

/// Nodes `a` and `b` have the same place in the tree, state and turn.
pub open spec fn same_shape<G: Mcts>(a: Node<G>, b: Node<G>) -> bool {
    &&& a.idx == b.idx
    &&& a.parent == b.parent
    &&& a.children == b.children
    &&& a.state == b.state
    &&& a.action == b.action
}

/// Node `n` is node `o` after backpropagation passed it (`done`) or not:
/// one more simulation, a win if the winner was its player to move, and a
/// score recomputed by `score` in `round`.
pub open spec fn updated<G: Mcts, S: Fn(u64, u64, u64) -> u64>(
    o: Node<G>,
    n: Node<G>,
    done: bool,
    winner: Option<G::Player>,
    round: u64,
    score: S,
) -> bool {
    &&& same_shape(n, o)
    &&& n.sims == o.sims + if done {
        1int
    } else {
        0int
    }
    &&& !done ==> n.wins == o.wins && n.initiative == o.initiative
    &&& done ==> score.ensures((n.wins, n.sims, round), n.initiative)
    &&& done ==> (n.wins == o.wins || n.wins == o.wins + 1)
    &&& done ==> (n.wins == o.wins + 1 <==> credits(o.state, winner))
}

/// The game tree from the current position, held in one arena.
pub struct Tree<G: Mcts> {
    arena: Vec<Node<G>>,
}

impl<G: Mcts> Tree<G> {
    /// The nodes, by index.
    pub closed spec fn nodes(&self) -> Seq<Node<G>> {
        self.arena@
    }

    /// The tree is well formed.
    pub open spec fn wf(&self) -> bool {
        tree_wf(self.nodes()) && self.nodes().len() <= usize::MAX
    }

    /// Create a new Tree holding only the root.
    pub fn new(state: G) -> (r: Tree<G>)
        requires
            state.wf(),
        ensures
            r.wf(),
            r.nodes().len() == 1,
            r.nodes()[0].state == state,
            r.nodes()[0].children@.len() == 0,
            r.nodes()[0].initiative == UNVISITED,
    {
        let mut arena: Vec<Node<G>> = Vec::new();
        arena.push(Node::new(0, 0, state, None));
        Tree { arena }
    }

    /// The number of nodes.
    pub fn len(&self) -> (r: usize)
        ensures
            r == self.nodes().len(),
    {
        self.arena.len()
    }

    /// Borrow a `Node` from the tree.
    pub fn borrow_node(&self, idx: usize) -> (r: &Node<G>)
        requires
            idx < self.nodes().len(),
        ensures
            *r == self.nodes()[idx as int],
    {
        &self.arena[idx]
    }

    /// The first of the children `cs` with the greatest score.
    fn best_by_score(&self, cs: &Vec<usize>) -> (r: usize)
        requires
            self.wf(),
            cs@.len() > 0,
            forall|k: int| 0 <= k < cs@.len() ==> #[trigger] cs@[k] < self.nodes().len(),
        ensures
            r == cs@[first_max(scores_of(self.nodes(), cs@), cs@.len()) as int],
    {
        let ghost keys = scores_of(self.nodes(), cs@);
        let mut best: usize = cs[0];
        let mut k: usize = 1;
        while k < cs.len()
            invariant
                1 <= k <= cs@.len(),
                keys == scores_of(self.nodes(), cs@),
                forall|m: int| 0 <= m < cs@.len() ==> #[trigger] cs@[m] < self.nodes().len(),
                best == cs@[first_max(keys, k as nat) as int],
                first_max(keys, k as nat) < k,
            decreases cs@.len() - k,
        {
            if self.arena[cs[k]].initiative > self.arena[best].initiative {
                best = cs[k];
            }
            k = k + 1;
        }
        best
    }

    /// Explore the game tree: from the root, move to the child with the
    /// greatest score, the earliest on ties, until a node has no children.
    pub fn select(&self) -> (r: usize)
        requires
            self.wf(),
        ensures
            r < self.nodes().len(),
            r == greedy_leaf(self.nodes(), 0),
            self.nodes()[r as int].children@.len() == 0,
            self.nodes()[0].children@.len() > 0 ==> r != 0,
    {
        let mut node: usize = 0;
        while self.arena[node].children.len() > 0
            invariant
                self.wf(),
                node < self.nodes().len(),
                greedy_leaf(self.nodes(), node as int) == greedy_leaf(self.nodes(), 0),
                node == 0 || self.nodes()[0].children@.len() > 0,
            decreases self.nodes().len() - node,
        {
            let ghost n = self.nodes();
            assert forall|k: int| 0 <= k < n[node as int].children@.len() implies #[trigger] n[node as int].children@[k] < n.len() by {
            }
            let best = self.best_by_score(&self.arena[node].children);
            proof {
                let cs = n[node as int].children@;
                let f = first_max(scores_of(n, cs), cs.len());
                lemma_first_max_bound(scores_of(n, cs), cs.len());
                assert(cs[f as int] > node);
            }
            node = best;
        }
        node
    }

    /// Expand a node: append one child for each legal turn of its state, in
    /// order, holding a copy of the state with that turn played.
    pub fn expand(&mut self, idx: usize)
        requires
            old(self).wf(),
            idx < old(self).nodes().len(),
        ensures
            final(self).wf(),
            ({
                let o = old(self).nodes();
                let n = final(self).nodes();
                let turns = o[idx as int].state.legal_turns();
                &&& n.len() == o.len() + turns.len()
                &&& o[idx as int].state.is_over() ==> turns.len() == 0
                &&& forall|i: int|
                    0 <= i < o.len() && i != idx ==> #[trigger] n[i] == o[i]
                &&& n[idx as int].children@ == o[idx as int].children@ + Seq::new(
                    turns.len(),
                    |k: int| (o.len() + k) as usize,
                )
                &&& n[idx as int].state == o[idx as int].state
                &&& n[idx as int].action == o[idx as int].action
                &&& n[idx as int].parent == o[idx as int].parent
                &&& n[idx as int].sims == o[idx as int].sims
                &&& n[idx as int].wins == o[idx as int].wins
                &&& n[idx as int].initiative == o[idx as int].initiative
                &&& forall|k: int|
                    0 <= k < turns.len() ==> {
                        &&& #[trigger] n[o.len() + k].parent == idx
                        &&& n[o.len() + k].action == Some(turns[k])
                        &&& o[idx as int].state.played(turns[k], n[o.len() + k].state)
                        &&& n[o.len() + k].children@.len() == 0
                        &&& n[o.len() + k].sims == 0
                        &&& n[o.len() + k].initiative == UNVISITED
                    }
            }),
    {
        let ghost o = self.nodes();
        let turns = self.arena[idx].state.turns();
        let mut k: usize = 0;
        while k < turns.len()
            invariant
                k <= turns@.len(),
                idx < o.len(),
                turns@ == o[idx as int].state.legal_turns(),
                tree_wf(self.nodes()),
                self.nodes().len() == o.len() + k,
                forall|i: int| 0 <= i < o.len() && i != idx ==> #[trigger] self.nodes()[i] == o[i],
                self.nodes()[idx as int].children@ == o[idx as int].children@ + Seq::new(
                    k as nat,
                    |m: int| (o.len() + m) as usize,
                ),
                self.nodes()[idx as int].state == o[idx as int].state,
                self.nodes()[idx as int].action == o[idx as int].action,
                self.nodes()[idx as int].parent == o[idx as int].parent,
                self.nodes()[idx as int].sims == o[idx as int].sims,
                self.nodes()[idx as int].wins == o[idx as int].wins,
                self.nodes()[idx as int].initiative == o[idx as int].initiative,
                forall|m: int|
                    0 <= m < k ==> {
                        &&& #[trigger] self.nodes()[o.len() + m].parent == idx
                        &&& self.nodes()[o.len() + m].action == Some(turns@[m])
                        &&& o[idx as int].state.played(turns@[m], self.nodes()[o.len() + m].state)
                        &&& self.nodes()[o.len() + m].children@.len() == 0
                        &&& self.nodes()[o.len() + m].sims == 0
                        &&& self.nodes()[o.len() + m].initiative == UNVISITED
                    },
            decreases turns@.len() - k,
        {
            // Copy the state and play the turn
            let action = turns[k];
            let mut state = self.arena[idx].state.snapshot();
            state.play(action);
            let ghost child_state = state;

            // Add the new child, and record it at the parent
            let ghost before = self.nodes();
            let child = self.arena.len();
            self.arena.push(Node::new(child, idx, state, Some(action)));
            self.arena[idx].children.push(child);
            proof {
                let n = self.nodes();
                assert(turns@.contains(action)) by {
                    assert(turns@[k as int] == action);
                }
                assert(n[child as int].state == child_state);
                assert(o[idx as int].state.played(turns@[k as int], n[o.len() + k].state));
                assert forall|m: int| 0 <= m < k implies o[idx as int].state.played(
                    turns@[m],
                    #[trigger] n[o.len() + m].state,
                ) by {
                    assert(before[o.len() + m].parent == idx);
                    assert(n[o.len() + m] == before[o.len() + m]);
                }
                assert forall|i: int| 0 < i < n.len() implies n[n[i].parent as int].children@.contains(
                    i as usize,
                ) by {
                    if i == child {
                        assert(n[idx as int].children@.last() == child);
                    } else {
                        let p = before[i].parent as int;
                        let j = choose|j: int| 0 <= j < before[p].children@.len() && before[p].children@[j] == i as usize;
                        assert(n[p].children@[j] == i as usize);
                    }
                }
                assert forall|i: int, a: int, b: int|
                    0 <= i < n.len() && 0 <= a < b < n[i].children@.len() implies #[trigger] n[i].children@[a]
                        < #[trigger] n[i].children@[b] by {
                    if i == idx && b == n[i].children@.len() - 1 {
                        assert(before[i].children@[a] < before.len());
                    }
                }
                assert(self.nodes()[idx as int].children@ == o[idx as int].children@ + Seq::new(
                    (k + 1) as nat,
                    |m: int| (o.len() + m) as usize,
                ));
            }
            k = k + 1;
        }
        let size = self.arena.len();
        proof {
            let n = self.nodes();
            assert(n.len() == size);
            assert(k == turns@.len());
            assert forall|m: int| 0 <= m < turns@.len() implies {
                &&& #[trigger] n[o.len() + m].parent == idx
                &&& n[o.len() + m].action == Some(turns@[m])
                &&& o[idx as int].state.played(turns@[m], n[o.len() + m].state)
                &&& n[o.len() + m].children@.len() == 0
                &&& n[o.len() + m].sims == 0
                &&& n[o.len() + m].initiative == UNVISITED
            } by {
                assert(self.nodes()[o.len() + m].parent == idx);
            }
        }
    }

    /// The most simulated child of the root, the earliest on ties; `None`
    /// if the root has no children.
    pub fn robust_child(&self) -> (r: Option<usize>)
        requires
            self.wf(),
        ensures
            ({
                let cs = self.nodes()[0].children@;
                match r {
                    None => cs.len() == 0,
                    Some(c) => cs.len() > 0 && c == cs[first_max(visits_of(self.nodes(), cs), cs.len()) as int],
                }
            }),
    {
        let cs = &self.arena[0].children;
        if cs.len() == 0 {
            return None;
        }
        let ghost keys = visits_of(self.nodes(), cs@);
        proof {
            assert forall|m: int| 0 <= m < cs@.len() implies #[trigger] cs@[m] < self.nodes().len() by {
                assert(self.nodes()[0].children@[m] < self.nodes().len());
            }
        }
        let mut best: usize = cs[0];
        let mut k: usize = 1;
        while k < cs.len()
            invariant
                1 <= k <= cs@.len(),
                keys == visits_of(self.nodes(), cs@),
                forall|m: int| 0 <= m < cs@.len() ==> #[trigger] cs@[m] < self.nodes().len(),
                best == cs@[first_max(keys, k as nat) as int],
                first_max(keys, k as nat) < k,
            decreases cs@.len() - k,
        {
            if self.arena[cs[k]].sims > self.arena[best].sims {
                best = cs[k];
            }
            k = k + 1;
        }
        Some(best)
    }

    /// Backpropagate the result of a simulation: on each node from `leaf` up
    /// to the root, the root excluded, count the simulation, count a win if
    /// its player to move is the winner, and recompute its score.
    pub fn backpropagate<S: Fn(u64, u64, u64) -> u64>(
        &mut self,
        leaf: usize,
        winner: Option<G::Player>,
        round: u64,
        score: &S,
    )
        requires
            old(self).wf(),
            leaf < old(self).nodes().len(),
            forall|i: int|
                0 <= i < old(self).nodes().len() ==> #[trigger] old(self).nodes()[i].sims < UNVISITED,
            forall|w: u64, v: u64, k: u64| score.requires((w, v, k)),
        ensures
            final(self).wf(),
            final(self).nodes().len() == old(self).nodes().len(),
            forall|i: int|
                #![trigger final(self).nodes()[i]]
                0 <= i < old(self).nodes().len() ==> updated(
                    old(self).nodes()[i],
                    final(self).nodes()[i],
                    on_path(old(self).nodes(), leaf as int, i),
                    winner,
                    round,
                    *score,
                ),
            forall|i: int|
                0 <= i < final(self).nodes().len() ==> #[trigger] final(self).nodes()[i].wins
                    <= final(self).nodes()[i].sims,
            root_visits(final(self).nodes()) == root_visits(old(self).nodes()) + if leaf != 0 {
                1int
            } else {
                0int
            },
    {
        let ghost o = self.nodes();
        let ghost cs = o[0].children@;
        let mut idx = leaf;
        proof {
            lemma_on_path_self(o, leaf as int);
        }
        // Backpropagate until the root
        while idx != 0
            invariant
                idx < o.len(),
                leaf < o.len(),
                tree_wf(o),
                cs == o[0].children@,
                leaf == 0 ==> idx == 0,
                idx == 0 || on_path(o, leaf as int, idx as int),
                forall|i: int| #[trigger] on_path(o, idx as int, i) ==> on_path(o, leaf as int, i),
                forall|w: u64, v: u64, k: u64| score.requires((w, v, k)),
                tree_wf(self.nodes()),
                self.nodes().len() == o.len(),
                forall|i: int|
                    #![trigger self.nodes()[i]]
                    0 <= i < o.len() ==> updated(
                        o[i],
                        self.nodes()[i],
                        on_path(o, leaf as int, i) && !on_path(o, idx as int, i),
                        winner,
                        round,
                        *score,
                    ),
                forall|i: int| 0 <= i < o.len() ==> #[trigger] o[i].sims < UNVISITED,
                sum_visits(self.nodes(), cs) == sum_visits(o, cs) + if idx == 0 && leaf != 0 {
                    1int
                } else {
                    0int
                },
            decreases idx,
        {
            let ghost before = self.nodes();
            proof {
                lemma_on_path_self(o, idx as int);
                assert(updated(o[idx as int], before[idx as int], false, winner, round, *score));
            }

            // Update statistics of node
            let credit = match &winner {
                Some(w) => G::same_player(&self.arena[idx].state.player(), w),
                None => false,
            };
            if credit {
                self.arena[idx].wins = self.arena[idx].wins + 1;
            }
            self.arena[idx].sims = self.arena[idx].sims + 1;

            // Update this node's score
            let initiative = score(self.arena[idx].wins, self.arena[idx].sims, round);
            self.arena[idx].initiative = initiative;

            // Ascend to parent
            let parent = self.arena[idx].parent;
            proof {
                let n = self.nodes();
                assert(before[idx as int] == o[idx as int]);
                assert(updated(o[idx as int], n[idx as int], true, winner, round, *score));
                lemma_backprop_step(o, before, n, leaf as int, idx as int, winner, round, *score);
            }
            idx = parent;
        }
        proof {
            assert forall|i: int| !#[trigger] on_path(o, 0, i) by {
                reveal(on_path);
            }
        }
    }
}

/// The first greatest key lies among the first `k`.
pub proof fn lemma_first_max_bound(keys: Seq<u64>, k: nat)
    ensures
        k >= 1 ==> first_max(keys, k) < k,
        k == 0 ==> first_max(keys, k) == 0,
    decreases k,
{
    if k > 1 {
        lemma_first_max_bound(keys, (k - 1) as nat);
    }
}

} // verus!

verus! {

/// A tree stays well formed when only statistics change, and no node gets
/// more wins than simulations.
pub proof fn lemma_wf_stats_only<G: Mcts>(o: Seq<Node<G>>, n: Seq<Node<G>>)
    requires
        tree_wf(o),
        n.len() == o.len(),
        forall|i: int|
            #![trigger n[i]]
            0 <= i < n.len() ==> same_shape(n[i], o[i]) && n[i].wins <= n[i].sims,
        n[0].sims == 0,
        n[0].wins == 0,
    ensures
        tree_wf(n),
{
    assert forall|i: int, k: int|
        0 <= i < n.len() && 0 <= k < n[i].children@.len() implies {
        &&& i < #[trigger] n[i].children@[k] < n.len()
        &&& n[n[i].children@[k] as int].parent == i
    } by {
        assert(same_shape(n[i], o[i]));
        assert(same_shape(n[o[i].children@[k] as int], o[o[i].children@[k] as int]));
    }
    assert forall|i: int| #![trigger n[i]] 0 < i < n.len() implies {
        &&& n[i].parent < i
        &&& n[i].action is Some
        &&& n[n[i].parent as int].state.legal_turns().contains(n[i].action->0)
        &&& n[n[i].parent as int].children@.contains(i as usize)
    } by {
        assert(same_shape(n[i], o[i]));
        assert(same_shape(n[o[i].parent as int], o[o[i].parent as int]));
    }
    assert forall|i: int, a: int, b: int|
        0 <= i < n.len() && 0 <= a < b < n[i].children@.len() implies #[trigger] n[i].children@[a]
            < #[trigger] n[i].children@[b] by {
        assert(same_shape(n[i], o[i]));
    }
}

/// One step of backpropagation: after node `idx` is updated, the tree is
/// well formed, the nodes passed are those on the path from `leaf` but not on
/// the path from the parent of `idx`, and the root's children gained a
/// simulation if that parent is the root.
pub proof fn lemma_backprop_step<G: Mcts, S: Fn(u64, u64, u64) -> u64>(
    o: Seq<Node<G>>,
    before: Seq<Node<G>>,
    n: Seq<Node<G>>,
    leaf: int,
    idx: int,
    winner: Option<G::Player>,
    round: u64,
    score: S,
)
    requires
        tree_wf(o),
        0 < idx < o.len(),
        0 <= leaf < o.len(),
        on_path(o, leaf, idx),
        forall|i: int| #[trigger] on_path(o, idx, i) ==> on_path(o, leaf, i),
        before.len() == o.len(),
        n.len() == o.len(),
        forall|i: int|
            #![trigger before[i]]
            0 <= i < o.len() ==> updated(
                o[i],
                before[i],
                on_path(o, leaf, i) && !on_path(o, idx, i),
                winner,
                round,
                score,
            ),
        forall|i: int| 0 <= i < o.len() && i != idx ==> #[trigger] n[i] == before[i],
        updated(o[idx], n[idx], true, winner, round, score),
        sum_visits(before, o[0].children@) == sum_visits(o, o[0].children@),
        n[idx].sims == before[idx].sims + 1,
    ensures
        tree_wf(n),
        o[idx].parent == 0 || on_path(o, leaf, o[idx].parent as int),
        forall|i: int| #[trigger] on_path(o, o[idx].parent as int, i) ==> on_path(o, leaf, i),
        forall|i: int|
            #![trigger n[i]]
            0 <= i < o.len() ==> updated(
                o[i],
                n[i],
                on_path(o, leaf, i) && !on_path(o, o[idx].parent as int, i),
                winner,
                round,
                score,
            ),
        sum_visits(n, o[0].children@) == sum_visits(o, o[0].children@) + if o[idx].parent == 0 {
            1int
        } else {
            0int
        },
{
    let parent = o[idx].parent as int;
    lemma_on_path_step(o, idx);
    lemma_on_path_bound(o, parent, idx);
    lemma_on_path_self(o, parent);
    if parent != 0 {
        assert(on_path(o, idx, parent));
    }
    assert forall|i: int| #[trigger] on_path(o, parent, i) implies on_path(o, leaf, i) by {
        assert(on_path(o, idx, i));
    }
    lemma_step_updated(o, before, n, leaf, idx, parent, winner, round, score);
    lemma_root_child(o, idx);
    lemma_sum_bump(before, n, o[0].children@, idx as usize);
    lemma_on_path_bound(o, leaf, 0);
    lemma_wf_after_update(o, n, leaf, parent, winner, round, score);
}

/// A tree stays well formed through backpropagation.
pub proof fn lemma_wf_after_update<G: Mcts, S: Fn(u64, u64, u64) -> u64>(
    o: Seq<Node<G>>,
    n: Seq<Node<G>>,
    leaf: int,
    p: int,
    winner: Option<G::Player>,
    round: u64,
    score: S,
)
    requires
        tree_wf(o),
        n.len() == o.len(),
        !on_path(o, leaf, 0),
        forall|i: int|
            #![trigger n[i]]
            0 <= i < o.len() ==> updated(
                o[i],
                n[i],
                on_path(o, leaf, i) && !on_path(o, p, i),
                winner,
                round,
                score,
            ),
    ensures
        tree_wf(n),
{
    assert forall|i: int| #![trigger n[i]] 0 <= i < n.len() implies same_shape(n[i], o[i]) && n[i].wins
        <= n[i].sims by {
        assert(updated(o[i], n[i], on_path(o, leaf, i) && !on_path(o, p, i), winner, round, score));
    }
    assert(updated(o[0], n[0], false, winner, round, score));
    lemma_wf_stats_only(o, n);
}

/// After node `idx` is updated, the nodes
/// passed are those on the path from `leaf` but not on the path from `p`,
/// the next node up.
pub proof fn lemma_step_updated<G: Mcts, S: Fn(u64, u64, u64) -> u64>(
    o: Seq<Node<G>>,
    before: Seq<Node<G>>,
    n: Seq<Node<G>>,
    leaf: int,
    idx: int,
    p: int,
    winner: Option<G::Player>,
    round: u64,
    score: S,
)
    requires
        0 < idx < o.len(),
        forall|i: int| #[trigger] on_path(o, idx, i) == (i == idx || on_path(o, p, i)),
        !on_path(o, p, idx),
        on_path(o, leaf, idx),
        before.len() == o.len(),
        n.len() == o.len(),
        forall|i: int|
            #![trigger before[i]]
            0 <= i < o.len() ==> updated(
                o[i],
                before[i],
                on_path(o, leaf, i) && !on_path(o, idx, i),
                winner,
                round,
                score,
            ),
        forall|i: int| 0 <= i < o.len() && i != idx ==> #[trigger] n[i] == before[i],
        updated(o[idx], n[idx], true, winner, round, score),
    ensures
        forall|i: int|
            #![trigger n[i]]
            0 <= i < o.len() ==> updated(
                o[i],
                n[i],
                on_path(o, leaf, i) && !on_path(o, p, i),
                winner,
                round,
                score,
            ),
{
    assert forall|i: int|
        #![trigger n[i]]
        0 <= i < o.len() implies updated(
            o[i],
            n[i],
            on_path(o, leaf, i) && !on_path(o, p, i),
            winner,
            round,
            score,
        ) by {
        if i != idx {
            assert(before[i] == n[i]);
            assert(on_path(o, idx, i) == on_path(o, p, i));
        }
    }
}

/// A node other than the root is listed among the root's children exactly
/// when the root is its parent.
pub proof fn lemma_root_child<G: Mcts>(o: Seq<Node<G>>, idx: int)
    requires
        tree_wf(o),
        0 < idx < o.len(),
    ensures
        o[0].children@.contains(idx as usize) <==> o[idx].parent == 0,
        forall|k: int| 0 <= k < o[0].children@.len() ==> #[trigger] o[0].children@[k] < o.len(),
        forall|a: int, b: int|
            0 <= a < b < o[0].children@.len() ==> #[trigger] o[0].children@[a]
                < #[trigger] o[0].children@[b],
{
    let cs = o[0].children@;
    if cs.contains(idx as usize) {
        let j = choose|j: int| 0 <= j < cs.len() && cs[j] == idx as usize;
        assert(o[cs[j] as int].parent == 0);
    }
    assert forall|k: int| 0 <= k < cs.len() implies #[trigger] cs[k] < o.len() by {
        assert(o[0].children@[k] < o.len());
    }
}

/// Every node but the root is on its own path.
pub proof fn lemma_on_path_self<G: Mcts>(n: Seq<Node<G>>, j: int)
    ensures
        0 < j < n.len() ==> on_path(n, j, j),
{
    reveal(on_path);
}

/// The path from a node other than the root is the node, then the path from
/// its parent.
pub proof fn lemma_on_path_step<G: Mcts>(n: Seq<Node<G>>, j: int)
    requires
        tree_wf(n),
        0 < j < n.len(),
    ensures
        forall|i: int| #[trigger] on_path(n, j, i) == (i == j || on_path(n, n[j].parent as int, i)),
{
    reveal(on_path);
    assert(n[j].parent < j);
}

/// Sums over `cs` agree where the nodes listed agree on their simulations.
pub proof fn lemma_sum_same<G: Mcts>(o: Seq<Node<G>>, n: Seq<Node<G>>, cs: Seq<usize>)
    requires
        forall|k: int| 0 <= k < cs.len() ==> #[trigger] n[cs[k] as int].sims == o[cs[k] as int].sims,
    ensures
        sum_visits(n, cs) == sum_visits(o, cs),
    decreases cs.len(),
{
    if cs.len() > 0 {
        let d = cs.drop_last();
        assert forall|k: int| 0 <= k < d.len() implies #[trigger] n[d[k] as int].sims == o[d[k] as int].sims by {
            assert(d[k] == cs[k]);
        }
        lemma_sum_same(o, n, d);
        assert(n[cs[cs.len() - 1] as int].sims == o[cs[cs.len() - 1] as int].sims);
    }
}

/// In every well-formed tree, so in every tree a search builds, no node has
/// more wins than simulations.
pub proof fn lemma_wins_at_most_visits<G: Mcts>(tree: &Tree<G>)
    requires
        tree.wf(),
    ensures
        forall|i: int|
            0 <= i < tree.nodes().len() ==> #[trigger] tree.nodes()[i].wins <= tree.nodes()[i].sims,
{
    assert forall|i: int| 0 <= i < tree.nodes().len() implies #[trigger] tree.nodes()[i].wins
        <= tree.nodes()[i].sims by {
        assert(tree.nodes()[i].idx == i);
    }
}

/// The sum over nodes without simulations is zero.
pub proof fn lemma_sum_zero<G: Mcts>(n: Seq<Node<G>>, cs: Seq<usize>)
    requires
        forall|k: int| 0 <= k < cs.len() ==> #[trigger] n[cs[k] as int].sims == 0,
    ensures
        sum_visits(n, cs) == 0,
    decreases cs.len(),
{
    if cs.len() > 0 {
        let d = cs.drop_last();
        assert forall|k: int| 0 <= k < d.len() implies #[trigger] n[d[k] as int].sims == 0 by {
            assert(d[k] == cs[k]);
        }
        lemma_sum_zero(n, d);
        assert(n[cs[cs.len() - 1] as int].sims == 0);
    }
}

/// A node on the path from `j` lies between the root, excluded, and `j`.
pub proof fn lemma_on_path_bound<G: Mcts>(n: Seq<Node<G>>, j: int, i: int)
    ensures
        on_path(n, j, i) ==> 0 < i <= j,
    decreases j,
{
    reveal(on_path);
    if 0 < j < n.len() && i != j && n[j].parent < j {
        lemma_on_path_bound(n, n[j].parent as int, i);
    }
}

/// One more simulation at `x` adds one to the sum over `cs` if `x` is listed
/// there, and nothing otherwise.
pub proof fn lemma_sum_bump<G: Mcts>(o: Seq<Node<G>>, n: Seq<Node<G>>, cs: Seq<usize>, x: usize)
    requires
        forall|c: int| 0 <= c < o.len() && c != x ==> #[trigger] n[c] == o[c],
        x < o.len(),
        n.len() == o.len(),
        n[x as int].sims == o[x as int].sims + 1,
        forall|k: int| 0 <= k < cs.len() ==> #[trigger] cs[k] < o.len(),
        forall|a: int, b: int| 0 <= a < b < cs.len() ==> #[trigger] cs[a] < #[trigger] cs[b],
    ensures
        sum_visits(n, cs) == sum_visits(o, cs) + if cs.contains(x) {
            1int
        } else {
            0int
        },
    decreases cs.len(),
{
    if cs.len() > 0 {
        let d = cs.drop_last();
        lemma_sum_bump(o, n, d, x);
        if cs.last() == x {
            assert(!d.contains(x)) by {
                if d.contains(x) {
                    let j = choose|j: int| 0 <= j < d.len() && d[j] == x;
                    assert(cs[j] < cs[cs.len() - 1]);
                }
            }
            assert(cs.contains(x)) by {
                assert(cs[cs.len() - 1] == x);
            }
        } else {
            assert(cs.contains(x) == d.contains(x)) by {
                if cs.contains(x) {
                    let j = choose|j: int| 0 <= j < cs.len() && cs[j] == x;
                    assert(j < cs.len() - 1);
                    assert(d[j] == x);
                }
                if d.contains(x) {
                    let j = choose|j: int| 0 <= j < d.len() && d[j] == x;
                    assert(cs[j] == x);
                }
            }
        }
    }
}

} // verus!
