use vstd::prelude::*;

verus! {

/// A turn-based game that the search engine can play.
///
/// The spec functions give the engine a model of the state: the mover, the
/// legal turns in their order, whether the game is over, and a bound on the
/// number of turns still to come, which shrinks with every legal turn. Their
/// default bodies model a game that is already over and offers no turn; an
/// implementation overrides them to describe its own states, and its methods
/// are held to the contracts below over what it states.
pub trait Mcts: Sized {
    type Player: PartialEq;
    type Turn: Copy;

    /// The state is one the game can be in; by default every state is.
    open spec fn wf(&self) -> bool {
        true
    }

    /// The player whose turn it is.
    open spec fn mover(&self) -> Self::Player {
        arbitrary()
    }

    /// The legal turns, in the order `turns` returns them.
    open spec fn legal_turns(&self) -> Seq<Self::Turn> {
        Seq::empty()
    }

    /// Whether the game has ended.
    open spec fn is_over(&self) -> bool {
        true
    }

    /// An upper bound on the number of turns left to play.
    open spec fn moves_left(&self) -> nat {
        0
    }

    /// The winner, `None` while the game goes on or on a tie.
    open spec fn outcome(&self) -> Option<Self::Player> {
        None
    }

    /// `next` is this state after `turn` is played.
    open spec fn played(&self, turn: Self::Turn, next: Self) -> bool {
        true
    }

    /// Whether two players are the same.
    fn same_player(a: &Self::Player, b: &Self::Player) -> (r: bool)
        ensures
            r == (*a == *b),
    ;

    /// A copy of the state, equal to it.
    fn snapshot(&self) -> (r: Self)
        ensures
            r == *self,
    ;

    /// Get the current player.
    fn player(&self) -> (r: Self::Player)
        requires
            self.wf(),
        ensures
            r == self.mover(),
    ;

    /// Get all legal turns.
    fn turns(&self) -> (r: Vec<Self::Turn>)
        requires
            self.wf(),
        ensures
            r@ == self.legal_turns(),
            self.is_over() ==> r@.len() == 0,
    ;

    /// Play a turn of the game.
    fn play(&mut self, turn: Self::Turn)
        requires
            old(self).wf(),
        ensures
            final(self).wf(),
            old(self).played(turn, *final(self)),
            old(self).legal_turns().contains(turn) ==> final(self).moves_left() < old(
                self,
            ).moves_left(),
    ;

    /// Check if the game is over.
    fn over(&self) -> (r: bool)
        requires
            self.wf(),
        ensures
            r == self.is_over(),
    ;

    /// Get the winner of the game, `None` while it goes on or on a tie.
    fn winner(&self) -> (r: Option<Self::Player>)
        requires
            self.wf(),
        ensures
            r == self.outcome(),
    ;
}

} // verus!
