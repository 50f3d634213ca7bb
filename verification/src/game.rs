//! The abstract capability a game must offer the engine.
//!
//! The engine is generic over the game. Moves and player tags are encoded as
//! plain `u64` values chosen by the game; payoffs are non-negative fixed-point
//! numbers in micro units (see [`crate::fixed::SCALE`]). A game describes
//! itself to the verifier through the spec functions of this trait, and every
//! executable operation is tied to those spec functions by its contract.

use vstd::prelude::*;
use crate::rng::random_below;

verus! {

/// The contract between a game implementation and the search engine.
pub trait Game: Sized {
    /// Well-formedness of a state.
    spec fn inv(&self) -> bool;

    /// Whether the state is terminal.
    spec fn is_terminal(&self) -> bool;

    /// The legal moves of the current (determinized) state, without duplicates.
    spec fn legal_moves(&self) -> Seq<u64>;

    /// The player about to move.
    spec fn cur_player(&self) -> u64;

    /// The player who will move after the current player acts.
    spec fn next_player_spec(&self) -> u64;

    /// The state reached by applying the legal move `mov`.
    spec fn apply_move_spec(&self, mov: u64) -> Self;

    /// The payoff for `player` in a terminal state, in micro units.
    spec fn result_spec(&self, player: u64) -> u64;

    /// An upper bound on the number of moves still to be played. It strictly
    /// decreases with every applied move, which is what makes playouts finite.
    spec fn remaining(&self) -> nat;

    /// A state is terminal exactly when it has no legal moves.
    proof fn lemma_terminal_iff_no_moves(&self)
        requires
            self.inv(),
        ensures
            self.is_terminal() <==> self.legal_moves().len() == 0,
    ;

    /// An exact copy of the state. Games are cheaply copyable by design.
    fn duplicate(&self) -> (r: Self)
        requires
            self.inv(),
        ensures
            r == *self,
    ;

    /// Replace hidden information with a fresh sample consistent with what
    /// `observer` knows. It must not change what the observer already knows:
    /// terminality, whose turn it is, and — when the observer is the player
    /// to move — that player's set of legal moves.
    fn randomize_determination(&mut self, observer: u64)
        requires
            old(self).inv(),
        ensures
            final(self).inv(),
            final(self).is_terminal() == old(self).is_terminal(),
            final(self).cur_player() == old(self).cur_player(),
            final(self).next_player_spec() == old(self).next_player_spec(),
            observer == old(self).cur_player() ==> final(self).legal_moves()
                == old(self).legal_moves(),
    ;

    /// The player about to move.
    fn current_player(&self) -> (r: u64)
        requires
            self.inv(),
        ensures
            r == self.cur_player(),
    ;

    /// The player who will move after the current player acts.
    fn next_player(&self) -> (r: u64)
        requires
            self.inv(),
        ensures
            r == self.next_player_spec(),
    ;

    /// The legal moves in the current state; empty exactly when terminal.
    fn available_moves(&self) -> (r: Vec<u64>)
        requires
            self.inv(),
        ensures
            r@ == self.legal_moves(),
            r@.no_duplicates(),
    ;

    /// Apply a legal move.
    fn make_move(&mut self, mov: u64)
        requires
            old(self).inv(),
            !old(self).is_terminal(),
            old(self).legal_moves().contains(mov),
        ensures
            final(self).inv(),
            *final(self) == old(self).apply_move_spec(mov),
            final(self).remaining() < old(self).remaining(),
    ;

    /// The payoff for `player`, present exactly when the state is terminal.
    fn result(&self, player: u64) -> (r: Option<u64>)
        requires
            self.inv(),
        ensures
            r is Some <==> self.is_terminal(),
            r is Some ==> r.unwrap() == self.result_spec(player),
    ;
}

/// `to` arises from `from` by playing at most `fuel` legal moves.
pub open spec fn reachable<G: Game>(from: G, to: G, fuel: nat) -> bool
    decreases fuel,
{
    ||| from == to
    ||| (fuel > 0 && !from.is_terminal() && exists|m: u64|
        #[trigger] from.legal_moves().contains(m) && reachable(
            from.apply_move_spec(m),
            to,
            (fuel - 1) as nat,
        ))
}

/// Spare fuel does not hurt: reachability is monotone in the bound.
pub proof fn lemma_reachable_mono<G: Game>(from: G, to: G, f: nat, g: nat)
    requires
        reachable(from, to, f),
        f <= g,
    ensures
        reachable(from, to, g),
    decreases f,
{
    if from != to {
        let m = choose|m: u64|
            #[trigger] from.legal_moves().contains(m) && reachable(
                from.apply_move_spec(m),
                to,
                (f - 1) as nat,
            );
        lemma_reachable_mono(from.apply_move_spec(m), to, (f - 1) as nat, (g - 1) as nat);
    }
}

/// One more legal move extends a reachable play by one step of fuel.
pub proof fn lemma_reachable_step<G: Game>(from: G, mid: G, f: nat, m: u64)
    requires
        reachable(from, mid, f),
        !mid.is_terminal(),
        mid.legal_moves().contains(m),
    ensures
        reachable(from, mid.apply_move_spec(m), f + 1),
    decreases f,
{
    if from == mid {
        assert(reachable(mid.apply_move_spec(m), mid.apply_move_spec(m), f));
    } else {
        let m0 = choose|m0: u64|
            #[trigger] from.legal_moves().contains(m0) && reachable(
                from.apply_move_spec(m0),
                mid,
                (f - 1) as nat,
            );
        lemma_reachable_step(from.apply_move_spec(m0), mid, (f - 1) as nat, m);
    }
}

/// Reachable plays compose, with their fuels added.
pub proof fn lemma_reachable_trans<G: Game>(a: G, b: G, c: G, f1: nat, f2: nat)
    requires
        reachable(a, b, f1),
        reachable(b, c, f2),
    ensures
        reachable(a, c, (f1 + f2) as nat),
    decreases f1,
{
    if a == b {
        lemma_reachable_mono(b, c, f2, (f1 + f2) as nat);
    } else {
        let m = choose|m: u64|
            #[trigger] a.legal_moves().contains(m) && reachable(
                a.apply_move_spec(m),
                b,
                (f1 - 1) as nat,
            );
        lemma_reachable_trans(a.apply_move_spec(m), b, c, (f1 - 1) as nat, f2);
    }
}

/// Uniform random playout: while the state is not terminal, pick a legal move
/// uniformly at random and apply it. On exit the state is terminal; the
/// result arises from the start state by legal moves only.
pub fn random_rollout<G: Game>(state: &mut G)
    requires
        old(state).inv(),
    ensures
        final(state).inv(),
        final(state).is_terminal(),
        old(state).is_terminal() ==> *final(state) == *old(state),
        final(state).remaining() <= old(state).remaining(),
        reachable(
            *old(state),
            *final(state),
            (old(state).remaining() - final(state).remaining()) as nat,
        ),
        reachable(*old(state), *final(state), old(state).remaining()),
{
    proof {
        state.lemma_terminal_iff_no_moves();
    }
    let mut moves = state.available_moves();
    while moves.len() > 0
        invariant
            state.inv(),
            moves@ == state.legal_moves(),
            old(state).is_terminal() ==> *state == *old(state),
            state.remaining() <= old(state).remaining(),
            reachable(
                *old(state),
                *state,
                (old(state).remaining() - state.remaining()) as nat,
            ),
        decreases state.remaining(),
    {
        proof {
            if old(state).is_terminal() {
                state.lemma_terminal_iff_no_moves();
                assert(state.legal_moves().len() == 0);
            }
        }
        let i = random_below(moves.len() as u64) as usize;
        let mov = moves[i];
        let ghost pre = *state;
        proof {
            state.lemma_terminal_iff_no_moves();
            assert(state.legal_moves().contains(mov));
        }
        state.make_move(mov);
        proof {
            lemma_reachable_step(
                *old(state),
                pre,
                (old(state).remaining() - pre.remaining()) as nat,
                mov,
            );
            lemma_reachable_mono(
                *old(state),
                *state,
                ((old(state).remaining() - pre.remaining()) + 1) as nat,
                (old(state).remaining() - state.remaining()) as nat,
            );
        }
        moves = state.available_moves();
    }
    proof {
        state.lemma_terminal_iff_no_moves();
        lemma_reachable_mono(
            *old(state),
            *state,
            (old(state).remaining() - state.remaining()) as nat,
            old(state).remaining(),
        );
    }
}

} // verus!
