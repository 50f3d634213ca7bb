//! Example games for the engine: a degenerate fixed-branching game, Kuhn
//! poker (three cards, two players, one hidden card each) and misère Nim.
//!
//! Moves and player tags are `u64` codes; payoffs are non-negative micro
//! units, shifted where a game's natural payoffs can be negative (a shared
//! shift leaves the selection policy unchanged).

use vstd::prelude::*;
use crate::game::Game;
use crate::fixed::SCALE;
use crate::rng::random_below;

verus! {

/// A two-turn game with ten legal moves `{0..9}` per turn and no hidden
/// information: after two moves the game ends, paying one unit to the player
/// whose tag equals the last move played.
#[derive(Clone, Copy, Debug)]
pub struct TenMoveGame {
    /// How many moves have been played (at most two).
    pub taken: u64,
    /// The last move played; zero before any move.
    pub last: u64,
}

impl TenMoveGame {
    /// The starting position.
    pub fn starting() -> (r: TenMoveGame)
        ensures
            r.inv(),
            !r.is_terminal(),
            r.taken == 0,
    {
        TenMoveGame { taken: 0, last: 0 }
    }
}

impl Game for TenMoveGame {
    open spec fn inv(&self) -> bool {
        self.taken <= 2 && self.last < 10
    }

    open spec fn is_terminal(&self) -> bool {
        self.taken >= 2
    }

    open spec fn legal_moves(&self) -> Seq<u64> {
        if self.taken >= 2 {
            Seq::empty()
        } else {
            Seq::new(10, |i: int| i as u64)
        }
    }

    open spec fn cur_player(&self) -> u64 {
        self.taken % 2
    }

    open spec fn next_player_spec(&self) -> u64 {
        (((self.taken + 1) as int) % 2) as u64
    }

    open spec fn apply_move_spec(&self, mov: u64) -> TenMoveGame {
        TenMoveGame { taken: (self.taken + 1) as u64, last: mov }
    }

    open spec fn result_spec(&self, player: u64) -> u64 {
        if self.last == player {
            SCALE
        } else {
            0
        }
    }

    open spec fn remaining(&self) -> nat {
        if self.taken >= 2 {
            0
        } else {
            (2 - self.taken) as nat
        }
    }

    proof fn lemma_terminal_iff_no_moves(&self) {
    }

    fn duplicate(&self) -> (r: TenMoveGame) {
        *self
    }

    fn randomize_determination(&mut self, observer: u64) {
    }

    fn current_player(&self) -> (r: u64) {
        self.taken % 2
    }

    fn next_player(&self) -> (r: u64) {
        (self.taken + 1) % 2
    }

    fn available_moves(&self) -> (r: Vec<u64>) {
        let mut r: Vec<u64> = Vec::new();
        if self.taken < 2 {
            let mut i: u64 = 0;
            while i < 10
                invariant
                    i <= 10,
                    r@.len() == i,
                    forall|p: int| 0 <= p < i ==> r@[p] == p as u64,
                decreases 10 - i,
            {
                r.push(i);
                i += 1;
            }
            proof {
                assert(r@ =~= self.legal_moves());
            }
        } else {
            proof {
                assert(r@ =~= self.legal_moves());
            }
        }
        r
    }

    fn make_move(&mut self, mov: u64) {
        proof {
            let k = choose|k: int|
                0 <= k < old(self).legal_moves().len() && old(self).legal_moves()[k] == mov;
        }
        self.taken = self.taken + 1;
        self.last = mov;
    }

    fn result(&self, player: u64) -> (r: Option<u64>) {
        if self.taken >= 2 {
            if self.last == player {
                Some(SCALE)
            } else {
                Some(0)
            }
        } else {
            None
        }
    }
}

/// Kuhn poker: each of two players antes one unit and is dealt one of three
/// cards (0, 1, 2, higher wins a showdown); the betting runs check/bet, then
/// call/fold or check, with one raise at most. Moves: 0 check, 1 bet,
/// 2 fold, 3 call. Payoffs are shifted by two units so they stay
/// non-negative: a result of `2 * SCALE` is breaking even.
#[derive(Clone, Copy, Debug)]
pub struct KuhnPoker {
    /// The first player's card.
    pub card0: u64,
    /// The second player's card.
    pub card1: u64,
    /// How many betting actions have been taken (at most three).
    pub h_len: u64,
    /// The first action (check or bet).
    pub h0: u64,
    /// The second action.
    pub h1: u64,
    /// The third action (fold or call after check-bet).
    pub h2: u64,
}

impl KuhnPoker {
    /// A fresh hand with the given distinct cards, before any action.
    pub fn with_cards(card0: u64, card1: u64) -> (r: KuhnPoker)
        requires
            card0 < 3,
            card1 < 3,
            card0 != card1,
        ensures
            r.inv(),
            !r.is_terminal(),
            r.h_len == 0,
            r.card0 == card0,
            r.card1 == card1,
    {
        KuhnPoker { card0, card1, h_len: 0, h0: 0, h1: 0, h2: 0 }
    }

    /// A fresh hand with randomly dealt distinct cards.
    pub fn deal() -> (r: KuhnPoker)
        ensures
            r.inv(),
            !r.is_terminal(),
            r.h_len == 0,
    {
        let card0 = random_below(3);
        let other = random_below(2);
        let card1 = if card0 == 0 {
            1 + other
        } else if card0 == 1 {
            if other == 0 {
                0
            } else {
                2
            }
        } else {
            other
        };
        KuhnPoker { card0, card1, h_len: 0, h0: 0, h1: 0, h2: 0 }
    }

    /// The showdown winner: the player holding the higher card.
    pub open spec fn showdown_winner(&self) -> u64 {
        if self.card0 > self.card1 {
            0
        } else {
            1
        }
    }

    /// The first player's payoff in plain units, before the shift.
    pub open spec fn payoff0(&self) -> int {
        if self.h_len == 2 && self.h0 == 0 && self.h1 == 0 {
            // check-check: showdown for one unit.
            if self.showdown_winner() == 0 {
                1
            } else {
                -1
            }
        } else if self.h_len == 2 && self.h0 == 1 && self.h1 == 2 {
            // bet-fold: the second player yields one unit.
            1
        } else if self.h_len == 2 && self.h0 == 1 && self.h1 == 3 {
            // bet-call: showdown for two units.
            if self.showdown_winner() == 0 {
                2
            } else {
                -2
            }
        } else if self.h_len == 3 && self.h2 == 2 {
            // check-bet-fold: the first player yields one unit.
            -1
        } else if self.h_len == 3 && self.h2 == 3 {
            // check-bet-call: showdown for two units.
            if self.showdown_winner() == 0 {
                2
            } else {
                -2
            }
        } else {
            0
        }
    }
}

impl Game for KuhnPoker {
    open spec fn inv(&self) -> bool {
        &&& self.card0 < 3
        &&& self.card1 < 3
        &&& self.card0 != self.card1
        &&& self.h_len <= 3
        &&& (self.h_len >= 1 ==> (self.h0 == 0 || self.h0 == 1))
        &&& (self.h_len >= 2 ==> (if self.h0 == 0 {
            self.h1 == 0 || self.h1 == 1
        } else {
            self.h1 == 2 || self.h1 == 3
        }))
        &&& (self.h_len >= 3 ==> self.h0 == 0 && self.h1 == 1 && (self.h2 == 2 || self.h2 == 3))
    }

    open spec fn is_terminal(&self) -> bool {
        ||| self.h_len == 3
        ||| (self.h_len == 2 && !(self.h0 == 0 && self.h1 == 1))
    }

    open spec fn legal_moves(&self) -> Seq<u64> {
        if self.is_terminal() {
            Seq::empty()
        } else if self.h_len == 0 {
            seq![0u64, 1u64]
        } else if self.h_len == 1 && self.h0 == 0 {
            seq![0u64, 1u64]
        } else {
            // Facing a bet: fold or call.
            seq![2u64, 3u64]
        }
    }

    open spec fn cur_player(&self) -> u64 {
        self.h_len % 2
    }

    open spec fn next_player_spec(&self) -> u64 {
        (((self.h_len + 1) as int) % 2) as u64
    }

    open spec fn apply_move_spec(&self, mov: u64) -> KuhnPoker {
        if self.h_len == 0 {
            KuhnPoker { h_len: 1, h0: mov, ..*self }
        } else if self.h_len == 1 {
            KuhnPoker { h_len: 2, h1: mov, ..*self }
        } else {
            KuhnPoker { h_len: 3, h2: mov, ..*self }
        }
    }

    open spec fn result_spec(&self, player: u64) -> u64 {
        if player == 0 {
            ((2 + self.payoff0()) * SCALE) as u64
        } else {
            ((2 - self.payoff0()) * SCALE) as u64
        }
    }

    open spec fn remaining(&self) -> nat {
        if self.h_len >= 3 {
            0
        } else {
            (3 - self.h_len) as nat
        }
    }

    proof fn lemma_terminal_iff_no_moves(&self) {
    }

    fn duplicate(&self) -> (r: KuhnPoker) {
        *self
    }

    fn randomize_determination(&mut self, observer: u64) {
        let other = random_below(2);
        if observer == 0 {
            // Resample the opponent's hidden card.
            self.card1 = pick_other_card(self.card0, other);
        } else {
            self.card0 = pick_other_card(self.card1, other);
        }
    }

    fn current_player(&self) -> (r: u64) {
        self.h_len % 2
    }

    fn next_player(&self) -> (r: u64) {
        (self.h_len + 1) % 2
    }

    fn available_moves(&self) -> (r: Vec<u64>) {
        let mut r: Vec<u64> = Vec::new();
        if self.h_len == 3 || (self.h_len == 2 && !(self.h0 == 0 && self.h1 == 1)) {
        } else if self.h_len == 0 || (self.h_len == 1 && self.h0 == 0) {
            r.push(0);
            r.push(1);
        } else {
            r.push(2);
            r.push(3);
        }
        proof {
            assert(r@ =~= self.legal_moves());
        }
        r
    }

    fn make_move(&mut self, mov: u64) {
        proof {
            let k = choose|k: int|
                0 <= k < old(self).legal_moves().len() && old(self).legal_moves()[k] == mov;
        }
        if self.h_len == 0 {
            self.h0 = mov;
            self.h_len = 1;
        } else if self.h_len == 1 {
            self.h1 = mov;
            self.h_len = 2;
        } else {
            self.h2 = mov;
            self.h_len = 3;
        }
    }

    fn result(&self, player: u64) -> (r: Option<u64>) {
        if self.h_len == 3 || (self.h_len == 2 && !(self.h0 == 0 && self.h1 == 1)) {
            let won = if self.card0 > self.card1 {
                0u64
            } else {
                1u64
            };
            let p0: u64 = if self.h_len == 2 && self.h0 == 0 && self.h1 == 0 {
                if won == 0 {
                    3 * SCALE
                } else {
                    1 * SCALE
                }
            } else if self.h_len == 2 && self.h0 == 1 && self.h1 == 2 {
                3 * SCALE
            } else if self.h_len == 2 && self.h0 == 1 && self.h1 == 3 {
                if won == 0 {
                    4 * SCALE
                } else {
                    0
                }
            } else if self.h_len == 3 && self.h2 == 2 {
                1 * SCALE
            } else {
                if won == 0 {
                    4 * SCALE
                } else {
                    0
                }
            };
            if player == 0 {
                Some(p0)
            } else {
                Some(4 * SCALE - p0)
            }
        } else {
            None
        }
    }
}

/// The `other`-th (0 or 1) card of the two cards different from `held`.
fn pick_other_card(held: u64, other: u64) -> (r: u64)
    requires
        held < 3,
        other < 2,
    ensures
        r < 3,
        r != held,
{
    if held == 0 {
        1 + other
    } else if held == 1 {
        if other == 0 {
            0
        } else {
            2
        }
    } else {
        other
    }
}

/// Misère Nim over four heaps: a move takes one or more objects from one
/// heap, and the player who takes the last object loses. A move is encoded
/// as `heap * 256 + amount`.
#[derive(Clone, Copy, Debug)]
pub struct MisereNim {
    /// The four heap sizes, each at most 255.
    pub h0: u64,
    pub h1: u64,
    pub h2: u64,
    pub h3: u64,
    /// The player to move (0 or 1).
    pub to_move: u64,
}

impl MisereNim {
    /// A fresh position with the given heaps, first player to move.
    pub fn starting(h0: u64, h1: u64, h2: u64, h3: u64) -> (r: MisereNim)
        requires
            h0 <= 255,
            h1 <= 255,
            h2 <= 255,
            h3 <= 255,
        ensures
            r.inv(),
            r.h0 == h0 && r.h1 == h1 && r.h2 == h2 && r.h3 == h3,
            r.to_move == 0,
    {
        MisereNim { h0, h1, h2, h3, to_move: 0 }
    }

    /// The size of heap `i`.
    pub open spec fn heap(&self, i: int) -> u64 {
        if i == 0 {
            self.h0
        } else if i == 1 {
            self.h1
        } else if i == 2 {
            self.h2
        } else {
            self.h3
        }
    }

    /// The legal takes from heap `i`: `i * 256 + 1` up to `i * 256 + heap(i)`.
    pub open spec fn heap_moves(&self, i: int) -> Seq<u64> {
        Seq::new(self.heap(i) as nat, |t: int| (i * 256 + t + 1) as u64)
    }
}

impl Game for MisereNim {
    open spec fn inv(&self) -> bool {
        self.h0 <= 255 && self.h1 <= 255 && self.h2 <= 255 && self.h3 <= 255 && self.to_move <= 1
    }

    open spec fn is_terminal(&self) -> bool {
        self.h0 == 0 && self.h1 == 0 && self.h2 == 0 && self.h3 == 0
    }

    open spec fn legal_moves(&self) -> Seq<u64> {
        self.heap_moves(0) + self.heap_moves(1) + self.heap_moves(2) + self.heap_moves(3)
    }

    open spec fn cur_player(&self) -> u64 {
        self.to_move
    }

    open spec fn next_player_spec(&self) -> u64 {
        (1 - self.to_move) as u64
    }

    open spec fn apply_move_spec(&self, mov: u64) -> MisereNim {
        let i = mov / 256;
        let t = mov % 256;
        if i == 0 {
            MisereNim { h0: (self.h0 - t) as u64, to_move: (1 - self.to_move) as u64, ..*self }
        } else if i == 1 {
            MisereNim { h1: (self.h1 - t) as u64, to_move: (1 - self.to_move) as u64, ..*self }
        } else if i == 2 {
            MisereNim { h2: (self.h2 - t) as u64, to_move: (1 - self.to_move) as u64, ..*self }
        } else {
            MisereNim { h3: (self.h3 - t) as u64, to_move: (1 - self.to_move) as u64, ..*self }
        }
    }

    open spec fn result_spec(&self, player: u64) -> u64 {
        // Misère: at the end it is the loser's opponent's turn, because the
        // player who took the last object loses and turns alternate.
        if player == self.to_move {
            SCALE
        } else {
            0
        }
    }

    open spec fn remaining(&self) -> nat {
        (self.h0 + self.h1 + self.h2 + self.h3) as nat
    }

    proof fn lemma_terminal_iff_no_moves(&self) {
        if self.legal_moves().len() == 0 {
            assert(self.heap_moves(0).len() == 0);
            assert(self.heap_moves(1).len() == 0);
            assert(self.heap_moves(2).len() == 0);
            assert(self.heap_moves(3).len() == 0);
        }
    }

    fn duplicate(&self) -> (r: MisereNim) {
        *self
    }

    fn randomize_determination(&mut self, observer: u64) {
    }

    fn current_player(&self) -> (r: u64) {
        self.to_move
    }

    fn next_player(&self) -> (r: u64) {
        1 - self.to_move
    }

    fn available_moves(&self) -> (r: Vec<u64>) {
        let mut r: Vec<u64> = Vec::new();
        push_heap_moves(&mut r, 0, self.h0);
        push_heap_moves(&mut r, 1, self.h1);
        push_heap_moves(&mut r, 2, self.h2);
        push_heap_moves(&mut r, 3, self.h3);
        proof {
            assert(r@ =~= self.legal_moves());
            lemma_nim_moves_no_duplicates(*self);
        }
        r
    }

    fn make_move(&mut self, mov: u64) {
        proof {
            lemma_nim_move_bounds(*old(self), mov);
        }
        let i = mov / 256;
        let t = mov % 256;
        if i == 0 {
            self.h0 = self.h0 - t;
        } else if i == 1 {
            self.h1 = self.h1 - t;
        } else if i == 2 {
            self.h2 = self.h2 - t;
        } else {
            self.h3 = self.h3 - t;
        }
        self.to_move = 1 - self.to_move;
    }

    fn result(&self, player: u64) -> (r: Option<u64>) {
        if self.h0 == 0 && self.h1 == 0 && self.h2 == 0 && self.h3 == 0 {
            if player == self.to_move {
                Some(SCALE)
            } else {
                Some(0)
            }
        } else {
            proof {
                self.lemma_terminal_iff_no_moves();
            }
            None
        }
    }
}

/// Append the takes from heap `i` of size `h` to `r`.
fn push_heap_moves(r: &mut Vec<u64>, i: u64, h: u64)
    requires
        i < 4,
        h <= 255,
    ensures
        final(r)@ == old(r)@ + Seq::new(h as nat, |t: int| (i * 256 + t + 1) as u64),
{
    let ghost base = r@;
    let ghost goal = Seq::new(h as nat, |t: int| (i as int * 256 + t + 1) as u64);
    let mut t: u64 = 0;
    while t < h
        invariant
            i < 4,
            h <= 255,
            t <= h,
            goal == Seq::new(h as nat, |t2: int| (i as int * 256 + t2 + 1) as u64),
            r@.len() == base.len() + t,
            forall|p: int| 0 <= p < base.len() ==> r@[p] == base[p],
            forall|p: int|
                0 <= p < t ==> r@[base.len() + p] == goal[p],
        decreases h - t,
    {
        r.push(i * 256 + t + 1);
        t += 1;
    }
    proof {
        assert(r@ =~= base + goal);
    }
}

/// A legal Nim move decodes to a valid heap index and a feasible take.
proof fn lemma_nim_move_bounds(s: MisereNim, mov: u64)
    requires
        s.inv(),
        s.legal_moves().contains(mov),
    ensures
        mov / 256 < 4,
        1 <= mov % 256 <= s.heap((mov / 256) as int),
{
    let k = choose|k: int| 0 <= k < s.legal_moves().len() && s.legal_moves()[k] == mov;
    let l01 = s.heap_moves(0) + s.heap_moves(1);
    let l012 = l01 + s.heap_moves(2);
    if k < s.heap_moves(0).len() {
        assert(mov == s.heap_moves(0)[k]);
    } else if k < l01.len() {
        assert(mov == s.heap_moves(1)[k - s.heap_moves(0).len()]);
    } else if k < l012.len() {
        assert(mov == s.heap_moves(2)[k - l01.len()]);
    } else {
        assert(mov == s.heap_moves(3)[k - l012.len()]);
    }
}

/// Nim move codes are pairwise distinct: the heap index and the amount are
/// both recoverable from the code.
proof fn lemma_nim_moves_no_duplicates(s: MisereNim)
    requires
        s.inv(),
    ensures
        s.legal_moves().no_duplicates(),
{
    let l = s.legal_moves();
    assert forall|p: int, q: int| 0 <= p < q < l.len() implies l[p] != l[q] by {
        lemma_nim_index(s, p);
        lemma_nim_index(s, q);
    };
}

/// The move at position `p` of the legal move list, decoded.
proof fn lemma_nim_index(s: MisereNim, p: int)
    requires
        s.inv(),
        0 <= p < s.legal_moves().len(),
    ensures
        ({
            let l01 = s.heap_moves(0) + s.heap_moves(1);
            let l012 = l01 + s.heap_moves(2);
            if p < s.heap_moves(0).len() {
                s.legal_moves()[p] == p + 1
            } else if p < l01.len() {
                s.legal_moves()[p] == 256 + (p - s.heap_moves(0).len()) + 1
            } else if p < l012.len() {
                s.legal_moves()[p] == 512 + (p - l01.len()) + 1
            } else {
                s.legal_moves()[p] == 768 + (p - l012.len()) + 1
            }
        }),
{
}

} // verus!
