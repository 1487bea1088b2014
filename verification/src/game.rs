//! The deterministic game simulator: a finite state machine that plays one
//! deal to a terminal state or to the turn cutoff.

use vstd::prelude::*;
use std::collections::VecDeque;
use crate::card::Card;

verus! {

/// A simulation that has not reached a terminal state after this many turns
/// is cut off and reported as suspicious.
pub const TURN_CUTOFF: usize = 10000;

/// The state of the machine between turns: which player acts next, and
/// whether they draw freely or must pay the given number of cards.
#[derive(Copy, Clone, PartialEq, Eq, Structural, Debug)]
pub enum GameState {
    Player1Draw,
    Player2Draw,
    Player1Pay(usize),
    Player2Pay(usize),
}

/// How one pay sequence ended.
#[derive(Copy, Clone, PartialEq, Eq, Structural, Debug)]
pub enum PayKind {
    /// The payer's hand ran out: the game is over.
    Emptied,
    /// A revealed face symbol interrupted the payment: the other player must
    /// now pay that symbol's amount.
    Interrupted,
    /// All cards were revealed without interruption: the payment is in full
    /// and the pile goes to the opponent.
    Full,
}

/// One pay sequence: reveal up to `amount` cards from the front of `hand`
/// onto `pile`. Yields how the sequence ended, the remaining hand, the grown
/// pile, and — for an interruption — the amount the opponent must now pay.
pub open spec fn pay_spec(hand: Seq<Card>, pile: Seq<Card>, amount: nat) -> (
    PayKind,
    Seq<Card>,
    Seq<Card>,
    nat,
)
    decreases amount,
{
    if amount == 0 {
        (PayKind::Full, hand, pile, 0nat)
    } else if hand.len() == 0 {
        (PayKind::Emptied, hand, pile, 0nat)
    } else {
        let c = hand[0];
        let hand2 = hand.drop_first();
        let pile2 = pile.push(c);
        if c is Blank {
            if hand2.len() > 0 {
                pay_spec(hand2, pile2, (amount - 1) as nat)
            } else {
                (PayKind::Emptied, hand2, pile2, 0nat)
            }
        } else {
            (PayKind::Interrupted, hand2, pile2, c.ordinal())
        }
    }
}

/// The rest of a game from the given configuration. `turns` counts the turns
/// already taken; the result is the final turn count and whether the cutoff
/// was hit. Every step increments the turn count once, whichever branch the
/// machine takes.
pub open spec fn run_spec(
    state: GameState,
    h1: Seq<Card>,
    h2: Seq<Card>,
    pile: Seq<Card>,
    turns: nat,
) -> (nat, bool)
    decreases TURN_CUTOFF - turns,
{
    let t = (turns + 1) as nat;
    match state {
        GameState::Player1Draw => {
            if h1.len() == 0 {
                (t, false)
            } else {
                let c = h1[0];
                let h1p = h1.drop_first();
                let pilep = pile.push(c);
                if c is Blank {
                    if h1p.len() > 0 {
                        if t < TURN_CUTOFF {
                            run_spec(GameState::Player2Draw, h1p, h2, pilep, t)
                        } else {
                            (t, true)
                        }
                    } else {
                        (t, false)
                    }
                } else {
                    if t < TURN_CUTOFF {
                        run_spec(GameState::Player2Pay(c.ordinal() as usize), h1p, h2, pilep, t)
                    } else {
                        (t, true)
                    }
                }
            }
        },
        GameState::Player2Draw => {
            if h2.len() == 0 {
                (t, false)
            } else {
                let c = h2[0];
                let h2p = h2.drop_first();
                let pilep = pile.push(c);
                if c is Blank {
                    if h2p.len() > 0 {
                        if t < TURN_CUTOFF {
                            run_spec(GameState::Player1Draw, h1, h2p, pilep, t)
                        } else {
                            (t, true)
                        }
                    } else {
                        (t, false)
                    }
                } else {
                    if t < TURN_CUTOFF {
                        run_spec(GameState::Player1Pay(c.ordinal() as usize), h1, h2p, pilep, t)
                    } else {
                        (t, true)
                    }
                }
            }
        },
        GameState::Player1Pay(amount) => {
            let (kind, h1p, pilep, m) = pay_spec(h1, pile, amount as nat);
            match kind {
                PayKind::Emptied => (t, false),
                PayKind::Interrupted => {
                    if t < TURN_CUTOFF {
                        run_spec(GameState::Player2Pay(m as usize), h1p, h2, pilep, t)
                    } else {
                        (t, true)
                    }
                },
                PayKind::Full => {
                    if t < TURN_CUTOFF {
                        run_spec(GameState::Player2Draw, h1p, h2 + pilep, Seq::empty(), t)
                    } else {
                        (t, true)
                    }
                },
            }
        },
        GameState::Player2Pay(amount) => {
            let (kind, h2p, pilep, m) = pay_spec(h2, pile, amount as nat);
            match kind {
                PayKind::Emptied => (t, false),
                PayKind::Interrupted => {
                    if t < TURN_CUTOFF {
                        run_spec(GameState::Player1Pay(m as usize), h1, h2p, pilep, t)
                    } else {
                        (t, true)
                    }
                },
                PayKind::Full => {
                    if t < TURN_CUTOFF {
                        run_spec(GameState::Player1Draw, h1 + pilep, h2p, Seq::empty(), t)
                    } else {
                        (t, true)
                    }
                },
            }
        },
    }
}

/// The outcome of one whole game: player 1 draws first, the turn counter
/// starts at zero. A pure function of the deal, which is what makes the
/// simulator deterministic.
pub open spec fn simulate_spec(h1: Seq<Card>, h2: Seq<Card>, pile: Seq<Card>) -> (nat, bool) {
    run_spec(GameState::Player1Draw, h1, h2, pile, 0)
}

/// Reveals up to `amount` cards from the front of `hand` onto the back of
/// `pile`, exactly as [`pay_spec`] describes; returns how the sequence ended
/// and, for an interruption, the amount the opponent must pay.
fn pay_exec(hand: &mut VecDeque<Card>, pile: &mut VecDeque<Card>, amount: usize) -> (r: (
    PayKind,
    usize,
))
    ensures
        ({
            let (kind, handp, pilep, m) = pay_spec(old(hand)@, old(pile)@, amount as nat);
            &&& final(hand)@ == handp
            &&& final(pile)@ == pilep
            &&& r.0 == kind
            &&& r.1 == m
            &&& m <= 4
        }),
    decreases amount,
{
    if amount == 0 {
        return (PayKind::Full, 0);
    }
    if let Some(card) = hand.pop_front() {
        pile.push_back(card);
        if card == Card::Blank {
            if hand.len() > 0 {
                pay_exec(hand, pile, amount - 1)
            } else {
                (PayKind::Emptied, 0)
            }
        } else {
            (PayKind::Interrupted, card.value())
        }
    } else {
        (PayKind::Emptied, 0)
    }
}

/// Drains the whole pile, oldest card first, onto the back of `hand`: the
/// winner of a completed pay sequence picks the pile up in the order it was
/// discarded.
fn transfer_pile(pile: &mut VecDeque<Card>, hand: &mut VecDeque<Card>)
    ensures
        final(pile)@ == Seq::<Card>::empty(),
        final(hand)@ == old(hand)@ + old(pile)@,
{
    let ghost h0 = hand@;
    let ghost p0 = pile@;
    loop
        invariant
            hand@ + pile@ == h0 + p0,
        ensures
            pile@.len() == 0,
            hand@ + pile@ == h0 + p0,
        decreases pile@.len(),
    {
        let ghost pile_before = pile@;
        let popped = pile.pop_front();
        match popped {
            Some(card) => {
                proof {
                    assert(seq![card] + pile@ =~= pile_before);
                }
                let ghost hand_before = hand@;
                let ghost pile_after = pile@;
                hand.push_back(card);
                proof {
                    assert(hand@ + pile@ =~= hand_before + (seq![card] + pile_after));
                }
            },
            None => {
                break ;
            },
        }
    }
    proof {
        assert(hand@ =~= hand@ + pile@);
        assert(hand@ == h0 + p0);
    }
}

/// Simulates one deal from the given hands (and an initial discard pile,
/// normally empty) until a terminal state or the turn cutoff. Returns the
/// number of turns taken and whether the game was cut off as suspicious —
/// exactly the pair [`simulate_spec`] assigns to the deal.
pub fn simulate_game(
    player1: &mut VecDeque<Card>,
    player2: &mut VecDeque<Card>,
    discard_pile: &mut VecDeque<Card>,
) -> (r: (usize, bool))
    ensures
        (r.0 as nat, r.1) == simulate_spec(old(player1)@, old(player2)@, old(discard_pile)@),
        1 <= r.0 <= TURN_CUTOFF,
{
    let ghost target = simulate_spec(player1@, player2@, discard_pile@);
    let mut turns: usize = 0;
    let mut game_state = GameState::Player1Draw;
    let mut outcome: Option<bool> = None;
    while outcome.is_none()
        invariant
            turns <= TURN_CUTOFF,
            outcome is None ==> turns < TURN_CUTOFF,
            outcome is None ==> run_spec(game_state, player1@, player2@, discard_pile@, turns as nat)
                == target,
            outcome matches Some(s) ==> target == (turns as nat, s),
            outcome is Some ==> 1 <= turns,
        decreases TURN_CUTOFF - turns,
    {
        turns += 1;
        match game_state {
            GameState::Player1Draw => {
                if let Some(card) = player1.pop_front() {
                    discard_pile.push_back(card);
                    if card == Card::Blank {
                        if player1.len() > 0 {
                            game_state = GameState::Player2Draw;
                        } else {
                            outcome = Some(false);
                        }
                    } else {
                        game_state = GameState::Player2Pay(card.value());
                    }
                } else {
                    outcome = Some(false);
                }
            },
            GameState::Player2Draw => {
                if let Some(card) = player2.pop_front() {
                    discard_pile.push_back(card);
                    if card == Card::Blank {
                        if player2.len() > 0 {
                            game_state = GameState::Player1Draw;
                        } else {
                            outcome = Some(false);
                        }
                    } else {
                        game_state = GameState::Player1Pay(card.value());
                    }
                } else {
                    outcome = Some(false);
                }
            },
            GameState::Player1Pay(amount) => {
                let (kind, m) = pay_exec(player1, discard_pile, amount);
                match kind {
                    PayKind::Emptied => {
                        outcome = Some(false);
                    },
                    PayKind::Interrupted => {
                        game_state = GameState::Player2Pay(m);
                    },
                    PayKind::Full => {
                        game_state = GameState::Player2Draw;
                        transfer_pile(discard_pile, player2);
                    },
                }
            },
            GameState::Player2Pay(amount) => {
                let (kind, m) = pay_exec(player2, discard_pile, amount);
                match kind {
                    PayKind::Emptied => {
                        outcome = Some(false);
                    },
                    PayKind::Interrupted => {
                        game_state = GameState::Player1Pay(m);
                    },
                    PayKind::Full => {
                        game_state = GameState::Player1Draw;
                        transfer_pile(discard_pile, player1);
                    },
                }
            },
        }
        if outcome.is_none() && turns >= TURN_CUTOFF {
            outcome = Some(true);
        }
    }
    let suspicious = match outcome {
        Some(s) => s,
        None => false,
    };
    (turns, suspicious)
}

/// Determinism of the simulator: the outcome pair is a function of the deal
/// alone, so identical deals always simulate to identical results.
pub proof fn lemma_simulator_deterministic(
    h1a: Seq<Card>,
    h2a: Seq<Card>,
    pa: Seq<Card>,
    h1b: Seq<Card>,
    h2b: Seq<Card>,
    pb: Seq<Card>,
)
    requires
        h1a == h1b,
        h2a == h2b,
        pa == pb,
    ensures
        simulate_spec(h1a, h2a, pa) == simulate_spec(h1b, h2b, pb),
{
}

} // verus!
