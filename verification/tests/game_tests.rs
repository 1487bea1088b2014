use beggar::card::Card;
use beggar::game::simulate_game;
use std::collections::VecDeque;

fn deal(h1: &[Card], h2: &[Card]) -> (VecDeque<Card>, VecDeque<Card>, VecDeque<Card>) {
    (h1.iter().copied().collect(), h2.iter().copied().collect(), VecDeque::new())
}

#[test]
fn empty_first_hand_ends_immediately() {
    let (mut p1, mut p2, mut pile) = deal(&[], &[Card::Ace]);
    assert_eq!(simulate_game(&mut p1, &mut p2, &mut pile), (1, false));
}

#[test]
fn lone_blank_empties_the_hand() {
    let (mut p1, mut p2, mut pile) = deal(&[Card::Blank], &[Card::Ace]);
    assert_eq!(simulate_game(&mut p1, &mut p2, &mut pile), (1, false));
}

#[test]
fn payment_that_empties_the_payer_is_terminal() {
    // Turn 1: player 1 plays the jack. Turn 2: player 2 reveals their one
    // blank and runs out while paying.
    let (mut p1, mut p2, mut pile) = deal(&[Card::Jack], &[Card::Blank]);
    assert_eq!(simulate_game(&mut p1, &mut p2, &mut pile), (2, false));
}

#[test]
fn full_payment_hands_the_pile_over() {
    // Turn 1: player 1 plays the jack. Turn 2: player 2 pays one blank in
    // full, so player 1 picks up [jack, blank]. Turn 3: player 1 replays the
    // jack. Turn 4: player 2 reveals their last blank and runs out.
    let (mut p1, mut p2, mut pile) = deal(&[Card::Jack], &[Card::Blank, Card::Blank]);
    assert_eq!(simulate_game(&mut p1, &mut p2, &mut pile), (4, false));
}

#[test]
fn interrupting_face_flips_the_payment() {
    // Turn 1: player 1 plays the queen, so player 2 must pay two. Turn 2:
    // player 2's first revealed card is a jack, which interrupts the payment
    // and makes player 1 pay one instead. Turn 3: player 1 reveals their
    // last blank and runs out while paying.
    let (mut p1, mut p2, mut pile) = deal(
        &[Card::Queen, Card::Blank],
        &[Card::Jack, Card::Blank],
    );
    assert_eq!(simulate_game(&mut p1, &mut p2, &mut pile), (3, false));
}

#[test]
fn simulator_is_deterministic() {
    let h1 = [Card::Queen, Card::Blank, Card::Jack, Card::Blank, Card::King];
    let h2 = [Card::Blank, Card::Ace, Card::Blank, Card::Blank, Card::Jack];
    let (mut a1, mut a2, mut ap) = deal(&h1, &h2);
    let (mut b1, mut b2, mut bp) = deal(&h1, &h2);
    let first = simulate_game(&mut a1, &mut a2, &mut ap);
    let second = simulate_game(&mut b1, &mut b2, &mut bp);
    assert_eq!(first, second);
}

#[test]
fn canonical_seed_regression_oracle() {
    // The deal decoded from the canonical seed simulates to this fixed pair,
    // recorded once as a regression oracle.
    let seed: Vec<char> =
        "------------------------------------JJJJQQQQKKKKAAAA".chars().collect();
    let mut p1: VecDeque<Card> = VecDeque::new();
    let mut p2: VecDeque<Card> = VecDeque::new();
    let mut pile: VecDeque<Card> = VecDeque::new();
    beggar::codec::get_players_from_hash(&seed, &mut p1, &mut p2);
    let (turns, suspicious) = simulate_game(&mut p1, &mut p2, &mut pile);
    assert_eq!((turns, suspicious), (39, false));
}
