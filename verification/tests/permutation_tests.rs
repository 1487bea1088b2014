use beggar::card::Card;
use beggar::codec::{get_array_from_hash, get_hash_from_array};
use beggar::permutation::{has_next_permutation, next_permutation};

const SEED: &str = "------------------------------------JJJJQQQQKKKKAAAA";

fn chars(s: &str) -> Vec<char> {
    s.chars().collect()
}

fn text(v: &[char]) -> String {
    v.iter().collect()
}

fn composition(deck: &[Card]) -> [usize; 5] {
    let mut counts = [0usize; 5];
    for c in deck {
        counts[c.value()] += 1;
    }
    counts
}

#[test]
fn successor_of_seed() {
    let mut deck = get_array_from_hash(&chars(SEED));
    assert!(has_next_permutation(&mut deck));
    let mut hash: Vec<char> = Vec::new();
    get_hash_from_array(&deck, &mut hash);
    assert_eq!(text(&hash), "------------------------------------JJJJQQQQKKKAKAAA");
}

#[test]
fn composition_preserved_over_many_steps() {
    let mut deck = get_array_from_hash(&chars(SEED));
    let expected = [36, 4, 4, 4, 4];
    assert_eq!(composition(&deck), expected);
    for _ in 0..1000 {
        assert!(next_permutation(&mut deck));
        assert_eq!(composition(&deck), expected);
    }
}

#[test]
fn outputs_strictly_increase() {
    let mut deck = get_array_from_hash(&chars(SEED));
    let mut previous: Vec<usize> = deck.iter().map(|c| c.value()).collect();
    for _ in 0..1000 {
        assert!(next_permutation(&mut deck));
        let current: Vec<usize> = deck.iter().map(|c| c.value()).collect();
        assert!(current > previous, "arrangements must grow lexicographically");
        previous = current;
    }
}

#[test]
fn maximal_arrangement_is_reported_exhausted() {
    let mut deck = vec![Card::Ace, Card::King, Card::Queen, Card::Jack, Card::Blank];
    let before = deck.clone();
    assert!(!next_permutation(&mut deck));
    assert_eq!(deck, before);
}

#[test]
fn empty_arrangement_is_exhausted() {
    let mut deck: Vec<Card> = Vec::new();
    assert!(!has_next_permutation(&mut deck));
}

#[test]
fn small_multiset_enumerates_every_arrangement_once() {
    // Two jacks and a queen: exactly 3!/2! = 3 arrangements, in order.
    let mut deck = vec![Card::Jack, Card::Jack, Card::Queen];
    assert!(next_permutation(&mut deck));
    assert_eq!(deck, vec![Card::Jack, Card::Queen, Card::Jack]);
    assert!(next_permutation(&mut deck));
    assert_eq!(deck, vec![Card::Queen, Card::Jack, Card::Jack]);
    let before = deck.clone();
    assert!(!next_permutation(&mut deck));
    assert_eq!(deck, before);
}
