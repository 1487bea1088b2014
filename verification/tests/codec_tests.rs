use beggar::card::Card;
use beggar::codec::{
    array_from_hash, canonical_seed, decode_deck_strict, get_array_from_hash, get_hash_from_array,
    get_players_from_hash, hash_from_array, CodecError,
};
use std::collections::VecDeque;

const SEED: &str = "------------------------------------JJJJQQQQKKKKAAAA";

fn chars(s: &str) -> Vec<char> {
    s.chars().collect()
}

fn text(v: &[char]) -> String {
    v.iter().collect()
}

#[test]
fn decode_seed_hash() {
    let deck = get_array_from_hash(&chars(SEED));
    assert_eq!(deck.len(), 52);
    assert!(deck[..36].iter().all(|c| *c == Card::Blank));
    assert!(deck[36..40].iter().all(|c| *c == Card::Jack));
    assert!(deck[40..44].iter().all(|c| *c == Card::Queen));
    assert!(deck[44..48].iter().all(|c| *c == Card::King));
    assert!(deck[48..52].iter().all(|c| *c == Card::Ace));
}

#[test]
fn decode_is_lenient_about_unknown_characters() {
    let mut garbled = chars(SEED);
    garbled[0] = 'x';
    garbled[1] = '?';
    let deck = get_array_from_hash(&garbled);
    assert_eq!(deck[0], Card::Blank);
    assert_eq!(deck[1], Card::Blank);
}

#[test]
fn encode_decode_round_trip() {
    let deck = canonical_seed();
    let mut hash: Vec<char> = Vec::new();
    get_hash_from_array(&deck, &mut hash);
    assert_eq!(text(&hash), SEED);
    let again = get_array_from_hash(&hash);
    assert_eq!(again, deck);
}

#[test]
fn aliases_agree() {
    let deck = array_from_hash(&chars(SEED));
    assert_eq!(deck, get_array_from_hash(&chars(SEED)));
    let mut h1: Vec<char> = chars("junk");
    let mut h2: Vec<char> = Vec::new();
    hash_from_array(&deck, &mut h1);
    get_hash_from_array(&deck, &mut h2);
    assert_eq!(h1, h2);
}

#[test]
fn strict_decode_accepts_valid_hash() {
    let deck = decode_deck_strict(&chars(SEED)).unwrap();
    assert_eq!(deck, canonical_seed());
}

#[test]
fn strict_decode_rejects_wrong_length() {
    assert_eq!(decode_deck_strict(&chars("JQKA")), Err(CodecError::WrongLength));
    assert_eq!(decode_deck_strict(&Vec::new()), Err(CodecError::WrongLength));
}

#[test]
fn strict_decode_rejects_unknown_symbol() {
    let mut garbled = chars(SEED);
    garbled[10] = 'x';
    assert_eq!(decode_deck_strict(&garbled), Err(CodecError::UnknownSymbol));
}

#[test]
fn split_into_hands() {
    let mut player1: VecDeque<Card> = VecDeque::new();
    let mut player2: VecDeque<Card> = VecDeque::new();
    get_players_from_hash(&chars(SEED), &mut player1, &mut player2);
    assert_eq!(player1.len(), 26);
    assert_eq!(player2.len(), 26);
    assert!(player1.iter().all(|c| *c == Card::Blank));
    assert!(player2.iter().take(10).all(|c| *c == Card::Blank));
    assert_eq!(player2[10], Card::Jack);
    assert_eq!(player2[25], Card::Ace);
}

#[test]
fn from_char_mapping() {
    assert_eq!(Card::from_char('J'), Card::Jack);
    assert_eq!(Card::from_char('Q'), Card::Queen);
    assert_eq!(Card::from_char('K'), Card::King);
    assert_eq!(Card::from_char('A'), Card::Ace);
    assert_eq!(Card::from_char('-'), Card::Blank);
    assert_eq!(Card::from_char('z'), Card::Blank);
}
