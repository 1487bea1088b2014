//! Conversion between a deck of symbols and its 52-character textual hash,
//! and the split of a deck into the two 26-card hands of a deal.

use vstd::prelude::*;
use vstd::multiset::Multiset;
use vstd::seq_lib::lemma_multiset_commutative;
use crate::card::Card;

verus! {

/// Number of symbols in a deck.
pub const DECK_SIZE: usize = 52;

/// Number of symbols dealt to each of the two hands.
pub const HAND_SIZE: usize = 26;

/// The deck each character sequence decodes to under the lenient mapping:
/// the four face characters map to their symbols, anything else to `Blank`.
pub open spec fn decoded(s: Seq<char>) -> Seq<Card> {
    Seq::new(s.len(), |i: int| Card::spec_from_char(s[i]))
}

/// The hash a deck encodes to: one character per symbol.
pub open spec fn encoded(d: Seq<Card>) -> Seq<char> {
    Seq::new(d.len(), |i: int| d[i].spec_to_char())
}

/// A character that the encoder can produce.
pub open spec fn hash_char(c: char) -> bool {
    c == '-' || c == 'J' || c == 'Q' || c == 'K' || c == 'A'
}

/// A well-formed textual hash: exactly 52 characters, all from the hash
/// alphabet.
pub open spec fn valid_hash(s: Seq<char>) -> bool {
    s.len() == DECK_SIZE && forall|i: int| 0 <= i < s.len() ==> hash_char(#[trigger] s[i])
}

/// The multiset composition every reachable deck has: 36 blanks and four of
/// each face symbol.
pub open spec fn deck_composition(d: Seq<Card>) -> bool {
    &&& d.to_multiset().count(Card::Blank) == 36
    &&& d.to_multiset().count(Card::Jack) == 4
    &&& d.to_multiset().count(Card::Queen) == 4
    &&& d.to_multiset().count(Card::King) == 4
    &&& d.to_multiset().count(Card::Ace) == 4
}

/// A valid deck: 52 symbols with the fixed 36/4/4/4/4 composition.
pub open spec fn valid_deck(d: Seq<Card>) -> bool {
    d.len() == DECK_SIZE && deck_composition(d)
}

/// The canonical seed: the lexicographically smallest arrangement of the
/// multiset, 36 blanks followed by the face symbols in ascending order.
pub open spec fn seed_deck() -> Seq<Card> {
    Seq::new(DECK_SIZE as nat, |i: int| seed_symbol(i))
}

/// The symbol at position `i` of the canonical seed.
pub open spec fn seed_symbol(i: int) -> Card {
    if i < 36 {
        Card::Blank
    } else if i < 40 {
        Card::Jack
    } else if i < 44 {
        Card::Queen
    } else if i < 48 {
        Card::King
    } else {
        Card::Ace
    }
}

/// Decodes a 52-character hash into a deck, mapping each unrecognized
/// character to `Blank` as the lenient policy prescribes.
pub fn get_array_from_hash(hash: &Vec<char>) -> (deck: Vec<Card>)
    requires
        hash@.len() == DECK_SIZE,
    ensures
        deck@ == decoded(hash@),
{
    let mut deck: Vec<Card> = Vec::new();
    let mut i: usize = 0;
    while i < hash.len()
        invariant
            i <= hash@.len(),
            deck@.len() == i,
            forall|k: int| 0 <= k < i ==> deck@[k] == Card::spec_from_char(hash@[k]),
        decreases hash@.len() - i,
    {
        deck.push(Card::from_char(hash[i]));
        i += 1;
    }
    proof {
        assert(deck@ =~= decoded(hash@));
    }
    deck
}

/// Decodes a 52-character hash into a deck; alias of
/// [`get_array_from_hash`] under the name the enumeration tool uses.
pub fn array_from_hash(hash: &Vec<char>) -> (deck: Vec<Card>)
    requires
        hash@.len() == DECK_SIZE,
    ensures
        deck@ == decoded(hash@),
{
    get_array_from_hash(hash)
}

/// Encodes a deck as its textual hash, replacing whatever `hash` held.
pub fn get_hash_from_array(array: &Vec<Card>, hash: &mut Vec<char>)
    ensures
        final(hash)@ == encoded(array@),
{
    hash.clear();
    let mut i: usize = 0;
    while i < array.len()
        invariant
            i <= array@.len(),
            hash@.len() == i,
            forall|k: int| 0 <= k < i ==> hash@[k] == array@[k].spec_to_char(),
        decreases array@.len() - i,
    {
        hash.push(array[i].to_char());
        i += 1;
    }
    proof {
        assert(hash@ =~= encoded(array@));
    }
}

/// Encodes a deck as its textual hash; alias of [`get_hash_from_array`]
/// under the name the enumeration tool uses.
pub fn hash_from_array(array: &Vec<Card>, hash: &mut Vec<char>)
    ensures
        final(hash)@ == encoded(array@),
{
    get_hash_from_array(array, hash)
}

/// Deals a hash into the two hands: the first 26 symbols are appended to
/// `player1`'s hand, the last 26 to `player2`'s, order preserved.
pub fn get_players_from_hash(
    hash: &Vec<char>,
    player1: &mut std::collections::VecDeque<Card>,
    player2: &mut std::collections::VecDeque<Card>,
)
    requires
        hash@.len() == DECK_SIZE,
    ensures
        final(player1)@ == old(player1)@ + decoded(hash@).subrange(0, HAND_SIZE as int),
        final(player2)@ == old(player2)@ + decoded(hash@).subrange(
            HAND_SIZE as int,
            DECK_SIZE as int,
        ),
{
    let mut i: usize = 0;
    while i < HAND_SIZE
        invariant
            i <= HAND_SIZE,
            hash@.len() == DECK_SIZE,
            player1@.len() == old(player1)@.len() + i,
            forall|k: int| 0 <= k < old(player1)@.len() ==> player1@[k] == old(player1)@[k],
            forall|k: int|
                0 <= k < i ==> player1@[old(player1)@.len() + k] == Card::spec_from_char(hash@[k]),
        decreases HAND_SIZE - i,
    {
        player1.push_back(Card::from_char(hash[i]));
        i += 1;
    }
    let mut j: usize = HAND_SIZE;
    while j < DECK_SIZE
        invariant
            HAND_SIZE <= j <= DECK_SIZE,
            hash@.len() == DECK_SIZE,
            player2@.len() == old(player2)@.len() + j - HAND_SIZE,
            forall|k: int| 0 <= k < old(player2)@.len() ==> player2@[k] == old(player2)@[k],
            forall|k: int|
                HAND_SIZE <= k < j ==> player2@[old(player2)@.len() + k - HAND_SIZE]
                    == Card::spec_from_char(hash@[k]),
        decreases DECK_SIZE - j,
    {
        player2.push_back(Card::from_char(hash[j]));
        j += 1;
    }
    proof {
        assert(player1@ =~= old(player1)@ + decoded(hash@).subrange(0, HAND_SIZE as int));
        assert(player2@ =~= old(player2)@ + decoded(hash@).subrange(
            HAND_SIZE as int,
            DECK_SIZE as int,
        ));
    }
}

/// The error a strict decode reports for a malformed hash.
#[derive(Copy, Clone, PartialEq, Eq, Structural, Debug)]
pub enum CodecError {
    /// The hash is not exactly 52 characters long.
    WrongLength,
    /// The hash holds a character outside the `-JQKA` alphabet.
    UnknownSymbol,
}

/// Decodes a hash, rejecting malformed input instead of silently mapping
/// unknown characters to `Blank`: returns `Ok` exactly when the hash is 52
/// characters over the `-JQKA` alphabet.
pub fn decode_deck_strict(hash: &Vec<char>) -> (r: Result<Vec<Card>, CodecError>)
    ensures
        r is Ok <==> valid_hash(hash@),
        r matches Ok(deck) ==> deck@ == decoded(hash@),
        r matches Err(e) ==> (e == CodecError::WrongLength <==> hash@.len() != DECK_SIZE),
{
    if hash.len() != DECK_SIZE {
        return Err(CodecError::WrongLength);
    }
    let mut i: usize = 0;
    while i < hash.len()
        invariant
            i <= hash@.len(),
            hash@.len() == DECK_SIZE,
            forall|k: int| 0 <= k < i ==> hash_char(#[trigger] hash@[k]),
        decreases hash@.len() - i,
    {
        let c = hash[i];
        if !(c == '-' || c == 'J' || c == 'Q' || c == 'K' || c == 'A') {
            return Err(CodecError::UnknownSymbol);
        }
        i += 1;
    }
    Ok(get_array_from_hash(hash))
}

/// Copies a hash, character for character.
pub fn clone_hash(hash: &Vec<char>) -> (r: Vec<char>)
    ensures
        r@ == hash@,
{
    let r = hash.clone();
    proof {
        assert(r@ =~= hash@);
    }
    r
}

/// Round-trip law: decoding the encoding of any deck gives the deck back,
/// character by character.
pub proof fn lemma_decode_encode_round_trip(d: Seq<Card>)
    ensures
        decoded(encoded(d)) == d,
{
    assert(decoded(encoded(d)) =~= d);
}

/// The encoder only produces hash-alphabet characters, so every encoded deck
/// of 52 symbols is a valid hash.
pub proof fn lemma_encoded_is_valid_hash(d: Seq<Card>)
    requires
        d.len() == DECK_SIZE,
    ensures
        valid_hash(encoded(d)),
{
}

/// Builds the canonical seed deck: 36 blanks, then four each of Jack, Queen,
/// King, Ace — the lexicographically smallest valid deck.
pub fn canonical_seed() -> (deck: Vec<Card>)
    ensures
        deck@ == seed_deck(),
        valid_deck(deck@),
{
    let mut deck: Vec<Card> = Vec::new();
    let mut i: usize = 0;
    while i < DECK_SIZE
        invariant
            i <= DECK_SIZE,
            deck@.len() == i,
            forall|k: int| 0 <= k < i ==> deck@[k] == seed_symbol(k),
        decreases DECK_SIZE - i,
    {
        let card = if i < 36 {
            Card::Blank
        } else if i < 40 {
            Card::Jack
        } else if i < 44 {
            Card::Queen
        } else if i < 48 {
            Card::King
        } else {
            Card::Ace
        };
        deck.push(card);
        i += 1;
    }
    proof {
        assert(deck@ =~= seed_deck());
        lemma_seed_deck_valid();
    }
    deck
}

/// A run of `n` copies of one symbol.
pub open spec fn repeat_card(c: Card, n: nat) -> Seq<Card> {
    Seq::new(n, |i: int| c)
}

/// The multiset of a constant run counts `n` of its symbol and none of any
/// other.
proof fn lemma_repeat_card_count(c: Card, n: nat, x: Card)
    ensures
        repeat_card(c, n).to_multiset().count(x) == if x == c {
            n
        } else {
            0nat
        },
    decreases n,
{
    broadcast use vstd::seq_lib::group_to_multiset_ensures;
    broadcast use vstd::multiset::group_multiset_axioms;

    if n == 0 {
        assert(repeat_card(c, n) =~= Seq::<Card>::empty());
        assert(Seq::<Card>::empty().to_multiset() =~= Multiset::<Card>::empty());
    } else {
        lemma_repeat_card_count(c, (n - 1) as nat, x);
        assert(repeat_card(c, n) =~= repeat_card(c, (n - 1) as nat).push(c));
    }
}

/// The canonical seed has the fixed 36/4/4/4/4 composition.
pub proof fn lemma_seed_deck_valid()
    ensures
        valid_deck(seed_deck()),
{
    broadcast use vstd::multiset::group_multiset_axioms;

    let blanks = repeat_card(Card::Blank, 36);
    let jacks = repeat_card(Card::Jack, 4);
    let queens = repeat_card(Card::Queen, 4);
    let kings = repeat_card(Card::King, 4);
    let aces = repeat_card(Card::Ace, 4);
    let whole = blanks + jacks + queens + kings + aces;
    assert(seed_deck() =~= whole);
    lemma_multiset_commutative(blanks + jacks + queens + kings, aces);
    lemma_multiset_commutative(blanks + jacks + queens, kings);
    lemma_multiset_commutative(blanks + jacks, queens);
    lemma_multiset_commutative(blanks, jacks);
    assert forall|x: Card| true implies whole.to_multiset().count(x) == blanks.to_multiset().count(
        x,
    ) + jacks.to_multiset().count(x) + queens.to_multiset().count(x) + kings.to_multiset().count(x)
        + aces.to_multiset().count(x) by {
        assert((blanks + jacks + queens + kings + aces) =~= whole);
    }
    lemma_repeat_card_count(Card::Blank, 36, Card::Blank);
    lemma_repeat_card_count(Card::Jack, 4, Card::Blank);
    lemma_repeat_card_count(Card::Queen, 4, Card::Blank);
    lemma_repeat_card_count(Card::King, 4, Card::Blank);
    lemma_repeat_card_count(Card::Ace, 4, Card::Blank);
    lemma_repeat_card_count(Card::Blank, 36, Card::Jack);
    lemma_repeat_card_count(Card::Jack, 4, Card::Jack);
    lemma_repeat_card_count(Card::Queen, 4, Card::Jack);
    lemma_repeat_card_count(Card::King, 4, Card::Jack);
    lemma_repeat_card_count(Card::Ace, 4, Card::Jack);
    lemma_repeat_card_count(Card::Blank, 36, Card::Queen);
    lemma_repeat_card_count(Card::Jack, 4, Card::Queen);
    lemma_repeat_card_count(Card::Queen, 4, Card::Queen);
    lemma_repeat_card_count(Card::King, 4, Card::Queen);
    lemma_repeat_card_count(Card::Ace, 4, Card::Queen);
    lemma_repeat_card_count(Card::Blank, 36, Card::King);
    lemma_repeat_card_count(Card::Jack, 4, Card::King);
    lemma_repeat_card_count(Card::Queen, 4, Card::King);
    lemma_repeat_card_count(Card::King, 4, Card::King);
    lemma_repeat_card_count(Card::Ace, 4, Card::King);
    lemma_repeat_card_count(Card::Blank, 36, Card::Ace);
    lemma_repeat_card_count(Card::Jack, 4, Card::Ace);
    lemma_repeat_card_count(Card::Queen, 4, Card::Ace);
    lemma_repeat_card_count(Card::King, 4, Card::Ace);
    lemma_repeat_card_count(Card::Ace, 4, Card::Ace);
}

} // verus!
