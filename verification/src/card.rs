//! The card symbols of the game and their textual encoding.

use vstd::prelude::*;

verus! {

/// One of the five symbols a deck position can hold. The numeric ordinal
/// (Blank = 0 .. Ace = 4) orders the symbols for lexicographic comparison of
/// decks and, when non-zero, is the number of cards the opponent must pay.
#[derive(Copy, Clone, PartialEq, Eq, Structural, Debug)]
pub enum Card {
    Blank,
    Jack,
    Queen,
    King,
    Ace,
}

impl Card {
    /// The numeric ordinal of the symbol, used both as the sort key of the
    /// lexicographic order on decks and as the payment amount.
    pub open spec fn ordinal(self) -> nat {
        match self {
            Card::Blank => 0,
            Card::Jack => 1,
            Card::Queen => 2,
            Card::King => 3,
            Card::Ace => 4,
        }
    }

    /// Executable form of [`Card::ordinal`].
    pub fn value(self) -> (v: usize)
        ensures
            v == self.ordinal(),
    {
        match self {
            Card::Blank => 0,
            Card::Jack => 1,
            Card::Queen => 2,
            Card::King => 3,
            Card::Ace => 4,
        }
    }

    /// The symbol a character decodes to: the four face characters map to
    /// their symbols, every other character to `Blank`.
    pub open spec fn spec_from_char(c: char) -> Card {
        if c == 'J' {
            Card::Jack
        } else if c == 'Q' {
            Card::Queen
        } else if c == 'K' {
            Card::King
        } else if c == 'A' {
            Card::Ace
        } else {
            Card::Blank
        }
    }

    /// Decodes one hash character, mapping any unrecognized character to
    /// `Blank`.
    pub fn from_char(c: char) -> (card: Card)
        ensures
            card == Card::spec_from_char(c),
    {
        match c {
            'J' => Card::Jack,
            'Q' => Card::Queen,
            'K' => Card::King,
            'A' => Card::Ace,
            _ => Card::Blank,
        }
    }

    /// The character a symbol encodes to.
    pub open spec fn spec_to_char(self) -> char {
        match self {
            Card::Blank => '-',
            Card::Jack => 'J',
            Card::Queen => 'Q',
            Card::King => 'K',
            Card::Ace => 'A',
        }
    }

    /// Encodes one symbol as its hash character.
    pub fn to_char(self) -> (c: char)
        ensures
            c == self.spec_to_char(),
    {
        match self {
            Card::Blank => '-',
            Card::Jack => 'J',
            Card::Queen => 'Q',
            Card::King => 'K',
            Card::Ace => 'A',
        }
    }
}

} // verus!
