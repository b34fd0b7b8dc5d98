//! Ranks, suits and cards of a standard 52-card deck, and their two-character codes.
use crate::errors::PokercraftLocalError;
use vstd::prelude::*;
use vstd::string::StrSliceExecFns;

verus! {

pub const NUM_OF_SHAPES: usize = 4;

pub const NUM_OF_NUMBERS: usize = 13;

pub const DECK_SIZE: usize = 52;

/// Card shapes (suits) in a standard deck of playing cards.
#[derive(PartialEq, Eq, Structural, Clone, Copy, Debug)]
pub enum CardShape {
    Spade,
    Heart,
    Diamond,
    Club,
}

/// The four shapes in deck order.
pub open spec fn all_shapes() -> Seq<CardShape> {
    seq![CardShape::Spade, CardShape::Heart, CardShape::Diamond, CardShape::Club]
}

impl CardShape {
    /// Position of the shape in deck order.
    pub open spec fn index(self) -> int {
        match self {
            CardShape::Spade => 0,
            CardShape::Heart => 1,
            CardShape::Diamond => 2,
            CardShape::Club => 3,
        }
    }

    /// The lower-case letter that stands for the shape.
    pub open spec fn code(self) -> char {
        match self {
            CardShape::Spade => 's',
            CardShape::Heart => 'h',
            CardShape::Diamond => 'd',
            CardShape::Club => 'c',
        }
    }

    /// The shape that a letter stands for, in either case.
    pub open spec fn from_code(c: char) -> Option<CardShape> {
        if c == 's' || c == 'S' {
            Some(CardShape::Spade)
        } else if c == 'h' || c == 'H' {
            Some(CardShape::Heart)
        } else if c == 'd' || c == 'D' {
            Some(CardShape::Diamond)
        } else if c == 'c' || c == 'C' {
            Some(CardShape::Club)
        } else {
            None
        }
    }

    /// Return all card shapes.
    pub fn all() -> (r: [CardShape; 4])
        ensures
            r@ == all_shapes(),
    {
        [CardShape::Spade, CardShape::Heart, CardShape::Diamond, CardShape::Club]
    }

    /// The letter of this shape.
    pub fn to_char(self) -> (c: char)
        ensures
            c == self.code(),
    {
        match self {
            CardShape::Spade => 's',
            CardShape::Heart => 'h',
            CardShape::Diamond => 'd',
            CardShape::Club => 'c',
        }
    }

    /// Read a shape from its letter, ignoring case.
    pub fn from_char(c: char) -> (r: Option<CardShape>)
        ensures
            r == Self::from_code(c),
    {
        if c == 's' || c == 'S' {
            Some(CardShape::Spade)
        } else if c == 'h' || c == 'H' {
            Some(CardShape::Heart)
        } else if c == 'd' || c == 'D' {
            Some(CardShape::Diamond)
        } else if c == 'c' || c == 'C' {
            Some(CardShape::Club)
        } else {
            None
        }
    }
}

impl Default for CardShape {
    fn default() -> (r: Self)
        ensures
            r == CardShape::Spade,
    {
        CardShape::Spade
    }
}

/// Card numbers (ranks) in a standard deck of playing cards, from Two up to Ace.
#[derive(PartialEq, Eq, Structural, PartialOrd, Ord, Clone, Copy, Debug)]
pub enum CardNumber {
    Two,
    Three,
    Four,
    Five,
    Six,
    Seven,
    Eight,
    Nine,
    Ten,
    Jack,
    Queen,
    King,
    Ace,
}

/// The thirteen numbers in increasing order.
pub open spec fn all_numbers() -> Seq<CardNumber> {
    seq![
        CardNumber::Two,
        CardNumber::Three,
        CardNumber::Four,
        CardNumber::Five,
        CardNumber::Six,
        CardNumber::Seven,
        CardNumber::Eight,
        CardNumber::Nine,
        CardNumber::Ten,
        CardNumber::Jack,
        CardNumber::Queen,
        CardNumber::King,
        CardNumber::Ace,
    ]
}

impl CardNumber {
    /// Face value of the number: 2 to 10, then 11 (Jack) up to 14 (Ace).
    pub open spec fn value(self) -> int {
        match self {
            CardNumber::Two => 2,
            CardNumber::Three => 3,
            CardNumber::Four => 4,
            CardNumber::Five => 5,
            CardNumber::Six => 6,
            CardNumber::Seven => 7,
            CardNumber::Eight => 8,
            CardNumber::Nine => 9,
            CardNumber::Ten => 10,
            CardNumber::Jack => 11,
            CardNumber::Queen => 12,
            CardNumber::King => 13,
            CardNumber::Ace => 14,
        }
    }

    /// The character that stands for the number (upper case for letters).
    pub open spec fn code(self) -> char {
        match self {
            CardNumber::Two => '2',
            CardNumber::Three => '3',
            CardNumber::Four => '4',
            CardNumber::Five => '5',
            CardNumber::Six => '6',
            CardNumber::Seven => '7',
            CardNumber::Eight => '8',
            CardNumber::Nine => '9',
            CardNumber::Ten => 'T',
            CardNumber::Jack => 'J',
            CardNumber::Queen => 'Q',
            CardNumber::King => 'K',
            CardNumber::Ace => 'A',
        }
    }

    /// The number that a character stands for, letters in either case.
    pub open spec fn from_code(c: char) -> Option<CardNumber> {
        if c == '2' {
            Some(CardNumber::Two)
        } else if c == '3' {
            Some(CardNumber::Three)
        } else if c == '4' {
            Some(CardNumber::Four)
        } else if c == '5' {
            Some(CardNumber::Five)
        } else if c == '6' {
            Some(CardNumber::Six)
        } else if c == '7' {
            Some(CardNumber::Seven)
        } else if c == '8' {
            Some(CardNumber::Eight)
        } else if c == '9' {
            Some(CardNumber::Nine)
        } else if c == 't' || c == 'T' {
            Some(CardNumber::Ten)
        } else if c == 'j' || c == 'J' {
            Some(CardNumber::Jack)
        } else if c == 'q' || c == 'Q' {
            Some(CardNumber::Queen)
        } else if c == 'k' || c == 'K' {
            Some(CardNumber::King)
        } else if c == 'a' || c == 'A' {
            Some(CardNumber::Ace)
        } else {
            None
        }
    }

    /// Whether `self` directly follows `previous` in the cycle 2, 3, ..., K, A, 2.
    pub open spec fn follows(self, previous: CardNumber) -> bool {
        if previous == CardNumber::Ace {
            self == CardNumber::Two
        } else {
            self.value() == previous.value() + 1
        }
    }

    /// Return all card numbers.
    pub fn all() -> (r: [CardNumber; 13])
        ensures
            r@ == all_numbers(),
    {
        [
            CardNumber::Two,
            CardNumber::Three,
            CardNumber::Four,
            CardNumber::Five,
            CardNumber::Six,
            CardNumber::Seven,
            CardNumber::Eight,
            CardNumber::Nine,
            CardNumber::Ten,
            CardNumber::Jack,
            CardNumber::Queen,
            CardNumber::King,
            CardNumber::Ace,
        ]
    }

    /// Face value of this number.
    pub fn as_u8(self) -> (v: u8)
        ensures
            v == self.value(),
    {
        match self {
            CardNumber::Two => 2,
            CardNumber::Three => 3,
            CardNumber::Four => 4,
            CardNumber::Five => 5,
            CardNumber::Six => 6,
            CardNumber::Seven => 7,
            CardNumber::Eight => 8,
            CardNumber::Nine => 9,
            CardNumber::Ten => 10,
            CardNumber::Jack => 11,
            CardNumber::Queen => 12,
            CardNumber::King => 13,
            CardNumber::Ace => 14,
        }
    }

    /// Create a `CardNumber` from an integer; 1 is also read as Ace.
    pub fn new(num: i32) -> (r: Option<CardNumber>)
        ensures
            r is None <==> !(1 <= num <= 14),
            r matches Some(n) ==> n.value() == (if num == 1 {
                14
            } else {
                num as int
            }),
    {
        match num {
            1 => Some(CardNumber::Ace),
            2 => Some(CardNumber::Two),
            3 => Some(CardNumber::Three),
            4 => Some(CardNumber::Four),
            5 => Some(CardNumber::Five),
            6 => Some(CardNumber::Six),
            7 => Some(CardNumber::Seven),
            8 => Some(CardNumber::Eight),
            9 => Some(CardNumber::Nine),
            10 => Some(CardNumber::Ten),
            11 => Some(CardNumber::Jack),
            12 => Some(CardNumber::Queen),
            13 => Some(CardNumber::King),
            14 => Some(CardNumber::Ace),
            _ => None,
        }
    }

    /// Check if this card number is the next of the
    /// given previous card number, in straight order (A234567...QKA).
    pub fn is_next_in_cycle(&self, previous: &CardNumber) -> (r: bool)
        ensures
            r == self.follows(*previous),
    {
        if *previous == CardNumber::Ace {
            *self == CardNumber::Two
        } else {
            self.as_u8() == previous.as_u8() + 1
        }
    }

    /// The character of this number.
    pub fn to_char(self) -> (c: char)
        ensures
            c == self.code(),
    {
        match self {
            CardNumber::Two => '2',
            CardNumber::Three => '3',
            CardNumber::Four => '4',
            CardNumber::Five => '5',
            CardNumber::Six => '6',
            CardNumber::Seven => '7',
            CardNumber::Eight => '8',
            CardNumber::Nine => '9',
            CardNumber::Ten => 'T',
            CardNumber::Jack => 'J',
            CardNumber::Queen => 'Q',
            CardNumber::King => 'K',
            CardNumber::Ace => 'A',
        }
    }

    /// Read a number from its character, ignoring case.
    pub fn from_char(c: char) -> (r: Option<CardNumber>)
        ensures
            r == Self::from_code(c),
    {
        if c == '2' {
            Some(CardNumber::Two)
        } else if c == '3' {
            Some(CardNumber::Three)
        } else if c == '4' {
            Some(CardNumber::Four)
        } else if c == '5' {
            Some(CardNumber::Five)
        } else if c == '6' {
            Some(CardNumber::Six)
        } else if c == '7' {
            Some(CardNumber::Seven)
        } else if c == '8' {
            Some(CardNumber::Eight)
        } else if c == '9' {
            Some(CardNumber::Nine)
        } else if c == 't' || c == 'T' {
            Some(CardNumber::Ten)
        } else if c == 'j' || c == 'J' {
            Some(CardNumber::Jack)
        } else if c == 'q' || c == 'Q' {
            Some(CardNumber::Queen)
        } else if c == 'k' || c == 'K' {
            Some(CardNumber::King)
        } else if c == 'a' || c == 'A' {
            Some(CardNumber::Ace)
        } else {
            None
        }
    }
}

impl Default for CardNumber {
    fn default() -> (r: Self)
        ensures
            r == CardNumber::Two,
    {
        CardNumber::Two
    }
}

/// A playing card in a standard deck of 52 cards.
#[derive(PartialEq, Eq, Structural, Copy, Clone, Debug)]
pub struct Card {
    pub shape: CardShape,
    pub number: CardNumber,
}

/// The card at position `i` of the deck: shapes in deck order, numbers increasing within a shape.
pub open spec fn deck_card(i: int) -> Card {
    Card { shape: all_shapes()[i / 13], number: all_numbers()[i % 13] }
}

/// Position of a card in the deck.
pub open spec fn deck_index(c: Card) -> int {
    c.shape.index() * 13 + (c.number.value() - 2)
}

/// The outcome of reading a card code: the card, or the offending part of the text.
pub open spec fn parse_card(s: Seq<char>) -> Result<Card, Seq<char>> {
    if s.len() != 2 {
        Err(s)
    } else if CardNumber::from_code(s[0]) is None {
        Err(s.subrange(0, 1))
    } else if CardShape::from_code(s[1]) is None {
        Err(s.subrange(1, 2))
    } else {
        Ok(
            Card {
                shape: CardShape::from_code(s[1])->Some_0,
                number: CardNumber::from_code(s[0])->Some_0,
            },
        )
    }
}

/// Every card sits at its own position of the deck.
pub proof fn lemma_deck_card_index(c: Card)
    ensures
        0 <= deck_index(c) < 52,
        deck_card(deck_index(c)) == c,
{
}

/// Relies on `String::push`: the char is appended at the end.
#[verifier::external_body]
fn push_char(s: &mut String, c: char)
    ensures
        final(s)@ == old(s)@.push(c),
{
    s.push(c);
}

impl Card {
    /// The two-character code of the card: number, then shape.
    pub open spec fn code(self) -> Seq<char> {
        seq![self.number.code(), self.shape.code()]
    }

    /// Return all 52 cards in a standard deck.
    pub fn all() -> (r: [Card; 52])
        ensures
            forall|i: int| 0 <= i < 52 ==> #[trigger] r@[i] == deck_card(i),
    {
        let shapes = CardShape::all();
        let numbers = CardNumber::all();
        let mut cards = [Card { shape: CardShape::Spade, number: CardNumber::Two };52];
        let mut iteration: usize = 0;
        while iteration < DECK_SIZE
            invariant
                iteration <= DECK_SIZE,
                shapes@ == all_shapes(),
                numbers@ == all_numbers(),
                forall|i: int| 0 <= i < iteration ==> #[trigger] cards@[i] == deck_card(i),
            decreases DECK_SIZE - iteration,
        {
            let shape = shapes[iteration / NUM_OF_NUMBERS];
            let number = numbers[iteration % NUM_OF_NUMBERS];
            cards[iteration] = Card { shape, number };
            iteration += 1;
        }
        cards
    }

    /// The two-character code of this card, for example "Td".
    pub fn to_string(&self) -> (r: String)
        ensures
            r@ == self.code(),
    {
        let mut s = String::new();
        push_char(&mut s, self.number.to_char());
        push_char(&mut s, self.shape.to_char());
        s
    }

    /// Create a `Card` from a 2-character string: the number, then the shape,
    /// in either case. "As" is the Ace of Spades, "td" the Ten of Diamonds.
    pub fn parse(value: &str) -> (r: Result<Card, PokercraftLocalError>)
        ensures
            match parse_card(value@) {
                Ok(c) => r == Ok::<Card, PokercraftLocalError>(c),
                Err(part) => r matches Err(PokercraftLocalError::InvalidEncoding(p)) && p@ == part,
            },
    {
        if value.unicode_len() != 2 {
            return Err(PokercraftLocalError::InvalidEncoding(String::from_str(value)));
        }
        let number_char = value.get_char(0);
        let shape_char = value.get_char(1);
        match CardNumber::from_char(number_char) {
            None => Err(
                PokercraftLocalError::InvalidEncoding(String::from_str(value.substring_char(0, 1))),
            ),
            Some(number) => match CardShape::from_char(shape_char) {
                None => Err(
                    PokercraftLocalError::InvalidEncoding(
                        String::from_str(value.substring_char(1, 2)),
                    ),
                ),
                Some(shape) => Ok(Card { shape, number }),
            },
        }
    }
}

impl Default for Card {
    fn default() -> (r: Self)
        ensures
            r == (Card { shape: CardShape::Spade, number: CardNumber::Two }),
    {
        Card { shape: CardShape::Spade, number: CardNumber::Two }
    }
}

} // verus!
