use vstd::prelude::*;

verus! {

/// One playing card. Suits are numbered 0 through 3, values run from
/// 1 (ace) to 13 (king).
#[derive(Copy, Clone, PartialEq, Eq, Structural, Debug)]
pub struct Card {
    pub suit: u8,
    pub value: u8,
}

impl Card {
    /// A card drawn from a real deck: one of the four suits, ace to king.
    pub open spec fn valid(self) -> bool {
        self.suit < 4 && 1 <= self.value <= 13
    }
}

/// Numeric encoding of a card, used by ordering and by the board signature.
pub open spec fn code(c: Card) -> int {
    c.suit * 100 + c.value
}

/// Numeric encoding of an optional card: `suit * 100 + value`, 0 if absent.
pub fn card_numerical(card: Option<&Card>) -> (r: u16)
    ensures
        r as int == (match card {
            Some(c) => code(*c),
            None => 0,
        }),
{
    match card {
        Some(c) => c.suit as u16 * 100 + c.value as u16,
        None => 0,
    }
}

/// The one-letter abbreviation of a suit; "u" for an out-of-range number.
pub open spec fn suit_abbrev(suit: u8) -> Seq<char> {
    if suit == 0 {
        "H"@
    } else if suit == 1 {
        "D"@
    } else if suit == 2 {
        "C"@
    } else if suit == 3 {
        "S"@
    } else {
        "u"@
    }
}

/// The abbreviation of a card value: A for the ace, the digits for 2..10,
/// J, Q, K for the court cards.
pub open spec fn value_abbrev(value: u8) -> Seq<char> {
    if value == 1 {
        "A"@
    } else if value == 2 {
        "2"@
    } else if value == 3 {
        "3"@
    } else if value == 4 {
        "4"@
    } else if value == 5 {
        "5"@
    } else if value == 6 {
        "6"@
    } else if value == 7 {
        "7"@
    } else if value == 8 {
        "8"@
    } else if value == 9 {
        "9"@
    } else if value == 10 {
        "10"@
    } else if value == 11 {
        "J"@
    } else if value == 12 {
        "Q"@
    } else {
        "K"@
    }
}

/// One-letter abbreviation of a suit.
pub fn suit_name(suit: u8) -> (r: &'static str)
    ensures
        r@ == suit_abbrev(suit),
{
    match suit {
        0 => "H",
        1 => "D",
        2 => "C",
        3 => "S",
        _ => "u",
    }
}

/// Abbreviation of a card value.
pub fn value_name(value: u8) -> (r: &'static str)
    requires
        1 <= value <= 13,
    ensures
        r@ == value_abbrev(value),
{
    match value {
        1 => "A",
        2 => "2",
        3 => "3",
        4 => "4",
        5 => "5",
        6 => "6",
        7 => "7",
        8 => "8",
        9 => "9",
        10 => "10",
        11 => "J",
        12 => "Q",
        _ => "K",
    }
}

/// Human-readable name of an optional card, e.g. "AS " or "10H ", with a
/// trailing space; the given default when no card is present.
pub fn card_name(card: Option<&Card>, default: String) -> (r: String)
    requires
        (match card {
            Some(c) => c.valid(),
            None => true,
        }),
    ensures
        r@ == (match card {
            Some(c) => value_abbrev(c.value) + suit_abbrev(c.suit) + " "@,
            None => default@,
        }),
{
    match card {
        Some(c) => {
            let mut s = String::new();
            s.append(value_name(c.value));
            s.append(suit_name(c.suit));
            s.append(" ");
            s
        },
        None => default,
    }
}

} // verus!
