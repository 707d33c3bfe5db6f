use vstd::prelude::*;
use vstd::string::StringSliceAdditionalSpecFns;

use crate::card::{Card, Suit};
use crate::cascade::Cascade;

verus! {

/// The number of bytes of the separator that starts at `i` in `b`, or 0
/// where none does. Cards are separated by commas, by white space or by
/// nothing. White space is every character that Unicode counts as such:
/// tab, line feed, vertical tab, form feed, carriage return and space in
/// one byte; next line and no-break space (U+0085, U+00A0) in two; U+1680,
/// U+2000 to U+200A, U+2028, U+2029, U+202F, U+205F and U+3000 in three.
pub open spec fn separator_len(b: Seq<u8>, i: int) -> int {
    if i < 0 || i >= b.len() {
        0
    } else if b[i] == 32 || (9 <= b[i] <= 13) || b[i] == 44 {
        1
    } else if b[i] == 0xC2 && i + 1 < b.len() && (b[i + 1] == 0x85 || b[i + 1] == 0xA0) {
        2
    } else if i + 2 < b.len() && ((b[i] == 0xE1 && b[i + 1] == 0x9A && b[i + 2] == 0x80) || (b[i]
        == 0xE2 && b[i + 1] == 0x80 && ((0x80 <= b[i + 2] <= 0x8A) || b[i + 2] == 0xA8 || b[i + 2]
        == 0xA9 || b[i + 2] == 0xAF)) || (b[i] == 0xE2 && b[i + 1] == 0x81 && b[i + 2] == 0x9F) || (
    b[i] == 0xE3 && b[i + 1] == 0x80 && b[i + 2] == 0x80)) {
        3
    } else {
        0
    }
}

/// The rank a single letter or digit names: `A` for an ace, `2` to `9`,
/// `T` for a ten, `J`, `Q`, `K`; letters in either case.
pub open spec fn rank_of_char(c: u8) -> Option<u8> {
    if c == 65 || c == 97 {
        Some(1u8)
    } else if 50 <= c <= 57 {
        Some((c - 48) as u8)
    } else if c == 84 || c == 116 {
        Some(10u8)
    } else if c == 74 || c == 106 {
        Some(11u8)
    } else if c == 81 || c == 113 {
        Some(12u8)
    } else if c == 75 || c == 107 {
        Some(13u8)
    } else {
        None
    }
}

/// The suit a letter names: `C`, `S`, `H`, `D`, in either case.
pub open spec fn suit_of_char(c: u8) -> Option<Suit> {
    if c == 67 || c == 99 {
        Some(Suit::Club)
    } else if c == 83 || c == 115 {
        Some(Suit::Spade)
    } else if c == 72 || c == 104 {
        Some(Suit::Heart)
    } else if c == 68 || c == 100 {
        Some(Suit::Diamond)
    } else {
        None
    }
}

/// The card written at `i` in `b`, with the number of bytes it takes: a rank
/// (`10` or one character) followed by a suit letter.
pub open spec fn card_at(b: Seq<u8>, i: int) -> Option<(Card, int)> {
    if i + 2 < b.len() && b[i] == 49 && b[i + 1] == 48 {
        match suit_of_char(b[i + 2]) {
            Some(suit) => Some((Card { suit, rank: 10 }, 3)),
            None => None,
        }
    } else if i + 1 < b.len() {
        match (rank_of_char(b[i]), suit_of_char(b[i + 1])) {
            (Some(rank), Some(suit)) => Some((Card { suit, rank }, 2)),
            _ => None,
        }
    } else {
        None
    }
}

/// The cards written in `b` from `i` on, or `None` where something other
/// than cards and separators stands there.
pub open spec fn cards_from(b: Seq<u8>, i: int) -> Option<Seq<Card>>
    decreases b.len() - i,
{
    if i < 0 || i >= b.len() {
        Some(Seq::empty())
    } else if separator_len(b, i) > 0 {
        cards_from(b, i + separator_len(b, i))
    } else {
        match card_at(b, i) {
            Some((card, n)) => match cards_from(b, i + n) {
                Some(rest) => Some(seq![card] + rest),
                None => None,
            },
            None => None,
        }
    }
}

/// `acc` followed by the cards of `rest`, if `rest` holds any.
pub open spec fn prepend(acc: Seq<Card>, rest: Option<Seq<Card>>) -> Option<Seq<Card>> {
    match rest {
        Some(r) => Some(acc + r),
        None => None,
    }
}

fn separator_at(b: &[u8], i: usize) -> (r: usize)
    requires
        i < b@.len(),
    ensures
        r as int == separator_len(b@, i as int),
        r <= 3,
{
    let c = b[i];
    let rest = b.len() - i;
    if c == 32 || (9 <= c && c <= 13) || c == 44 {
        1
    } else if c == 0xC2 && rest > 1 && (b[i + 1] == 0x85 || b[i + 1] == 0xA0) {
        2
    } else if rest > 2 && ((c == 0xE1 && b[i + 1] == 0x9A && b[i + 2] == 0x80) || (c == 0xE2 && b[i
        + 1] == 0x80 && ((0x80 <= b[i + 2] && b[i + 2] <= 0x8A) || b[i + 2] == 0xA8 || b[i + 2]
        == 0xA9 || b[i + 2] == 0xAF)) || (c == 0xE2 && b[i + 1] == 0x81 && b[i + 2] == 0x9F) || (c
        == 0xE3 && b[i + 1] == 0x80 && b[i + 2] == 0x80)) {
        3
    } else {
        0
    }
}

fn rank_from(c: u8) -> (r: Option<u8>)
    ensures
        r == rank_of_char(c),
{
    if c == 65 || c == 97 {
        Some(1)
    } else if 50 <= c && c <= 57 {
        Some(c - 48)
    } else if c == 84 || c == 116 {
        Some(10)
    } else if c == 74 || c == 106 {
        Some(11)
    } else if c == 81 || c == 113 {
        Some(12)
    } else if c == 75 || c == 107 {
        Some(13)
    } else {
        None
    }
}

fn suit_from(c: u8) -> (r: Option<Suit>)
    ensures
        r == suit_of_char(c),
{
    if c == 67 || c == 99 {
        Some(Suit::Club)
    } else if c == 83 || c == 115 {
        Some(Suit::Spade)
    } else if c == 72 || c == 104 {
        Some(Suit::Heart)
    } else if c == 68 || c == 100 {
        Some(Suit::Diamond)
    } else {
        None
    }
}

fn read_card(b: &[u8], i: usize) -> (r: Option<(Card, usize)>)
    requires
        i < b@.len(),
    ensures
        r matches Some((card, n)) ==> card_at(b@, i as int) == Some((card, n as int)),
        r is None ==> card_at(b@, i as int) is None,
{
    if b.len() - i > 2 && b[i] == 49 && b[i + 1] == 48 {
        match suit_from(b[i + 2]) {
            Some(suit) => Some((Card { suit, rank: 10 }, 3)),
            None => None,
        }
    } else if b.len() - i > 1 {
        match (rank_from(b[i]), suit_from(b[i + 1])) {
            (Some(rank), Some(suit)) => Some((Card { suit, rank }, 2)),
            _ => None,
        }
    } else {
        None
    }
}

impl Cascade {
    /// Reads a cascade from text: cards such as `9S`, `10h` or `AC`, bottom
    /// card first, optionally separated by blanks or commas. `Err` where
    /// anything else stands in the text.
    pub fn parse(text: &[u8]) -> (r: Result<Cascade, ()>)
        ensures
            r is Ok <==> cards_from(text@, 0) is Some,
            r matches Ok(c) ==> Some(c@) == cards_from(text@, 0),
    {
        let mut cards: Vec<Card> = Vec::new();
        let mut i: usize = 0;
        assert(cards@ + cards_from(text@, 0)->0 =~= cards_from(text@, 0)->0);
        while i < text.len()
            invariant
                i <= text@.len(),
                cards_from(text@, 0) == prepend(cards@, cards_from(text@, i as int)),
            decreases text@.len() - i,
        {
            let sep = separator_at(text, i);
            if sep > 0 {
                i = i + sep;
            } else {
                match read_card(text, i) {
                    Some((card, n)) => {
                        let ghost before = cards@;
                        let ghost rest = cards_from(text@, (i + n) as int);
                        cards.push(card);
                        proof {
                            if rest is Some {
                                assert(before + (seq![card] + rest->0) =~= cards@ + rest->0);
                            }
                        }
                        i = i + n;
                    },
                    None => {
                        return Err(());
                    },
                }
            }
        }
        assert(cards@ + Seq::<Card>::empty() =~= cards@);
        Ok(Cascade(cards))
    }
}

impl std::str::FromStr for Cascade {
    type Err = ();

    /// Reads a cascade from text as [`Cascade::parse`] does.
    fn from_str(s: &str) -> (r: Result<Cascade, ()>)
        ensures
            r is Ok <==> cards_from(s.spec_bytes(), 0) is Some,
            r matches Ok(c) ==> Some(c@) == cards_from(s.spec_bytes(), 0),
    {
        Cascade::parse(s.as_bytes())
    }
}

} // verus!
