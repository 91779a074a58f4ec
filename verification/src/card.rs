//! Single-card predicates: rank, colour, and the two movement rules.

use vstd::prelude::*;

verus! {

/// Rank read from a token's two-character prefix: "A " is 1, number cards
/// their face value, "10" is 10, "J " 11, "Q " 12, "K " 13. Anything else,
/// including tokens shorter than two characters, is 0 (the sentinel used
/// for empty slots).
pub open spec fn rank_of(s: Seq<char>) -> int {
    if s.len() < 2 {
        0
    } else if s[1] == ' ' {
        if s[0] == 'A' {
            1
        } else if s[0] == '2' {
            2
        } else if s[0] == '3' {
            3
        } else if s[0] == '4' {
            4
        } else if s[0] == '5' {
            5
        } else if s[0] == '6' {
            6
        } else if s[0] == '7' {
            7
        } else if s[0] == '8' {
            8
        } else if s[0] == '9' {
            9
        } else if s[0] == 'J' {
            11
        } else if s[0] == 'Q' {
            12
        } else if s[0] == 'K' {
            13
        } else {
            0
        }
    } else if s[0] == '1' && s[1] == '0' {
        10
    } else {
        0
    }
}

/// A token is red when its third character is one of the two red suit glyphs.
pub open spec fn is_red(s: Seq<char>) -> bool {
    s.len() >= 3 && (s[2] == '♥' || s[2] == '♦')
}

/// The three-space marker that stands in an empty slot.
pub open spec fn blank() -> Seq<char> {
    seq![' ', ' ', ' ']
}

/// The suits of two tokens agree: both have a third character and those
/// characters are equal, or neither token has one.
pub open spec fn suit_matches(a: Seq<char>, b: Seq<char>) -> bool {
    if a.len() >= 3 && b.len() >= 3 {
        a[2] == b[2]
    } else {
        a.len() < 3 && b.len() < 3
    }
}

/// `picked` may be placed on `place` in a cascade: ranks descend by exactly
/// one and the colours differ.
pub open spec fn spec_can_move(picked: Seq<char>, place: Seq<char>) -> bool {
    rank_of(picked) + 1 == rank_of(place) && is_red(picked) != is_red(place)
}

/// `card` may be placed on a foundation whose top is `top`: same suit and
/// rank exactly one higher, or an Ace onto an empty foundation (rank 0).
pub open spec fn spec_can_move_to_foundation(card: Seq<char>, top: Seq<char>) -> bool {
    (rank_of(card) == rank_of(top) + 1 && suit_matches(card, top)) || (rank_of(card) == 1
        && rank_of(top) == 0)
}

/// Foreground colour of a card token: the two red suits draw red, every
/// other token (black suits, the blank marker) draws in the neutral colour.
#[derive(Clone, Copy, PartialEq, Eq, Structural, Debug)]
pub enum CardColor {
    Red,
    Neutral,
}

/// Rank of a card token, 1 through 13; 0 for unrecognised or short tokens.
pub fn card_value(s: &str) -> (v: u8)
    ensures
        v as int == rank_of(s@),
        v <= 13,
{
    let n: usize = s.unicode_len();
    if n < 2 {
        return 0;
    }
    let c0 = s.get_char(0);
    let c1 = s.get_char(1);
    if c1 == ' ' {
        if c0 == 'A' {
            1
        } else if c0 == '2' {
            2
        } else if c0 == '3' {
            3
        } else if c0 == '4' {
            4
        } else if c0 == '5' {
            5
        } else if c0 == '6' {
            6
        } else if c0 == '7' {
            7
        } else if c0 == '8' {
            8
        } else if c0 == '9' {
            9
        } else if c0 == 'J' {
            11
        } else if c0 == 'Q' {
            12
        } else if c0 == 'K' {
            13
        } else {
            0
        }
    } else if c0 == '1' && c1 == '0' {
        10
    } else {
        0
    }
}

/// Colour of a token with at least three characters.
pub fn card_color(s: &str) -> (c: CardColor)
    requires
        s@.len() >= 3,
    ensures
        c == (if is_red(s@) {
            CardColor::Red
        } else {
            CardColor::Neutral
        }),
{
    let g = s.get_char(2);
    if g == '♥' || g == '♦' {
        CardColor::Red
    } else {
        CardColor::Neutral
    }
}

/// Cascade rule: `picked` goes on `place` iff ranks descend by one and the
/// colours differ.
pub fn can_move(picked: &str, place: &str) -> (r: bool)
    requires
        picked@.len() >= 3,
        place@.len() >= 3,
    ensures
        r == spec_can_move(picked@, place@),
{
    let vp = card_value(picked);
    let vd = card_value(place);
    vp + 1 == vd && card_color(picked) != card_color(place)
}

/// The suits of two tokens agree, as `suit_matches` states.
fn suit_eq(a: &str, b: &str) -> (r: bool)
    ensures
        r == suit_matches(a@, b@),
{
    let la: usize = a.unicode_len();
    let lb: usize = b.unicode_len();
    if la >= 3 && lb >= 3 {
        a.get_char(2) == b.get_char(2)
    } else {
        la < 3 && lb < 3
    }
}

/// Foundation rule: same suit and rank one higher than the pile's top, or an
/// Ace onto an empty pile.
pub fn can_move_to_foundation(card: &str, foundation_top: &str) -> (r: bool)
    ensures
        r == spec_can_move_to_foundation(card@, foundation_top@),
{
    let vc = card_value(card);
    let vt = card_value(foundation_top);
    (vc == vt + 1 && suit_eq(card, foundation_top)) || (vc == 1 && vt == 0)
}

/// A token equals the blank marker.
pub fn is_blank(s: &str) -> (r: bool)
    requires
        s@.len() == 3,
    ensures
        r == (s@ == blank()),
{
    let r = s.get_char(0) == ' ' && s.get_char(1) == ' ' && s.get_char(2) == ' ';
    proof {
        if r {
            assert(s@ =~= blank());
        }
    }
    r
}

} // verus!
