//! Playing cards by their labels, and the order of their strength.

use vstd::prelude::*;
use std::cmp::Ordering;

verus! {

/// The character is the label of a card: a digit, or one of `T`, `J`, `Q`,
/// `K`, `A`.
pub open spec fn is_card(c: char) -> bool {
    ('0' <= c && c <= '9') || c == 'T' || c == 'J' || c == 'Q' || c == 'K' || c == 'A'
}

/// The number that a digit stands for.
pub open spec fn digit_value(c: char) -> int {
    if c == '0' {
        0
    } else if c == '1' {
        1
    } else if c == '2' {
        2
    } else if c == '3' {
        3
    } else if c == '4' {
        4
    } else if c == '5' {
        5
    } else if c == '6' {
        6
    } else if c == '7' {
        7
    } else if c == '8' {
        8
    } else {
        9
    }
}

/// The strength of a card where the `J` counts `joker`: a digit counts its
/// number, `T` ten, `Q` twelve, `K` thirteen and `A` fourteen.
pub open spec fn card_value(c: char, joker: u32) -> int {
    if c == 'T' {
        10
    } else if c == 'J' {
        joker as int
    } else if c == 'Q' {
        12
    } else if c == 'K' {
        13
    } else if c == 'A' {
        14
    } else {
        digit_value(c)
    }
}

/// The strength of a card where the `J` counts `joker`.
pub fn card_to_u32(c: char, joker: u32) -> (v: u32)
    requires
        is_card(c),
    ensures
        v == card_value(c, joker),
{
    if c == 'T' {
        10
    } else if c == 'J' {
        joker
    } else if c == 'Q' {
        12
    } else if c == 'K' {
        13
    } else if c == 'A' {
        14
    } else if c == '0' {
        0
    } else if c == '1' {
        1
    } else if c == '2' {
        2
    } else if c == '3' {
        3
    } else if c == '4' {
        4
    } else if c == '5' {
        5
    } else if c == '6' {
        6
    } else if c == '7' {
        7
    } else if c == '8' {
        8
    } else {
        9
    }
}

/// How the first card stands to the second by strength.
pub fn compare_cards(c1: char, c2: char, joker: u32) -> (r: Ordering)
    requires
        is_card(c1),
        is_card(c2),
    ensures
        match r {
            Ordering::Less => card_value(c1, joker) < card_value(c2, joker),
            Ordering::Equal => card_value(c1, joker) == card_value(c2, joker),
            Ordering::Greater => card_value(c1, joker) > card_value(c2, joker),
        },
{
    let v1 = card_to_u32(c1, joker);
    let v2 = card_to_u32(c2, joker);
    if v1 < v2 {
        Ordering::Less
    } else if v1 == v2 {
        Ordering::Equal
    } else {
        Ordering::Greater
    }
}

/// The kinds of hands, the strongest first.
#[derive(Copy, Clone, Debug, PartialEq, Eq, Structural, PartialOrd, Ord)]
pub enum HandType {
    FiveKind,
    FourKind,
    FullHouse,
    ThreeKind,
    TwoPair,
    OnePair,
    HighCard,
}

/// One if the cards at the two places of the hand are the same, else zero.
pub open spec fn same(h: Seq<char>, i: int, j: int) -> int {
    if h[i] == h[j] {
        1
    } else {
        0
    }
}

/// The number of pairs of places of a hand of five that hold the same card.
pub open spec fn pairs(h: Seq<char>) -> int {
    same(h, 0, 1) + same(h, 0, 2) + same(h, 0, 3) + same(h, 0, 4) + same(h, 1, 2) + same(h, 1, 3) + same(h, 1, 4)
        + same(h, 2, 3) + same(h, 2, 4) + same(h, 3, 4)
}

/// The kind of a hand with the given number of equal pairs: ten for five of
/// a kind, six for four, four for a full house, three for three of a kind,
/// two for two pairs, one for one pair.
pub open spec fn kind_of(p: int) -> HandType {
    if p == 10 {
        HandType::FiveKind
    } else if p == 6 {
        HandType::FourKind
    } else if p == 4 {
        HandType::FullHouse
    } else if p == 3 {
        HandType::ThreeKind
    } else if p == 2 {
        HandType::TwoPair
    } else if p == 1 {
        HandType::OnePair
    } else {
        HandType::HighCard
    }
}

/// The hand with every `J` standing for the card `c`.
pub open spec fn stand_in(h: Seq<char>, c: char) -> Seq<char> {
    Seq::new(
        h.len(),
        |i: int|
            if h[i] == 'J' {
                c
            } else {
                h[i]
            },
    )
}

/// With every `J` standing for `c` the hand has as many equal pairs as it
/// can have with every `J` standing for one card.
pub open spec fn best_stand_in(h: Seq<char>, c: char) -> bool {
    forall|d: char| pairs(#[trigger] stand_in(h, d)) <= pairs(stand_in(h, c))
}

/// The number of places of a hand of five that hold the card `c`.
pub open spec fn count_of(h: Seq<char>, c: char) -> int {
    (if h[0] == c { 1int } else { 0 }) + (if h[1] == c { 1int } else { 0 }) + (if h[2] == c { 1int } else { 0 }) + (if h[3]
        == c { 1int } else { 0 }) + (if h[4] == c { 1int } else { 0 })
}

/// Jokers that stand for a card held most often among the others give the
/// most equal pairs.
pub proof fn lemma_most_frequent_is_best(h: Seq<char>, c: char)
    requires
        h.len() == 5,
        c != 'J',
        forall|i: int| 0 <= i < 5 && h[i] != 'J' ==> count_of(h, #[trigger] h[i]) <= count_of(h, c),
    ensures
        best_stand_in(h, c),
{
    let j = count_of(h, 'J');
    assert forall|d: char| pairs(#[trigger] stand_in(h, d)) <= pairs(stand_in(h, c)) by {
        let a = stand_in(h, d);
        let b = stand_in(h, c);
        assert(a.len() == 5 && b.len() == 5);
        assert(a[0] == if h[0] == 'J' { d } else { h[0] });
        assert(a[1] == if h[1] == 'J' { d } else { h[1] });
        assert(a[2] == if h[2] == 'J' { d } else { h[2] });
        assert(a[3] == if h[3] == 'J' { d } else { h[3] });
        assert(a[4] == if h[4] == 'J' { d } else { h[4] });
        assert(b[0] == if h[0] == 'J' { c } else { h[0] });
        assert(b[1] == if h[1] == 'J' { c } else { h[1] });
        assert(b[2] == if h[2] == 'J' { c } else { h[2] });
        assert(b[3] == if h[3] == 'J' { c } else { h[3] });
        assert(b[4] == if h[4] == 'J' { c } else { h[4] });
        if d == 'J' {
        } else if count_of(h, d) == 0 {
        } else {
            assert(count_of(h, d) <= count_of(h, c));
        }
    }
}

impl HandType {
    /// The kind of a hand of five cards. Where `part2` is set, every `J` is
    /// a joker and stands for the card that makes the hand strongest.
    pub fn from_hand(hand: &str, part2: bool) -> (r: Self)
        requires
            hand@.len() == 5,
        ensures
            !part2 ==> r == kind_of(pairs(hand@)),
            part2 ==> exists|c: char| best_stand_in(hand@, c) && r == kind_of(pairs(#[trigger] stand_in(hand@, c))),
    {
        let mut cards: [char; 5] = [hand.get_char(0), hand.get_char(1), hand.get_char(2), hand.get_char(3), hand.get_char(4)];
        let ghost h = hand@;
        assert(cards@ =~= h);
        let ghost chosen = 'J';
        if part2 {
            let mut best: char = 'J';
            let mut best_count: usize = 0;
            let mut i: usize = 0;
            while i < 5
                invariant
                    i <= 5,
                    cards@ == h,
                    h.len() == 5,
                    best_count <= 5,
                    best == 'J' ==> best_count == 0,
                    best != 'J' ==> best_count == count_of(h, best) && best_count > 0,
                    forall|k: int| 0 <= k < i && h[k] != 'J' ==> count_of(h, #[trigger] h[k]) <= best_count,
                decreases 5 - i,
            {
                let c = cards[i];
                if c != 'J' {
                    let mut n: usize = 0;
                    if cards[0] == c {
                        n = n + 1;
                    }
                    if cards[1] == c {
                        n = n + 1;
                    }
                    if cards[2] == c {
                        n = n + 1;
                    }
                    if cards[3] == c {
                        n = n + 1;
                    }
                    if cards[4] == c {
                        n = n + 1;
                    }
                    assert(n == count_of(h, c));
                    if n > best_count {
                        best = c;
                        best_count = n;
                    }
                }
                i = i + 1;
            }
            if best == 'J' {
                proof {
                    chosen = 'A';
                    assert(h[0] == 'J' && h[1] == 'J' && h[2] == 'J' && h[3] == 'J' && h[4] == 'J');
                    lemma_most_frequent_is_best(h, 'A');
                    let b = stand_in(h, 'A');
                    assert(b[0] == 'A' && b[1] == 'A' && b[2] == 'A' && b[3] == 'A' && b[4] == 'A');
                    assert(pairs(b) == 10);
                }
                return HandType::FiveKind;
            }
            proof {
                chosen = best;
                lemma_most_frequent_is_best(h, best);
            }
            let mut k: usize = 0;
            while k < 5
                invariant
                    k <= 5,
                    h.len() == 5,
                    cards@.len() == 5,
                    forall|m: int| 0 <= m < k ==> cards@[m] == stand_in(h, best)[m],
                    forall|m: int| k <= m < 5 ==> cards@[m] == h[m],
                decreases 5 - k,
            {
                if cards[k] == 'J' {
                    cards[k] = best;
                }
                k = k + 1;
            }
            assert(cards@ =~= stand_in(h, best));
        }
        let mut p: usize = 0;
        if cards[0] == cards[1] {
            p = p + 1;
        }
        if cards[0] == cards[2] {
            p = p + 1;
        }
        if cards[0] == cards[3] {
            p = p + 1;
        }
        if cards[0] == cards[4] {
            p = p + 1;
        }
        if cards[1] == cards[2] {
            p = p + 1;
        }
        if cards[1] == cards[3] {
            p = p + 1;
        }
        if cards[1] == cards[4] {
            p = p + 1;
        }
        if cards[2] == cards[3] {
            p = p + 1;
        }
        if cards[2] == cards[4] {
            p = p + 1;
        }
        if cards[3] == cards[4] {
            p = p + 1;
        }
        assert(p == pairs(cards@));
        if p == 10 {
            HandType::FiveKind
        } else if p == 6 {
            HandType::FourKind
        } else if p == 4 {
            HandType::FullHouse
        } else if p == 3 {
            HandType::ThreeKind
        } else if p == 2 {
            HandType::TwoPair
        } else if p == 1 {
            HandType::OnePair
        } else {
            HandType::HighCard
        }
    }
}

} // verus!
