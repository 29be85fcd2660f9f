//! Cards, colours, flag claims, and counting over sequences of cards.
use vstd::prelude::*;

verus! {

/// One of the six suits of the deck.
#[derive(Clone, Copy, Debug, PartialEq, Eq, Structural)]
pub enum Color {
    Color1,
    Color2,
    Color3,
    Color4,
    Color5,
    Color6,
}

/// A troop card: a colour and a strength.
#[derive(Clone, Copy, Debug, PartialEq, Eq, Structural)]
pub struct Card {
    pub color: Color,
    pub number: u8,
}

/// Whether a flag is still to be won.
#[derive(Clone, Copy, Debug, PartialEq, Eq, Structural)]
pub enum ClaimStatus {
    Unclaimed,
    Claimed,
}

/// Two strengths that follow one another (in either order).
pub open spec fn adjacent(a: u8, b: u8) -> bool {
    a + 1 == b || b + 1 == a
}

/// Tells whether two strengths follow one another.
pub fn numbers_adjacent(a: u8, b: u8) -> (r: bool)
    ensures
        r == adjacent(a, b),
{
    (a < 255 && a + 1 == b) || (b < 255 && b + 1 == a)
}

/// The card reported alongside `false` when no formation is found.
pub open spec fn spec_no_card() -> Card {
    Card { color: Color::Color1, number: 1 }
}

/// Builds the card reported alongside `false`.
pub fn no_card() -> (c: Card)
    ensures
        c == spec_no_card(),
{
    Card { color: Color::Color1, number: 1 }
}

/// The `(found, card)` pair that reports an optional card.
pub open spec fn as_result(o: Option<Card>) -> (bool, Card) {
    match o {
        Some(c) => (true, c),
        None => (false, spec_no_card()),
    }
}

/// Cards with the given strength.
pub open spec fn has_number(n: u8) -> spec_fn(Card) -> bool {
    |c: Card| c.number == n
}

/// Cards of the given colour.
pub open spec fn has_color(color: Color) -> spec_fn(Card) -> bool {
    |c: Card| c.color == color
}

/// How many cards of `s` satisfy `p`.
pub open spec fn count_where(s: Seq<Card>, p: spec_fn(Card) -> bool) -> nat
    decreases s.len(),
{
    if s.len() == 0 {
        0
    } else {
        count_where(s.drop_last(), p) + if p(s.last()) {
            1nat
        } else {
            0nat
        }
    }
}

/// The first card of `s` that satisfies `p`, if there is one.
pub open spec fn first_where(s: Seq<Card>, p: spec_fn(Card) -> bool) -> Option<Card>
    decreases s.len(),
{
    if s.len() == 0 {
        None
    } else {
        match first_where(s.drop_last(), p) {
            Some(c) => Some(c),
            None => if p(s.last()) {
                Some(s.last())
            } else {
                None
            },
        }
    }
}

/// A count never exceeds the length of the sequence.
pub proof fn lemma_count_where_bound(s: Seq<Card>, p: spec_fn(Card) -> bool)
    ensures
        count_where(s, p) <= s.len(),
    decreases s.len(),
{
    if s.len() > 0 {
        lemma_count_where_bound(s.drop_last(), p);
    }
}

/// The first card that satisfies `p` is a card of `s` and satisfies `p`.
pub proof fn lemma_first_where_member(s: Seq<Card>, p: spec_fn(Card) -> bool)
    ensures
        first_where(s, p) matches Some(c) ==> s.contains(c) && p(c),
        first_where(s, p) is None <==> forall|i: int| 0 <= i < s.len() ==> !p(#[trigger] s[i]),
    decreases s.len(),
{
    if s.len() > 0 {
        let t = s.drop_last();
        lemma_first_where_member(t, p);
        if let Some(c) = first_where(t, p) {
            let k = choose|k: int| 0 <= k < t.len() && t[k] == c;
            assert(s[k] == c);
        } else {
            assert(s[s.len() - 1] == s.last());
            assert forall|i: int| 0 <= i < s.len() - 1 implies s[i] == t[i] by {}
        }
        if first_where(s, p) is None {
            assert forall|i: int| 0 <= i < s.len() implies !p(#[trigger] s[i]) by {
                if i < s.len() - 1 {
                    assert(s[i] == t[i]);
                }
            }
        }
    }
}

/// When every card is counted, every card satisfies the condition.
pub proof fn lemma_count_where_all(s: Seq<Card>, p: spec_fn(Card) -> bool)
    requires
        count_where(s, p) == s.len(),
    ensures
        forall|i: int| 0 <= i < s.len() ==> p(#[trigger] s[i]),
    decreases s.len(),
{
    if s.len() > 0 {
        let t = s.drop_last();
        lemma_count_where_bound(t, p);
        lemma_count_where_all(t, p);
        assert forall|i: int| 0 <= i < s.len() implies p(#[trigger] s[i]) by {
            if i < t.len() {
                assert(s[i] == t[i]);
            } else {
                assert(s[i] == s.last());
            }
        }
    }
}

/// The first card that satisfies `p` has no card before it that satisfies `p`.
pub proof fn lemma_first_where_first(s: Seq<Card>, p: spec_fn(Card) -> bool)
    ensures
        first_where(s, p) matches Some(c) ==> exists|k: int|
            0 <= k < s.len() && #[trigger] s[k] == c && forall|i: int| 0 <= i < k ==> !p(#[trigger] s[i]),
    decreases s.len(),
{
    if s.len() > 0 {
        let t = s.drop_last();
        lemma_first_where_first(t, p);
        lemma_first_where_member(t, p);
        if let Some(c) = first_where(s, p) {
            if let Some(d) = first_where(t, p) {
                let k = choose|k: int| 0 <= k < t.len() && #[trigger] t[k] == d && forall|i: int| 0 <= i < k ==> !p(#[trigger] t[i]);
                assert(s[k] == c);
                assert forall|i: int| 0 <= i < k implies !p(#[trigger] s[i]) by {
                    assert(s[i] == t[i]);
                }
            } else {
                let k = s.len() - 1;
                assert(s[k] == c);
                assert forall|i: int| 0 <= i < k implies !p(#[trigger] s[i]) by {
                    assert(s[i] == t[i]);
                }
            }
        }
    }
}

/// When every card satisfies the condition, every card is counted.
pub proof fn lemma_count_where_full(s: Seq<Card>, p: spec_fn(Card) -> bool)
    requires
        forall|i: int| 0 <= i < s.len() ==> p(#[trigger] s[i]),
    ensures
        count_where(s, p) == s.len(),
    decreases s.len(),
{
    if s.len() > 0 {
        let t = s.drop_last();
        assert forall|i: int| 0 <= i < t.len() implies p(#[trigger] t[i]) by {
            assert(t[i] == s[i]);
        }
        lemma_count_where_full(t, p);
        assert(p(s[s.len() - 1]));
    }
}

/// The count of cards that satisfy `p` is the length of the subsequence of
/// those cards.
pub proof fn lemma_count_where_is_filter_len(s: Seq<Card>, p: spec_fn(Card) -> bool)
    ensures
        count_where(s, p) == s.filter(p).len(),
    decreases s.len(),
{
    reveal(Seq::filter);
    if s.len() > 0 {
        lemma_count_where_is_filter_len(s.drop_last(), p);
    }
}

/// `has_number(n)` holds of the cards of strength `n`, `has_color(color)` of
/// the cards of colour `color`, and two strengths are adjacent when they
/// differ by one.
pub proof fn lemma_card_conditions(c: Card, n: u8, color: Color, a: u8, b: u8)
    ensures
        has_number(n)(c) <==> c.number == n,
        has_color(color)(c) <==> c.color == color,
        adjacent(a, b) <==> (a as int - b as int == 1 || b as int - a as int == 1),
{
}

} // verus!
