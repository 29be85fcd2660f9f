//! Recognising, for one flag, a formation that cards of the hand complete.
//!
//! Each check looks at the cards already on the flag and the cards in hand
//! and reports `(true, card)` with the card to play when the flag and the hand
//! together hold at least three cards of the formation, every flag card taking
//! part in it; otherwise `(false, Card { color: Color1, number: 1 })`.
use vstd::prelude::*;
use crate::card::{
    Card, Color, as_result, count_where, first_where, has_number, has_color, adjacent,
    numbers_adjacent, no_card, lemma_count_where_bound, lemma_first_where_member,
    lemma_count_where_all, lemma_first_where_first, lemma_count_where_full,
};

verus! {

/// Every flag card has strength `n`, the flag and the hand hold at least three
/// such cards between them, and the hand holds one.
pub open spec fn phalanx_fits(hand: Seq<Card>, flag: Seq<Card>, n: u8) -> bool {
    &&& count_where(flag, has_number(n)) == flag.len()
    &&& count_where(flag, has_number(n)) + count_where(hand, has_number(n)) >= 3
    &&& first_where(hand, has_number(n)) is Some
}

/// The card chosen after trying the strengths `1 .. k` in increasing order:
/// the first hand card of the last strength that fits.
pub open spec fn phalanx_scan(hand: Seq<Card>, flag: Seq<Card>, k: int) -> Option<Card>
    decreases k,
{
    if k <= 1 {
        None
    } else if 0 <= k - 1 <= 255 && phalanx_fits(hand, flag, (k - 1) as u8) {
        first_where(hand, has_number((k - 1) as u8))
    } else {
        phalanx_scan(hand, flag, k - 1)
    }
}

/// The phalanx card: strengths 1 to 9 are tried.
pub open spec fn phalanx_pick(hand: Seq<Card>, flag: Seq<Card>) -> Option<Card> {
    phalanx_scan(hand, flag, 10)
}

/// Counts the cards of `s` that have strength `n`, and finds the first.
fn scan_number(s: &Vec<Card>, n: u8) -> (r: (usize, Option<Card>))
    ensures
        r.0 == count_where(s@, has_number(n)),
        r.1 == first_where(s@, has_number(n)),
{
    let mut num: usize = 0;
    let mut first: Option<Card> = None;
    let mut i: usize = 0;
    while i < s.len()
        invariant
            i <= s.len(),
            num == count_where(s@.take(i as int), has_number(n)),
            first == first_where(s@.take(i as int), has_number(n)),
        decreases s.len() - i,
    {
        proof {
            lemma_count_where_bound(s@.take(i as int), has_number(n));
            assert(s@.take(i + 1).drop_last() =~= s@.take(i as int));
        }
        let x = s[i];
        if x.number == n {
            num += 1;
            if first.is_none() {
                first = Some(x);
            }
        }
        i += 1;
    }
    proof {
        assert(s@.take(s.len() as int) =~= s@);
    }
    (num, first)
}

/// Looks for three or more cards of one strength (a phalanx) that the hand
/// completes on the flag; reports the first hand card of the highest such
/// strength from 1 to 9.
pub fn check_for_phalanx(hand: &Vec<Card>, flag_cards: &Vec<Card>, colors_vec: &Vec<Color>) -> (result: (bool, Card))
    ensures
        !result.0 ==> result.1 == (Card { color: Color::Color1, number: 1 }),
        result == as_result(phalanx_pick(hand@, flag_cards@)),
        result.0 <==> exists|n: u8| 1 <= n <= 9 && #[trigger] phalanx_fits(hand@, flag_cards@, n),
        result.0 ==> {
            &&& 1 <= result.1.number <= 9
            &&& phalanx_fits(hand@, flag_cards@, result.1.number)
            &&& first_where(hand@, has_number(result.1.number)) == Some(result.1)
            &&& hand@.contains(result.1)
            &&& forall|n: u8| result.1.number < n <= 9 ==> !#[trigger] phalanx_fits(hand@, flag_cards@, n)
        },
        result.0 ==> {
            &&& forall|i: int| 0 <= i < flag_cards.len() ==> #[trigger] flag_cards@[i].number == result.1.number
            &&& exists|k: int|
                0 <= k < hand.len() && #[trigger] hand@[k] == result.1 && forall|i: int|
                    0 <= i < k ==> #[trigger] hand@[i].number != result.1.number
            &&& flag_cards.len() + count_where(hand@, has_number(result.1.number)) >= 3
        },
        result.0 <==> exists|n: u8| 1 <= n <= 9 && #[trigger] phalanx_possible(hand@, flag_cards@, n),
        result.0 ==> phalanx_possible(hand@, flag_cards@, result.1.number) && forall|n: u8|
            result.1.number < n <= 9 ==> !#[trigger] phalanx_possible(hand@, flag_cards@, n),
{
    let mut card: Option<Card> = None;
    let mut card_num: u8 = 1;
    while card_num < 10
        invariant
            1 <= card_num <= 10,
            card == phalanx_scan(hand@, flag_cards@, card_num as int),
        decreases 10 - card_num,
    {
        let (num, temp_card) = scan_number(hand, card_num);
        let (flag_nums, _) = scan_number(flag_cards, card_num);
        let enough = if flag_cards.len() != flag_nums {
            false
        } else {
            flag_nums >= 3 || num >= 3 - flag_nums
        };
        if enough && temp_card.is_some() {
            card = temp_card;
        }
        card_num += 1;
    }
    proof {
        lemma_phalanx_scan_chosen(hand@, flag_cards@, 10);
        lemma_phalanx_law(hand@, flag_cards@);
        lemma_phalanx_characterized(hand@, flag_cards@);
    }
    match card {
        Some(x) => (true, x),
        None => (false, no_card()),
    }
}
/// What the phalanx search over strengths `1 .. k` reports: the first hand
/// card of the highest strength that fits, or nothing when none fits.
pub proof fn lemma_phalanx_scan_chosen(hand: Seq<Card>, flag: Seq<Card>, k: int)
    requires
        k <= 256,
    ensures
        phalanx_scan(hand, flag, k) matches Some(c) ==> {
            &&& 1 <= c.number < k
            &&& phalanx_fits(hand, flag, c.number)
            &&& first_where(hand, has_number(c.number)) == Some(c)
            &&& hand.contains(c)
            &&& forall|n: u8| c.number < n < k ==> !#[trigger] phalanx_fits(hand, flag, n)
        },
        phalanx_scan(hand, flag, k) is None ==> forall|n: u8| 1 <= n < k ==> !#[trigger] phalanx_fits(hand, flag, n),
    decreases k,
{
    if k > 1 {
        lemma_phalanx_scan_chosen(hand, flag, k - 1);
        lemma_first_where_member(hand, has_number((k - 1) as u8));
        if let Some(c) = phalanx_scan(hand, flag, k) {
            if phalanx_fits(hand, flag, (k - 1) as u8) {
                assert(c.number == k - 1);
            }
        }
    }
}

/// The highest-strength card of colour `color` in `s`, the first of equals.
pub open spec fn best_of_color(s: Seq<Card>, color: Color) -> Option<Card>
    decreases s.len(),
{
    if s.len() == 0 {
        None
    } else {
        let prev = best_of_color(s.drop_last(), color);
        let x = s.last();
        if x.color == color {
            match prev {
                Some(p) => if x.number > p.number {
                    Some(x)
                } else {
                    Some(p)
                },
                None => Some(x),
            }
        } else {
            prev
        }
    }
}

/// Every flag card has colour `color`, the flag and the hand hold at least
/// three such cards between them, and the hand holds one.
pub open spec fn battalion_fits(hand: Seq<Card>, flag: Seq<Card>, color: Color) -> bool {
    &&& count_where(flag, has_color(color)) == flag.len()
    &&& count_where(flag, has_color(color)) + count_where(hand, has_color(color)) >= 3
    &&& best_of_color(hand, color) is Some
}

/// The card chosen after trying the colours of `colors` in order: the best
/// hand card of the last colour that fits.
pub open spec fn battalion_scan(hand: Seq<Card>, flag: Seq<Card>, colors: Seq<Color>) -> Option<Card>
    decreases colors.len(),
{
    if colors.len() == 0 {
        None
    } else if battalion_fits(hand, flag, colors.last()) {
        best_of_color(hand, colors.last())
    } else {
        battalion_scan(hand, flag, colors.drop_last())
    }
}

/// Counts the cards of `s` that have colour `color`, and finds the strongest.
fn scan_color(s: &Vec<Card>, color: Color) -> (r: (usize, Option<Card>))
    ensures
        r.0 == count_where(s@, has_color(color)),
        r.1 == best_of_color(s@, color),
{
    let mut num: usize = 0;
    let mut best: Option<Card> = None;
    let mut i: usize = 0;
    while i < s.len()
        invariant
            i <= s.len(),
            num == count_where(s@.take(i as int), has_color(color)),
            best == best_of_color(s@.take(i as int), color),
        decreases s.len() - i,
    {
        proof {
            lemma_count_where_bound(s@.take(i as int), has_color(color));
            assert(s@.take(i + 1).drop_last() =~= s@.take(i as int));
        }
        let x = s[i];
        if x.color == color {
            num += 1;
            best = match best {
                Some(p) => if x.number > p.number {
                    Some(Card { color: color, number: x.number })
                } else {
                    Some(p)
                },
                None => Some(x),
            };
        }
        i += 1;
    }
    proof {
        assert(s@.take(s.len() as int) =~= s@);
    }
    (num, best)
}

/// Looks for three or more cards of one colour (a battalion) that the hand
/// completes on the flag, trying the colours of `colors_vec` in order; reports
/// the strongest hand card of the last colour that fits.
pub fn check_for_battalion(hand: &Vec<Card>, flag_cards: &Vec<Card>, colors_vec: &Vec<Color>) -> (result: (bool, Card))
    ensures
        !result.0 ==> result.1 == (Card { color: Color::Color1, number: 1 }),
        result == as_result(battalion_scan(hand@, flag_cards@, colors_vec@)),
        result.0 <==> exists|j: int| 0 <= j < colors_vec.len() && #[trigger] battalion_fits(
            hand@,
            flag_cards@,
            colors_vec@[j],
        ),
        result.0 ==> {
            &&& best_of_color(hand@, result.1.color) == Some(result.1)
            &&& hand@.contains(result.1)
            &&& exists|j: int| {
                &&& 0 <= j < colors_vec.len()
                &&& colors_vec@[j] == result.1.color
                &&& #[trigger] battalion_fits(hand@, flag_cards@, colors_vec@[j])
                &&& forall|i: int| j < i < colors_vec.len() ==> !#[trigger] battalion_fits(hand@, flag_cards@, colors_vec@[i])
            }
        },
        result.0 ==> {
            &&& colors_vec@.contains(result.1.color)
            &&& forall|i: int| 0 <= i < flag_cards.len() ==> #[trigger] flag_cards@[i].color == result.1.color
            &&& forall|i: int|
                0 <= i < hand.len() && #[trigger] hand@[i].color == result.1.color ==> hand@[i].number <= result.1.number
            &&& flag_cards.len() + count_where(hand@, has_color(result.1.color)) >= 3
        },
        result.0 <==> exists|j: int|
            0 <= j < colors_vec.len() && #[trigger] battalion_possible(hand@, flag_cards@, colors_vec@[j]),
        result.0 ==> exists|j: int| {
            &&& 0 <= j < colors_vec.len()
            &&& colors_vec@[j] == result.1.color
            &&& #[trigger] battalion_possible(hand@, flag_cards@, colors_vec@[j])
            &&& forall|i: int| j < i < colors_vec.len() ==> !#[trigger] battalion_possible(hand@, flag_cards@, colors_vec@[i])
        },
        result.0 ==> exists|k: int|
            0 <= k < hand.len() && #[trigger] hand@[k] == result.1 && forall|i: int|
                0 <= i < k && #[trigger] hand@[i].color == result.1.color ==> hand@[i].number < result.1.number,
{
    let mut card: Option<Card> = None;
    let mut k: usize = 0;
    while k < colors_vec.len()
        invariant
            k <= colors_vec.len(),
            card == battalion_scan(hand@, flag_cards@, colors_vec@.take(k as int)),
        decreases colors_vec.len() - k,
    {
        let color_string = colors_vec[k];
        let (num, temp_card) = scan_color(hand, color_string);
        let (flag_nums, _) = scan_color(flag_cards, color_string);
        let enough = if flag_cards.len() != flag_nums {
            false
        } else {
            flag_nums >= 3 || num >= 3 - flag_nums
        };
        if enough && temp_card.is_some() {
            card = temp_card;
        }
        proof {
            assert(colors_vec@.take(k + 1).drop_last() =~= colors_vec@.take(k as int));
        }
        k += 1;
    }
    proof {
        assert(colors_vec@.take(colors_vec.len() as int) =~= colors_vec@);
        lemma_battalion_scan_chosen(hand@, flag_cards@, colors_vec@);
        lemma_battalion_law(hand@, flag_cards@, colors_vec@);
        lemma_battalion_characterized(hand@, flag_cards@, colors_vec@);
        if let Some(c) = battalion_scan(hand@, flag_cards@, colors_vec@) {
            lemma_battalion_scan_chosen(hand@, flag_cards@, colors_vec@);
            lemma_best_of_color_first(hand@, c.color);
        }
    }
    match card {
        Some(x) => (true, x),
        None => (false, no_card()),
    }
}

/// The strongest card of a colour is a card of the sequence, of that colour.
pub proof fn lemma_best_of_color_member(s: Seq<Card>, color: Color)
    ensures
        best_of_color(s, color) matches Some(c) ==> s.contains(c) && c.color == color,
    decreases s.len(),
{
    if s.len() > 0 {
        let t = s.drop_last();
        lemma_best_of_color_member(t, color);
        assert(s[s.len() - 1] == s.last());
        if let Some(c) = best_of_color(t, color) {
            let k = choose|k: int| 0 <= k < t.len() && t[k] == c;
            assert(s[k] == c);
        }
    }
}

/// What the battalion search over `colors` reports: the strongest hand card
/// of the last colour that fits, or nothing when none fits.
pub proof fn lemma_battalion_scan_chosen(hand: Seq<Card>, flag: Seq<Card>, colors: Seq<Color>)
    ensures
        battalion_scan(hand, flag, colors) matches Some(c) ==> {
            &&& best_of_color(hand, c.color) == Some(c)
            &&& hand.contains(c)
            &&& exists|j: int| {
                &&& 0 <= j < colors.len()
                &&& colors[j] == c.color
                &&& #[trigger] battalion_fits(hand, flag, colors[j])
                &&& forall|i: int| j < i < colors.len() ==> !#[trigger] battalion_fits(hand, flag, colors[i])
            }
        },
        battalion_scan(hand, flag, colors) is None ==> forall|i: int|
            0 <= i < colors.len() ==> !#[trigger] battalion_fits(hand, flag, colors[i]),
    decreases colors.len(),
{
    if colors.len() > 0 {
        let t = colors.drop_last();
        lemma_battalion_scan_chosen(hand, flag, t);
        lemma_best_of_color_member(hand, colors.last());
        assert forall|i: int| 0 <= i < t.len() implies colors[i] == t[i] by {}
        if let Some(c) = battalion_scan(hand, flag, colors) {
            if battalion_fits(hand, flag, colors.last()) {
                let j = colors.len() - 1;
                assert(colors[j] == colors.last());
                assert(battalion_fits(hand, flag, colors[j]));
            } else {
                let j = choose|j: int| {
                    &&& 0 <= j < t.len()
                    &&& t[j] == c.color
                    &&& #[trigger] battalion_fits(hand, flag, t[j])
                    &&& forall|i: int| j < i < t.len() ==> !#[trigger] battalion_fits(hand, flag, t[i])
                };
                assert(colors[j] == t[j]);
                assert(battalion_fits(hand, flag, colors[j]));
                assert forall|i: int| j < i < colors.len() implies !#[trigger] battalion_fits(hand, flag, colors[i]) by {
                    if i < t.len() {
                        assert(colors[i] == t[i]);
                        assert(!battalion_fits(hand, flag, t[i]));
                    } else {
                        assert(colors[i] == colors.last());
                    }
                }
            }
        } else {
            assert forall|i: int| 0 <= i < colors.len() implies !#[trigger] battalion_fits(hand, flag, colors[i]) by {
                if i < t.len() {
                    assert(colors[i] == t[i]);
                    assert(!battalion_fits(hand, flag, t[i]));
                } else {
                    assert(colors[i] == colors.last());
                }
            }
        }
    }
}

/// The cards that run on from `c0`: a different card whose strength follows
/// or precedes that of `c0`, and, where `suited`, of the same colour.
pub open spec fn neighbor(c0: Card, suited: bool) -> spec_fn(Card) -> bool {
    |c: Card| c != c0 && adjacent(c0.number, c.number) && (suited ==> c.color == c0.color)
}

/// Every flag card runs on from `c0`, `c0` with the neighbours on the flag and
/// in the hand makes at least three cards, and the hand holds a neighbour.
pub open spec fn run_fits(hand: Seq<Card>, flag: Seq<Card>, c0: Card, suited: bool) -> bool {
    &&& count_where(flag, neighbor(c0, suited)) == flag.len()
    &&& count_where(flag, neighbor(c0, suited)) + 1 + count_where(hand, neighbor(c0, suited)) >= 3
    &&& first_where(hand, neighbor(c0, suited)) is Some
}

/// The card chosen after trying each card of `cands` in order as the centre of
/// a run: the first neighbour in hand of the last centre that fits.
pub open spec fn run_scan(hand: Seq<Card>, flag: Seq<Card>, cands: Seq<Card>, suited: bool) -> Option<Card>
    decreases cands.len(),
{
    if cands.len() == 0 {
        None
    } else if run_fits(hand, flag, cands.last(), suited) {
        first_where(hand, neighbor(cands.last(), suited))
    } else {
        run_scan(hand, flag, cands.drop_last(), suited)
    }
}

/// The wedge card: centres are the hand cards, then the flag cards.
pub open spec fn wedge_pick(hand: Seq<Card>, flag: Seq<Card>) -> Option<Card> {
    run_scan(hand, flag, hand + flag, true)
}

/// The skirmish card: as a wedge, with colours ignored.
pub open spec fn skirmish_pick(hand: Seq<Card>, flag: Seq<Card>) -> Option<Card> {
    run_scan(hand, flag, hand + flag, false)
}

/// Counts the neighbours of `c0` in `s`, and finds the first.
fn scan_neighbors(s: &Vec<Card>, c0: Card, suited: bool) -> (r: (usize, Option<Card>))
    ensures
        r.0 == count_where(s@, neighbor(c0, suited)),
        r.1 == first_where(s@, neighbor(c0, suited)),
{
    let mut num: usize = 0;
    let mut first: Option<Card> = None;
    let mut i: usize = 0;
    while i < s.len()
        invariant
            i <= s.len(),
            num == count_where(s@.take(i as int), neighbor(c0, suited)),
            first == first_where(s@.take(i as int), neighbor(c0, suited)),
        decreases s.len() - i,
    {
        proof {
            lemma_count_where_bound(s@.take(i as int), neighbor(c0, suited));
            assert(s@.take(i + 1).drop_last() =~= s@.take(i as int));
        }
        let x = s[i];
        if x != c0 && numbers_adjacent(c0.number, x.number) && (!suited || x.color == c0.color) {
            num += 1;
            if first.is_none() {
                first = Some(x);
            }
        }
        i += 1;
    }
    proof {
        assert(s@.take(s.len() as int) =~= s@);
    }
    (num, first)
}

/// One step of the run search: the choice after also trying `c0` as centre.
fn run_step(hand: &Vec<Card>, flag_cards: &Vec<Card>, c0: Card, suited: bool, card: Option<Card>) -> (r: Option<Card>)
    ensures
        r == (if run_fits(hand@, flag_cards@, c0, suited) {
            first_where(hand@, neighbor(c0, suited))
        } else {
            card
        }),
{
    let (num, temp_card) = scan_neighbors(hand, c0, suited);
    let (flag_nums, _) = scan_neighbors(flag_cards, c0, suited);
    let enough = if flag_cards.len() != flag_nums {
        false
    } else {
        flag_nums >= 2 || num >= 2 - flag_nums
    };
    if enough && temp_card.is_some() {
        temp_card
    } else {
        card
    }
}

/// Tries every card of the hand, then of the flag, as the centre of a run.
fn check_for_run(hand: &Vec<Card>, flag_cards: &Vec<Card>, suited: bool) -> (result: (bool, Card))
    ensures
        result == as_result(run_scan(hand@, flag_cards@, hand@ + flag_cards@, suited)),
        result.0 ==> hand@.contains(result.1),
{
    let mut card: Option<Card> = None;
    let mut j: usize = 0;
    while j < hand.len()
        invariant
            j <= hand.len(),
            card == run_scan(hand@, flag_cards@, hand@.take(j as int), suited),
        decreases hand.len() - j,
    {
        card = run_step(hand, flag_cards, hand[j], suited, card);
        proof {
            assert(hand@.take(j + 1).drop_last() =~= hand@.take(j as int));
        }
        j += 1;
    }
    assert(hand@.take(hand.len() as int) =~= hand@ + flag_cards@.take(0));
    let mut j: usize = 0;
    while j < flag_cards.len()
        invariant
            j <= flag_cards.len(),
            card == run_scan(hand@, flag_cards@, hand@ + flag_cards@.take(j as int), suited),
        decreases flag_cards.len() - j,
    {
        card = run_step(hand, flag_cards, flag_cards[j], suited, card);
        proof {
            assert((hand@ + flag_cards@.take(j + 1)).drop_last() =~= hand@ + flag_cards@.take(j as int));
        }
        j += 1;
    }
    proof {
        assert(flag_cards@.take(flag_cards.len() as int) =~= flag_cards@);
        lemma_run_scan_chosen(hand@, flag_cards@, hand@ + flag_cards@, suited);
    }
    match card {
        Some(x) => (true, x),
        None => (false, no_card()),
    }
}

/// What the run search over the centres `cands` reports: the first hand
/// neighbour of the last centre that fits, or nothing when none fits.
pub proof fn lemma_run_scan_chosen(hand: Seq<Card>, flag: Seq<Card>, cands: Seq<Card>, suited: bool)
    ensures
        run_scan(hand, flag, cands, suited) matches Some(c) ==> {
            &&& hand.contains(c)
            &&& exists|j: int| {
                &&& 0 <= j < cands.len()
                &&& #[trigger] run_fits(hand, flag, cands[j], suited)
                &&& first_where(hand, neighbor(cands[j], suited)) == Some(c)
                &&& forall|i: int| j < i < cands.len() ==> !#[trigger] run_fits(hand, flag, cands[i], suited)
            }
        },
        run_scan(hand, flag, cands, suited) is None ==> forall|i: int|
            0 <= i < cands.len() ==> !#[trigger] run_fits(hand, flag, cands[i], suited),
    decreases cands.len(),
{
    if cands.len() > 0 {
        let t = cands.drop_last();
        lemma_run_scan_chosen(hand, flag, t, suited);
        lemma_first_where_member(hand, neighbor(cands.last(), suited));
        assert forall|i: int| 0 <= i < t.len() implies cands[i] == t[i] by {}
        if let Some(c) = run_scan(hand, flag, cands, suited) {
            if run_fits(hand, flag, cands.last(), suited) {
                let j = cands.len() - 1;
                assert(cands[j] == cands.last());
                assert(run_fits(hand, flag, cands[j], suited));
            } else {
                let j = choose|j: int| {
                    &&& 0 <= j < t.len()
                    &&& #[trigger] run_fits(hand, flag, t[j], suited)
                    &&& first_where(hand, neighbor(t[j], suited)) == Some(c)
                    &&& forall|i: int| j < i < t.len() ==> !#[trigger] run_fits(hand, flag, t[i], suited)
                };
                assert(cands[j] == t[j]);
                assert(run_fits(hand, flag, cands[j], suited));
                assert forall|i: int| j < i < cands.len() implies !#[trigger] run_fits(hand, flag, cands[i], suited) by {
                    if i < t.len() {
                        assert(cands[i] == t[i]);
                        assert(!run_fits(hand, flag, t[i], suited));
                    } else {
                        assert(cands[i] == cands.last());
                    }
                }
            }
        } else {
            assert forall|i: int| 0 <= i < cands.len() implies !#[trigger] run_fits(hand, flag, cands[i], suited) by {
                if i < t.len() {
                    assert(cands[i] == t[i]);
                    assert(!run_fits(hand, flag, t[i], suited));
                } else {
                    assert(cands[i] == cands.last());
                }
            }
        }
    }
}

/// Looks for three cards of one colour with consecutive strengths (a wedge)
/// that the hand completes on the flag; reports the first hand card that runs
/// on from the last centre that fits.
pub fn check_for_wedge(hand: &Vec<Card>, flag_cards: &Vec<Card>, colors_vec: &Vec<Color>) -> (result: (bool, Card))
    ensures
        !result.0 ==> result.1 == (Card { color: Color::Color1, number: 1 }),
        result == as_result(wedge_pick(hand@, flag_cards@)),
        result.0 <==> exists|j: int| 0 <= j < hand.len() + flag_cards.len() && #[trigger] run_fits(
            hand@,
            flag_cards@,
            (hand@ + flag_cards@)[j],
            true,
        ),
        result.0 ==> {
            &&& hand@.contains(result.1)
            &&& exists|j: int| {
                &&& 0 <= j < hand.len() + flag_cards.len()
                &&& #[trigger] run_fits(hand@, flag_cards@, (hand@ + flag_cards@)[j], true)
                &&& first_where(hand@, neighbor((hand@ + flag_cards@)[j], true)) == Some(result.1)
                &&& forall|i: int| j < i < hand.len() + flag_cards.len() ==> !#[trigger] run_fits(
                    hand@,
                    flag_cards@,
                    (hand@ + flag_cards@)[i],
                    true,
                )
            }
        },        result.0 ==> {
            &&& exists|j: int| {
                &&& 0 <= j < hand.len() + flag_cards.len()
                &&& #[trigger] (hand@ + flag_cards@)[j] != result.1
                &&& (result.1.number + 1 == (hand@ + flag_cards@)[j].number || (hand@ + flag_cards@)[j].number + 1
                    == result.1.number)
                &&& (true ==> result.1.color == (hand@ + flag_cards@)[j].color)
                &&& forall|i: int| 0 <= i < flag_cards.len() ==> {
                    &&& #[trigger] flag_cards@[i] != (hand@ + flag_cards@)[j]
                    &&& (flag_cards@[i].number + 1 == (hand@ + flag_cards@)[j].number || (hand@ + flag_cards@)[j].number
                        + 1 == flag_cards@[i].number)
                    &&& (true ==> flag_cards@[i].color == (hand@ + flag_cards@)[j].color)
                }
            }
            &&& forall|i: int| 0 <= i < flag_cards.len() ==> #[trigger] flag_cards@[i].color == result.1.color
        },
        result.0 <==> exists|j: int|
            0 <= j < hand.len() + flag_cards.len() && #[trigger] run_possible(hand@, flag_cards@, (hand@ + flag_cards@)[j], true),
        result.0 ==> exists|j: int| {
            &&& 0 <= j < hand.len() + flag_cards.len()
            &&& #[trigger] run_possible(hand@, flag_cards@, (hand@ + flag_cards@)[j], true)
            &&& forall|i: int|
                j < i < hand.len() + flag_cards.len() ==> !#[trigger] run_possible(hand@, flag_cards@, (hand@ + flag_cards@)[i], true)
            &&& exists|k: int| {
                &&& 0 <= k < hand.len()
                &&& #[trigger] hand@[k] == result.1
                &&& runs_next_to((hand@ + flag_cards@)[j], true)(result.1)
                &&& forall|i: int| 0 <= i < k ==> !runs_next_to((hand@ + flag_cards@)[j], true)(#[trigger] hand@[i])
            }
        },
{
    let r = check_for_run(hand, flag_cards, true);
    proof {
        lemma_run_scan_chosen(hand@, flag_cards@, hand@ + flag_cards@, true);
        lemma_run_law(hand@, flag_cards@, true);
        lemma_run_characterized(hand@, flag_cards@, true);
    }
    r
}

/// Looks for three cards of consecutive strengths in any colours (a
/// skirmish line) that the hand completes on the flag; reports the first hand
/// card that runs on from the last centre that fits.
pub fn check_for_skirmish(hand: &Vec<Card>, flag_cards: &Vec<Card>, colors_vec: &Vec<Color>) -> (result: (bool, Card))
    ensures
        !result.0 ==> result.1 == (Card { color: Color::Color1, number: 1 }),
        result == as_result(skirmish_pick(hand@, flag_cards@)),
        result.0 <==> exists|j: int| 0 <= j < hand.len() + flag_cards.len() && #[trigger] run_fits(
            hand@,
            flag_cards@,
            (hand@ + flag_cards@)[j],
            false,
        ),
        result.0 ==> {
            &&& hand@.contains(result.1)
            &&& exists|j: int| {
                &&& 0 <= j < hand.len() + flag_cards.len()
                &&& #[trigger] run_fits(hand@, flag_cards@, (hand@ + flag_cards@)[j], false)
                &&& first_where(hand@, neighbor((hand@ + flag_cards@)[j], false)) == Some(result.1)
                &&& forall|i: int| j < i < hand.len() + flag_cards.len() ==> !#[trigger] run_fits(
                    hand@,
                    flag_cards@,
                    (hand@ + flag_cards@)[i],
                    false,
                )
            }
        },        result.0 ==> {
            &&& exists|j: int| {
                &&& 0 <= j < hand.len() + flag_cards.len()
                &&& #[trigger] (hand@ + flag_cards@)[j] != result.1
                &&& (result.1.number + 1 == (hand@ + flag_cards@)[j].number || (hand@ + flag_cards@)[j].number + 1
                    == result.1.number)
                &&& (false ==> result.1.color == (hand@ + flag_cards@)[j].color)
                &&& forall|i: int| 0 <= i < flag_cards.len() ==> {
                    &&& #[trigger] flag_cards@[i] != (hand@ + flag_cards@)[j]
                    &&& (flag_cards@[i].number + 1 == (hand@ + flag_cards@)[j].number || (hand@ + flag_cards@)[j].number
                        + 1 == flag_cards@[i].number)
                    &&& (false ==> flag_cards@[i].color == (hand@ + flag_cards@)[j].color)
                }
            }
        },
        result.0 <==> exists|j: int|
            0 <= j < hand.len() + flag_cards.len() && #[trigger] run_possible(hand@, flag_cards@, (hand@ + flag_cards@)[j], false),
        result.0 ==> exists|j: int| {
            &&& 0 <= j < hand.len() + flag_cards.len()
            &&& #[trigger] run_possible(hand@, flag_cards@, (hand@ + flag_cards@)[j], false)
            &&& forall|i: int|
                j < i < hand.len() + flag_cards.len() ==> !#[trigger] run_possible(hand@, flag_cards@, (hand@ + flag_cards@)[i], false)
            &&& exists|k: int| {
                &&& 0 <= k < hand.len()
                &&& #[trigger] hand@[k] == result.1
                &&& runs_next_to((hand@ + flag_cards@)[j], false)(result.1)
                &&& forall|i: int| 0 <= i < k ==> !runs_next_to((hand@ + flag_cards@)[j], false)(#[trigger] hand@[i])
            }
        },
{
    let r = check_for_run(hand, flag_cards, false);
    proof {
        lemma_run_scan_chosen(hand@, flag_cards@, hand@ + flag_cards@, false);
        lemma_run_law(hand@, flag_cards@, false);
        lemma_run_characterized(hand@, flag_cards@, false);
    }
    r
}

/// The strongest card of a colour is at least as strong as every card of
/// that colour; there is none only when no card has that colour.
pub proof fn lemma_best_of_color_max(s: Seq<Card>, color: Color)
    ensures
        best_of_color(s, color) matches Some(c) ==> forall|i: int|
            0 <= i < s.len() && #[trigger] s[i].color == color ==> s[i].number <= c.number,
        best_of_color(s, color) is None ==> forall|i: int| 0 <= i < s.len() ==> #[trigger] s[i].color != color,
    decreases s.len(),
{
    if s.len() > 0 {
        let t = s.drop_last();
        lemma_best_of_color_max(t, color);
        assert forall|i: int| 0 <= i < t.len() implies s[i] == t[i] by {}
        assert(s[s.len() - 1] == s.last());
    }
}

/// A reported phalanx: the card is a hand card of strength 1 to 9, the first
/// of that strength in the hand; every flag card has that strength; and flag
/// and hand hold at least three cards of it.
pub proof fn lemma_phalanx_law(hand: Seq<Card>, flag: Seq<Card>)
    ensures
        phalanx_pick(hand, flag) matches Some(c) ==> {
            &&& 1 <= c.number <= 9
            &&& hand.contains(c)
            &&& forall|i: int| 0 <= i < flag.len() ==> #[trigger] flag[i].number == c.number
            &&& exists|k: int|
                0 <= k < hand.len() && #[trigger] hand[k] == c && forall|i: int|
                    0 <= i < k ==> #[trigger] hand[i].number != c.number
            &&& flag.len() + count_where(hand, has_number(c.number)) >= 3
        },
{
    lemma_phalanx_scan_chosen(hand, flag, 10);
    if let Some(c) = phalanx_pick(hand, flag) {
        lemma_count_where_all(flag, has_number(c.number));
        lemma_first_where_first(hand, has_number(c.number));
        assert forall|i: int| 0 <= i < flag.len() implies #[trigger] flag[i].number == c.number by {
            assert(has_number(c.number)(flag[i]));
        }
    }
}

/// A reported battalion: the card is a hand card whose colour is one of
/// `colors`; every flag card has that colour; no hand card of that colour is
/// stronger; and flag and hand hold at least three cards of it.
pub proof fn lemma_battalion_law(hand: Seq<Card>, flag: Seq<Card>, colors: Seq<Color>)
    ensures
        battalion_scan(hand, flag, colors) matches Some(c) ==> {
            &&& hand.contains(c)
            &&& colors.contains(c.color)
            &&& forall|i: int| 0 <= i < flag.len() ==> #[trigger] flag[i].color == c.color
            &&& forall|i: int| 0 <= i < hand.len() && #[trigger] hand[i].color == c.color ==> hand[i].number <= c.number
            &&& flag.len() + count_where(hand, has_color(c.color)) >= 3
        },
{
    lemma_battalion_scan_chosen(hand, flag, colors);
    if let Some(c) = battalion_scan(hand, flag, colors) {
        lemma_best_of_color_max(hand, c.color);
        lemma_count_where_all(flag, has_color(c.color));
        let j = choose|j: int| {
            &&& 0 <= j < colors.len()
            &&& colors[j] == c.color
            &&& #[trigger] battalion_fits(hand, flag, colors[j])
            &&& forall|i: int| j < i < colors.len() ==> !#[trigger] battalion_fits(hand, flag, colors[i])
        };
        assert(colors.contains(c.color));
        assert forall|i: int| 0 <= i < flag.len() implies #[trigger] flag[i].color == c.color by {
            assert(has_color(c.color)(flag[i]));
        }
    }
}

/// A reported run: some card of the hand or the flag is its centre; the
/// reported card is another card whose strength is one above or one below the
/// centre's; so is every flag card; and, where `suited`, all of them have the
/// centre's colour.
pub proof fn lemma_run_law(hand: Seq<Card>, flag: Seq<Card>, suited: bool)
    ensures
        run_scan(hand, flag, hand + flag, suited) matches Some(c) ==> {
            &&& hand.contains(c)
            &&& exists|j: int| {
                &&& 0 <= j < hand.len() + flag.len()
                &&& #[trigger] (hand + flag)[j] != c
                &&& (c.number + 1 == (hand + flag)[j].number || (hand + flag)[j].number + 1 == c.number)
                &&& (suited ==> c.color == (hand + flag)[j].color)
                &&& forall|i: int| 0 <= i < flag.len() ==> {
                    &&& #[trigger] flag[i] != (hand + flag)[j]
                    &&& (flag[i].number + 1 == (hand + flag)[j].number || (hand + flag)[j].number + 1 == flag[i].number)
                    &&& (suited ==> flag[i].color == (hand + flag)[j].color)
                }
            }
        },
{
    let cands = hand + flag;
    lemma_run_scan_chosen(hand, flag, cands, suited);
    if let Some(c) = run_scan(hand, flag, cands, suited) {
        let j = choose|j: int| {
            &&& 0 <= j < cands.len()
            &&& #[trigger] run_fits(hand, flag, cands[j], suited)
            &&& first_where(hand, neighbor(cands[j], suited)) == Some(c)
            &&& forall|i: int| j < i < cands.len() ==> !#[trigger] run_fits(hand, flag, cands[i], suited)
        };
        let c0 = cands[j];
        lemma_first_where_member(hand, neighbor(c0, suited));
        lemma_count_where_all(flag, neighbor(c0, suited));
        assert(neighbor(c0, suited)(c));
        assert forall|i: int| 0 <= i < flag.len() implies {
            &&& #[trigger] flag[i] != c0
            &&& (flag[i].number + 1 == c0.number || c0.number + 1 == flag[i].number)
            &&& (suited ==> flag[i].color == c0.color)
        } by {
            assert(neighbor(c0, suited)(flag[i]));
        }
        assert(cands[j] != c);
    }
}

/// A phalanx of strength `n` can be made on the flag: every flag card has
/// strength `n`, the flag and the hand hold at least three cards of it, and
/// the hand holds one.
pub open spec fn phalanx_possible(hand: Seq<Card>, flag: Seq<Card>, n: u8) -> bool {
    &&& forall|i: int| 0 <= i < flag.len() ==> #[trigger] flag[i].number == n
    &&& flag.len() + count_where(hand, has_number(n)) >= 3
    &&& exists|i: int| 0 <= i < hand.len() && #[trigger] hand[i].number == n
}

/// A battalion of colour `color` can be made on the flag: every flag card has
/// that colour, the flag and the hand hold at least three cards of it, and the
/// hand holds one.
pub open spec fn battalion_possible(hand: Seq<Card>, flag: Seq<Card>, color: Color) -> bool {
    &&& forall|i: int| 0 <= i < flag.len() ==> #[trigger] flag[i].color == color
    &&& flag.len() + count_where(hand, has_color(color)) >= 3
    &&& exists|i: int| 0 <= i < hand.len() && #[trigger] hand[i].color == color
}

/// A card other than `c0` whose strength is one above or one below that of
/// `c0` (and of the same colour where `suited`).
pub open spec fn runs_next_to(c0: Card, suited: bool) -> spec_fn(Card) -> bool {
    |c: Card| c != c0 && (c.number + 1 == c0.number || c0.number + 1 == c.number) && (suited ==> c.color == c0.color)
}

/// A run centred on `c0` can be made on the flag: every flag card runs next
/// to `c0`, `c0` with the flag and the hand cards next to it makes at least
/// three cards, and the hand holds one card next to it.
pub open spec fn run_possible(hand: Seq<Card>, flag: Seq<Card>, c0: Card, suited: bool) -> bool {
    &&& forall|i: int| 0 <= i < flag.len() ==> #[trigger] runs_next_to(c0, suited)(flag[i])
    &&& flag.len() + 1 + count_where(hand, runs_next_to(c0, suited)) >= 3
    &&& exists|i: int| 0 <= i < hand.len() && #[trigger] runs_next_to(c0, suited)(hand[i])
}

proof fn lemma_phalanx_fits_iff(hand: Seq<Card>, flag: Seq<Card>, n: u8)
    ensures
        phalanx_fits(hand, flag, n) <==> phalanx_possible(hand, flag, n),
{
    let p = has_number(n);
    lemma_first_where_member(hand, p);
    if count_where(flag, p) == flag.len() {
        lemma_count_where_all(flag, p);
    }
    if forall|i: int| 0 <= i < flag.len() ==> #[trigger] flag[i].number == n {
        assert forall|i: int| 0 <= i < flag.len() implies p(#[trigger] flag[i]) by {}
        lemma_count_where_full(flag, p);
    }
    if exists|i: int| 0 <= i < hand.len() && #[trigger] hand[i].number == n {
        let i = choose|i: int| 0 <= i < hand.len() && #[trigger] hand[i].number == n;
        assert(p(hand[i]));
    }
    if phalanx_fits(hand, flag, n) {
        assert forall|i: int| 0 <= i < flag.len() implies #[trigger] flag[i].number == n by {
            assert(p(flag[i]));
        }
    }
}

proof fn lemma_battalion_fits_iff(hand: Seq<Card>, flag: Seq<Card>, color: Color)
    ensures
        battalion_fits(hand, flag, color) <==> battalion_possible(hand, flag, color),
{
    let p = has_color(color);
    lemma_best_of_color_max(hand, color);
    lemma_best_of_color_member(hand, color);
    if count_where(flag, p) == flag.len() {
        lemma_count_where_all(flag, p);
    }
    if forall|i: int| 0 <= i < flag.len() ==> #[trigger] flag[i].color == color {
        assert forall|i: int| 0 <= i < flag.len() implies p(#[trigger] flag[i]) by {}
        lemma_count_where_full(flag, p);
    }
    if battalion_fits(hand, flag, color) {
        assert forall|i: int| 0 <= i < flag.len() implies #[trigger] flag[i].color == color by {
            assert(p(flag[i]));
        }
        let c = best_of_color(hand, color)->Some_0;
        let k = choose|k: int| 0 <= k < hand.len() && hand[k] == c;
        assert(hand[k].color == color);
    }
}

proof fn lemma_run_fits_iff(hand: Seq<Card>, flag: Seq<Card>, c0: Card, suited: bool)
    ensures
        neighbor(c0, suited) == runs_next_to(c0, suited),
        run_fits(hand, flag, c0, suited) <==> run_possible(hand, flag, c0, suited),
{
    assert(neighbor(c0, suited) =~= runs_next_to(c0, suited));
    let p = runs_next_to(c0, suited);
    lemma_first_where_member(hand, p);
    if count_where(flag, p) == flag.len() {
        lemma_count_where_all(flag, p);
    }
    if forall|i: int| 0 <= i < flag.len() ==> #[trigger] p(flag[i]) {
        lemma_count_where_full(flag, p);
    }
}

/// A phalanx is reported exactly when one of strengths 1 to 9 can be made on
/// the flag; the strength reported is the highest such.
pub proof fn lemma_phalanx_characterized(hand: Seq<Card>, flag: Seq<Card>)
    ensures
        phalanx_pick(hand, flag) is Some <==> exists|n: u8| 1 <= n <= 9 && #[trigger] phalanx_possible(hand, flag, n),
        phalanx_pick(hand, flag) matches Some(c) ==> phalanx_possible(hand, flag, c.number) && forall|n: u8|
            c.number < n <= 9 ==> !#[trigger] phalanx_possible(hand, flag, n),
{
    lemma_phalanx_scan_chosen(hand, flag, 10);
    assert forall|n: u8| #[trigger] phalanx_possible(hand, flag, n) <==> phalanx_fits(hand, flag, n) by {
        lemma_phalanx_fits_iff(hand, flag, n);
    }
    if let Some(c) = phalanx_pick(hand, flag) {
        assert(phalanx_possible(hand, flag, c.number));
    }
}

/// A battalion is reported exactly when one of the colours of `colors` can be
/// made on the flag; the colour reported is the last such in `colors`.
pub proof fn lemma_battalion_characterized(hand: Seq<Card>, flag: Seq<Card>, colors: Seq<Color>)
    ensures
        battalion_scan(hand, flag, colors) is Some <==> exists|j: int|
            0 <= j < colors.len() && #[trigger] battalion_possible(hand, flag, colors[j]),
        battalion_scan(hand, flag, colors) matches Some(c) ==> exists|j: int| {
            &&& 0 <= j < colors.len()
            &&& colors[j] == c.color
            &&& #[trigger] battalion_possible(hand, flag, colors[j])
            &&& forall|i: int| j < i < colors.len() ==> !#[trigger] battalion_possible(hand, flag, colors[i])
        },
{
    lemma_battalion_scan_chosen(hand, flag, colors);
    assert forall|color: Color| #[trigger] battalion_possible(hand, flag, color) <==> battalion_fits(hand, flag, color) by {
        lemma_battalion_fits_iff(hand, flag, color);
    }
    if let Some(c) = battalion_scan(hand, flag, colors) {
        let j = choose|j: int| {
            &&& 0 <= j < colors.len()
            &&& colors[j] == c.color
            &&& #[trigger] battalion_fits(hand, flag, colors[j])
            &&& forall|i: int| j < i < colors.len() ==> !#[trigger] battalion_fits(hand, flag, colors[i])
        };
        assert(battalion_possible(hand, flag, colors[j]));
    }
}

/// A run is reported exactly when one of the centres `hand + flag` can make
/// one; the card reported is the first hand card next to the last such centre.
pub proof fn lemma_run_characterized(hand: Seq<Card>, flag: Seq<Card>, suited: bool)
    ensures
        run_scan(hand, flag, hand + flag, suited) is Some <==> exists|j: int|
            0 <= j < hand.len() + flag.len() && #[trigger] run_possible(hand, flag, (hand + flag)[j], suited),
        run_scan(hand, flag, hand + flag, suited) matches Some(c) ==> exists|j: int| {
            &&& 0 <= j < hand.len() + flag.len()
            &&& #[trigger] run_possible(hand, flag, (hand + flag)[j], suited)
            &&& forall|i: int| j < i < hand.len() + flag.len() ==> !#[trigger] run_possible(hand, flag, (hand + flag)[i], suited)
            &&& exists|k: int| {
                &&& 0 <= k < hand.len()
                &&& #[trigger] hand[k] == c
                &&& runs_next_to((hand + flag)[j], suited)(c)
                &&& forall|i: int| 0 <= i < k ==> !runs_next_to((hand + flag)[j], suited)(#[trigger] hand[i])
            }
        },
{
    let cands = hand + flag;
    lemma_run_scan_chosen(hand, flag, cands, suited);
    assert forall|c0: Card| #[trigger] run_possible(hand, flag, c0, suited) <==> run_fits(hand, flag, c0, suited) by {
        lemma_run_fits_iff(hand, flag, c0, suited);
    }
    if let Some(c) = run_scan(hand, flag, cands, suited) {
        let j = choose|j: int| {
            &&& 0 <= j < cands.len()
            &&& #[trigger] run_fits(hand, flag, cands[j], suited)
            &&& first_where(hand, neighbor(cands[j], suited)) == Some(c)
            &&& forall|i: int| j < i < cands.len() ==> !#[trigger] run_fits(hand, flag, cands[i], suited)
        };
        lemma_run_fits_iff(hand, flag, cands[j], suited);
        lemma_first_where_first(hand, runs_next_to(cands[j], suited));
        lemma_first_where_member(hand, runs_next_to(cands[j], suited));
        assert(run_possible(hand, flag, cands[j], suited));
        assert forall|i: int| j < i < cands.len() implies !#[trigger] run_possible(hand, flag, cands[i], suited) by {
            assert(!run_fits(hand, flag, cands[i], suited));
        }
    }
}

/// The strongest card of a colour is the first of the strongest: every card
/// of that colour before it is weaker.
pub proof fn lemma_best_of_color_first(s: Seq<Card>, color: Color)
    ensures
        best_of_color(s, color) matches Some(c) ==> exists|k: int|
            0 <= k < s.len() && #[trigger] s[k] == c && forall|i: int|
                0 <= i < k && #[trigger] s[i].color == color ==> s[i].number < c.number,
    decreases s.len(),
{
    if s.len() > 0 {
        let t = s.drop_last();
        lemma_best_of_color_first(t, color);
        lemma_best_of_color_max(t, color);
        assert forall|i: int| 0 <= i < t.len() implies s[i] == t[i] by {}
        let x = s.last();
        assert(s[s.len() - 1] == x);
        if let Some(c) = best_of_color(s, color) {
            if let Some(p) = best_of_color(t, color) {
                let k = choose|k: int|
                    0 <= k < t.len() && #[trigger] t[k] == p && forall|i: int|
                        0 <= i < k && #[trigger] t[i].color == color ==> t[i].number < p.number;
                if x.color == color && x.number > p.number {
                    let kk = s.len() - 1;
                    assert forall|i: int| 0 <= i < kk && #[trigger] s[i].color == color implies s[i].number < c.number by {
                        assert(s[i] == t[i]);
                    }
                } else {
                    assert(s[k] == c);
                    assert forall|i: int| 0 <= i < k && #[trigger] s[i].color == color implies s[i].number < c.number by {
                        assert(s[i] == t[i]);
                    }
                }
            } else {
                let kk = s.len() - 1;
                assert forall|i: int| 0 <= i < kk && #[trigger] s[i].color == color implies s[i].number < c.number by {
                    assert(s[i] == t[i]);
                }
            }
        }
    }
}

} // verus!
