//! Choosing the next play: a formation on the first open flag where one of
//! the strategies finds it, else the strongest card on the last open flag.
use vstd::prelude::*;
use crate::card::{Card, ClaimStatus, Color};
use crate::formations::{
    battalion_scan, check_for_battalion, check_for_phalanx, check_for_skirmish, check_for_wedge,
    phalanx_pick, skirmish_pick, wedge_pick, lemma_phalanx_scan_chosen, lemma_battalion_scan_chosen,
    lemma_run_scan_chosen,
};
use crate::hand::{sort_by_number, sorted_by_number, lemma_sorted_same_cards, lemma_sorted_is_ordered, lemma_sorted_last};

verus! {

/// The strategies, tried in this order: wedge (0), phalanx (1),
/// battalion (2), skirmish line (3).
pub open spec fn strategy_pick(s: int, hand: Seq<Card>, flag: Seq<Card>, colors: Seq<Color>) -> Option<Card> {
    if s == 0 {
        wedge_pick(hand, flag)
    } else if s == 1 {
        phalanx_pick(hand, flag)
    } else if s == 2 {
        battalion_scan(hand, flag, colors)
    } else {
        skirmish_pick(hand, flag)
    }
}

/// Flag `x` is unclaimed and holds at most three of the bot's cards.
pub open spec fn open_flag(claims: Seq<ClaimStatus>, flags: Seq<Vec<Card>>, x: int) -> bool {
    &&& flags[x]@.len() <= 3
    &&& claims[x] == ClaimStatus::Unclaimed
}

/// The first of the flags `0 .. k` that is open and on which strategy `s`
/// finds a card, with that card.
pub open spec fn first_flag_for(
    s: int,
    hand: Seq<Card>,
    claims: Seq<ClaimStatus>,
    flags: Seq<Vec<Card>>,
    colors: Seq<Color>,
    k: int,
) -> Option<(usize, Card)>
    decreases k,
{
    if k <= 0 {
        None
    } else {
        match first_flag_for(s, hand, claims, flags, colors, k - 1) {
            Some(p) => Some(p),
            None => if open_flag(claims, flags, k - 1) {
                match strategy_pick(s, hand, flags[k - 1]@, colors) {
                    Some(c) => Some(((k - 1) as usize, c)),
                    None => None,
                }
            } else {
                None
            },
        }
    }
}

/// The play of the first of the strategies `0 .. t` that finds one.
pub open spec fn strategies_upto(
    hand: Seq<Card>,
    claims: Seq<ClaimStatus>,
    flags: Seq<Vec<Card>>,
    colors: Seq<Color>,
    t: int,
) -> Option<(usize, Card)>
    decreases t,
{
    if t <= 0 {
        None
    } else {
        match strategies_upto(hand, claims, flags, colors, t - 1) {
            Some(p) => Some(p),
            None => first_flag_for(t - 1, hand, claims, flags, colors, claims.len() as int),
        }
    }
}

/// The last of the flags `0 .. k` that is open.
pub open spec fn last_open_flag(claims: Seq<ClaimStatus>, flags: Seq<Vec<Card>>, k: int) -> Option<usize>
    decreases k,
{
    if k <= 0 {
        None
    } else if open_flag(claims, flags, k - 1) {
        Some((k - 1) as usize)
    } else {
        last_open_flag(claims, flags, k - 1)
    }
}

/// With no formation found: the last card of the hand on the last open flag.
pub open spec fn fallback_play(hand: Seq<Card>, claims: Seq<ClaimStatus>, flags: Seq<Vec<Card>>) -> Option<(usize, Card)> {
    if hand.len() == 0 {
        None
    } else {
        match last_open_flag(claims, flags, claims.len() as int) {
            Some(x) => Some((x, hand.last())),
            None => None,
        }
    }
}

/// The play for a hand already sorted by strength: flag index and card.
pub open spec fn planned_play(
    sorted_hand: Seq<Card>,
    claims: Seq<ClaimStatus>,
    flags: Seq<Vec<Card>>,
    colors: Seq<Color>,
) -> Option<(usize, Card)> {
    match strategies_upto(sorted_hand, claims, flags, colors, 4) {
        Some(p) => Some(p),
        None => fallback_play(sorted_hand, claims, flags),
    }
}

/// Some open flag is one on which a wedge search finds a card.
pub open spec fn wedge_somewhere(sh: Seq<Card>, claims: Seq<ClaimStatus>, flags: Seq<Vec<Card>>) -> bool {
    exists|y: int| 0 <= y < claims.len() && #[trigger] open_flag(claims, flags, y) && wedge_pick(sh, flags[y]@) is Some
}

/// `play` puts the card that a wedge search finds on the first open flag where
/// it finds one.
pub open spec fn plays_first_wedge(sh: Seq<Card>, claims: Seq<ClaimStatus>, flags: Seq<Vec<Card>>, play: Option<(usize, Card)>) -> bool {
    match play {
        Some((x, c)) => {
            &&& x < claims.len()
            &&& open_flag(claims, flags, x as int)
            &&& wedge_pick(sh, flags[x as int]@) == Some(c)
            &&& forall|y: int| 0 <= y < x && #[trigger] open_flag(claims, flags, y) ==> wedge_pick(sh, flags[y]@) is None
        },
        None => false,
    }
}

/// Some open flag is one on which a phalanx search finds a card.
pub open spec fn phalanx_somewhere(sh: Seq<Card>, claims: Seq<ClaimStatus>, flags: Seq<Vec<Card>>) -> bool {
    exists|y: int| 0 <= y < claims.len() && #[trigger] open_flag(claims, flags, y) && phalanx_pick(sh, flags[y]@) is Some
}

/// `play` puts the card that a phalanx search finds on the first open flag where
/// it finds one.
pub open spec fn plays_first_phalanx(sh: Seq<Card>, claims: Seq<ClaimStatus>, flags: Seq<Vec<Card>>, play: Option<(usize, Card)>) -> bool {
    match play {
        Some((x, c)) => {
            &&& x < claims.len()
            &&& open_flag(claims, flags, x as int)
            &&& phalanx_pick(sh, flags[x as int]@) == Some(c)
            &&& forall|y: int| 0 <= y < x && #[trigger] open_flag(claims, flags, y) ==> phalanx_pick(sh, flags[y]@) is None
        },
        None => false,
    }
}

/// Some open flag is one on which a battalion search finds a card.
pub open spec fn battalion_somewhere(sh: Seq<Card>, colors: Seq<Color>, claims: Seq<ClaimStatus>, flags: Seq<Vec<Card>>) -> bool {
    exists|y: int| 0 <= y < claims.len() && #[trigger] open_flag(claims, flags, y) && battalion_scan(sh, flags[y]@, colors) is Some
}

/// `play` puts the card that a battalion search finds on the first open flag where
/// it finds one.
pub open spec fn plays_first_battalion(sh: Seq<Card>, colors: Seq<Color>, claims: Seq<ClaimStatus>, flags: Seq<Vec<Card>>, play: Option<(usize, Card)>) -> bool {
    match play {
        Some((x, c)) => {
            &&& x < claims.len()
            &&& open_flag(claims, flags, x as int)
            &&& battalion_scan(sh, flags[x as int]@, colors) == Some(c)
            &&& forall|y: int| 0 <= y < x && #[trigger] open_flag(claims, flags, y) ==> battalion_scan(sh, flags[y]@, colors) is None
        },
        None => false,
    }
}

/// Some open flag is one on which a skirmish line search finds a card.
pub open spec fn skirmish_somewhere(sh: Seq<Card>, claims: Seq<ClaimStatus>, flags: Seq<Vec<Card>>) -> bool {
    exists|y: int| 0 <= y < claims.len() && #[trigger] open_flag(claims, flags, y) && skirmish_pick(sh, flags[y]@) is Some
}

/// `play` puts the card that a skirmish line search finds on the first open flag where
/// it finds one.
pub open spec fn plays_first_skirmish(sh: Seq<Card>, claims: Seq<ClaimStatus>, flags: Seq<Vec<Card>>, play: Option<(usize, Card)>) -> bool {
    match play {
        Some((x, c)) => {
            &&& x < claims.len()
            &&& open_flag(claims, flags, x as int)
            &&& skirmish_pick(sh, flags[x as int]@) == Some(c)
            &&& forall|y: int| 0 <= y < x && #[trigger] open_flag(claims, flags, y) ==> skirmish_pick(sh, flags[y]@) is None
        },
        None => false,
    }
}

/// Runs strategy `s` on one flag.
fn apply_strategy(s: usize, hand: &Vec<Card>, flag_cards: &Vec<Card>, colors_vec: &Vec<Color>) -> (r: (bool, Card))
    requires
        s < 4,
    ensures
        r.0 == strategy_pick(s as int, hand@, flag_cards@, colors_vec@) is Some,
        r.0 ==> strategy_pick(s as int, hand@, flag_cards@, colors_vec@) == Some(r.1),
{
    if s == 0 {
        check_for_wedge(hand, flag_cards, colors_vec)
    } else if s == 1 {
        check_for_phalanx(hand, flag_cards, colors_vec)
    } else if s == 2 {
        check_for_battalion(hand, flag_cards, colors_vec)
    } else {
        check_for_skirmish(hand, flag_cards, colors_vec)
    }
}

/// Chooses the flag (by index into `claims`) and the card to play: the hand
/// is sorted by strength, then wedge, phalanx, battalion and skirmish line are
/// tried in turn over the open flags in order; failing all, the strongest card
/// goes to the last open flag. `None` when the hand is empty or no flag is open.
pub fn choose_play(
    hand: &Vec<Card>,
    claims: &Vec<ClaimStatus>,
    flags: &Vec<Vec<Card>>,
    colors_vec: &Vec<Color>,
) -> (play: Option<(usize, Card)>)
    requires
        claims.len() <= flags.len(),
    ensures
        play == planned_play(sorted_by_number(hand@), claims@, flags@, colors_vec@),
        play matches Some((x, c)) ==> x < claims.len() && open_flag(claims@, flags@, x as int) && hand@.contains(c),
        hand@.len() > 0 && (exists|y: int| 0 <= y < claims.len() && #[trigger] open_flag(claims@, flags@, y))
            ==> play is Some,
        strategies_upto(sorted_by_number(hand@), claims@, flags@, colors_vec@, 4) is None ==> (play matches Some((x, c))
            ==> (forall|y: int| x < y < claims.len() ==> !#[trigger] open_flag(claims@, flags@, y))
            && (forall|i: int| 0 <= i < hand.len() ==> #[trigger] hand@[i].number <= c.number)),
        wedge_somewhere(sorted_by_number(hand@), claims@, flags@) ==> plays_first_wedge(sorted_by_number(hand@), claims@, flags@, play),
        !wedge_somewhere(sorted_by_number(hand@), claims@, flags@) && phalanx_somewhere(sorted_by_number(hand@), claims@, flags@) ==> plays_first_phalanx(sorted_by_number(hand@), claims@, flags@, play),
        !wedge_somewhere(sorted_by_number(hand@), claims@, flags@) && !phalanx_somewhere(sorted_by_number(hand@), claims@, flags@) && battalion_somewhere(sorted_by_number(hand@), colors_vec@, claims@, flags@) ==> plays_first_battalion(sorted_by_number(hand@), colors_vec@, claims@, flags@, play),
        !wedge_somewhere(sorted_by_number(hand@), claims@, flags@) && !phalanx_somewhere(sorted_by_number(hand@), claims@, flags@) && !battalion_somewhere(sorted_by_number(hand@), colors_vec@, claims@, flags@) && skirmish_somewhere(sorted_by_number(hand@), claims@, flags@) ==> plays_first_skirmish(sorted_by_number(hand@), claims@, flags@, play),
        !wedge_somewhere(sorted_by_number(hand@), claims@, flags@) && !phalanx_somewhere(sorted_by_number(hand@), claims@, flags@) && !battalion_somewhere(sorted_by_number(hand@), colors_vec@, claims@, flags@) && !skirmish_somewhere(sorted_by_number(hand@), claims@, flags@) ==> (play matches Some((x, c)) ==> (forall|y: int|
            x < y < claims.len() ==> !#[trigger] open_flag(claims@, flags@, y)) && (forall|i: int|
            0 <= i < hand.len() ==> #[trigger] hand@[i].number <= c.number) && exists|k: int|
            0 <= k < hand.len() && #[trigger] hand@[k] == c && forall|i: int|
                k < i < hand.len() ==> #[trigger] hand@[i].number < c.number),
{
    proof {
        lemma_play_laws(hand@, claims@, flags@, colors_vec@);
        lemma_strategy_order(sorted_by_number(hand@), claims@, flags@, colors_vec@);
        if hand@.len() > 0 {
            lemma_sorted_last(hand@);
        }
    }
    let my_cards = sort_by_number(hand);
    let ghost sh = my_cards@;
    let mut s: usize = 0;
    while s < 4
        invariant
            s <= 4,
            claims.len() <= flags.len(),
            sh == my_cards@,
            sh == sorted_by_number(hand@),
            strategies_upto(sh, claims@, flags@, colors_vec@, s as int) is None,
        decreases 4 - s,
    {
        let mut x: usize = 0;
        while x < claims.len()
            invariant
                s < 4,
                x <= claims.len(),
                claims.len() <= flags.len(),
                sh == my_cards@,
                sh == sorted_by_number(hand@),
                strategies_upto(sh, claims@, flags@, colors_vec@, s as int) is None,
                first_flag_for(s as int, sh, claims@, flags@, colors_vec@, x as int) is None,
            decreases claims.len() - x,
        {
            if flags[x].len() <= 3 && claims[x] == ClaimStatus::Unclaimed {
                let (found, card) = apply_strategy(s, &my_cards, &flags[x], colors_vec);
                if found {
                    proof {
                        lemma_first_flag_stays(s as int, sh, claims@, flags@, colors_vec@, x + 1, claims.len() as int);
                        lemma_strategies_stay(sh, claims@, flags@, colors_vec@, s + 1, 4);
                        lemma_play_laws(hand@, claims@, flags@, colors_vec@);
        lemma_strategy_order(sorted_by_number(hand@), claims@, flags@, colors_vec@);
        if hand@.len() > 0 {
            lemma_sorted_last(hand@);
        }
                    }
                    return Some((x, card));
                }
            }
            x += 1;
        }
        s += 1;
    }
    if my_cards.len() == 0 {
        return None;
    }
    let mut x: usize = claims.len();
    while x > 0
        invariant
            x <= claims.len(),
            claims.len() <= flags.len(),
            my_cards.len() > 0,
            sh == my_cards@,
            sh == sorted_by_number(hand@),
            strategies_upto(sh, claims@, flags@, colors_vec@, 4) is None,
            last_open_flag(claims@, flags@, claims.len() as int) == last_open_flag(claims@, flags@, x as int),
        decreases x,
    {
        let y = x - 1;
        if flags[y].len() <= 3 && claims[y] == ClaimStatus::Unclaimed {
            proof {
                lemma_play_laws(hand@, claims@, flags@, colors_vec@);
        lemma_strategy_order(sorted_by_number(hand@), claims@, flags@, colors_vec@);
        if hand@.len() > 0 {
            lemma_sorted_last(hand@);
        }
            }
            return Some((y, my_cards[my_cards.len() - 1]));
        }
        x = y;
    }
    None
}

/// Once a flag is found for a strategy, looking over more flags keeps it.
proof fn lemma_first_flag_stays(
    s: int,
    hand: Seq<Card>,
    claims: Seq<ClaimStatus>,
    flags: Seq<Vec<Card>>,
    colors: Seq<Color>,
    k: int,
    m: int,
)
    requires
        k <= m,
    ensures
        first_flag_for(s, hand, claims, flags, colors, k) is Some ==> first_flag_for(s, hand, claims, flags, colors, m)
            == first_flag_for(s, hand, claims, flags, colors, k),
    decreases m - k,
{
    if k < m {
        lemma_first_flag_stays(s, hand, claims, flags, colors, k, m - 1);
    }
}

/// Once a strategy has found a play, trying more strategies keeps it.
proof fn lemma_strategies_stay(
    hand: Seq<Card>,
    claims: Seq<ClaimStatus>,
    flags: Seq<Vec<Card>>,
    colors: Seq<Color>,
    k: int,
    m: int,
)
    requires
        k <= m,
    ensures
        strategies_upto(hand, claims, flags, colors, k) is Some ==> strategies_upto(hand, claims, flags, colors, m)
            == strategies_upto(hand, claims, flags, colors, k),
    decreases m - k,
{
    if k < m {
        lemma_strategies_stay(hand, claims, flags, colors, k, m - 1);
    }
}

proof fn lemma_first_flag_found(
    s: int,
    hand: Seq<Card>,
    claims: Seq<ClaimStatus>,
    flags: Seq<Vec<Card>>,
    colors: Seq<Color>,
    k: int,
)
    requires
        k <= claims.len() <= usize::MAX,
    ensures
        first_flag_for(s, hand, claims, flags, colors, k) matches Some((x, c)) ==> x < k && open_flag(
            claims,
            flags,
            x as int,
        ) && strategy_pick(s, hand, flags[x as int]@, colors) == Some(c),
    decreases k,
{
    if k > 0 {
        lemma_first_flag_found(s, hand, claims, flags, colors, k - 1);
    }
}

proof fn lemma_strategy_pick_member(s: int, hand: Seq<Card>, flag: Seq<Card>, colors: Seq<Color>)
    ensures
        strategy_pick(s, hand, flag, colors) matches Some(c) ==> hand.contains(c),
{
    lemma_phalanx_scan_chosen(hand, flag, 10);
    lemma_battalion_scan_chosen(hand, flag, colors);
    lemma_run_scan_chosen(hand, flag, hand + flag, true);
    lemma_run_scan_chosen(hand, flag, hand + flag, false);
}

proof fn lemma_strategies_found(
    hand: Seq<Card>,
    claims: Seq<ClaimStatus>,
    flags: Seq<Vec<Card>>,
    colors: Seq<Color>,
    t: int,
)
    requires
        claims.len() <= usize::MAX,
    ensures
        strategies_upto(hand, claims, flags, colors, t) matches Some((x, c)) ==> x < claims.len() && open_flag(
            claims,
            flags,
            x as int,
        ) && hand.contains(c),
    decreases t,
{
    if t > 0 {
        lemma_strategies_found(hand, claims, flags, colors, t - 1);
        lemma_first_flag_found(t - 1, hand, claims, flags, colors, claims.len() as int);
        if let Some((x, c)) = first_flag_for(t - 1, hand, claims, flags, colors, claims.len() as int) {
            lemma_strategy_pick_member(t - 1, hand, flags[x as int]@, colors);
        }
    }
}

proof fn lemma_last_open(claims: Seq<ClaimStatus>, flags: Seq<Vec<Card>>, k: int)
    requires
        k <= claims.len() <= usize::MAX,
    ensures
        last_open_flag(claims, flags, k) matches Some(x) ==> x < k && open_flag(claims, flags, x as int) && (
        forall|y: int| x < y < k ==> !#[trigger] open_flag(claims, flags, y)),
        last_open_flag(claims, flags, k) is None ==> forall|y: int|
            0 <= y < k ==> !#[trigger] open_flag(claims, flags, y),
    decreases k,
{
    if k > 0 {
        lemma_last_open(claims, flags, k - 1);
    }
}

proof fn lemma_play_laws(hand: Seq<Card>, claims: Seq<ClaimStatus>, flags: Seq<Vec<Card>>, colors: Seq<Color>)
    requires
        claims.len() <= usize::MAX,
    ensures
        planned_play(sorted_by_number(hand), claims, flags, colors) matches Some((x, c)) ==> x < claims.len()
            && open_flag(claims, flags, x as int) && hand.contains(c),
        hand.len() > 0 && (exists|y: int| 0 <= y < claims.len() && #[trigger] open_flag(claims, flags, y))
            ==> planned_play(sorted_by_number(hand), claims, flags, colors) is Some,
        strategies_upto(sorted_by_number(hand), claims, flags, colors, 4) is None ==> (planned_play(
            sorted_by_number(hand),
            claims,
            flags,
            colors,
        ) matches Some((x, c)) ==> (forall|y: int| x < y < claims.len() ==> !#[trigger] open_flag(claims, flags, y))
            && (forall|i: int| 0 <= i < hand.len() ==> #[trigger] hand[i].number <= c.number)),
{
    let sh = sorted_by_number(hand);
    lemma_sorted_same_cards(hand);
    lemma_sorted_is_ordered(hand);
    lemma_strategies_found(sh, claims, flags, colors, 4);
    lemma_last_open(claims, flags, claims.len() as int);
    if hand.len() > 0 {
        assert(hand.contains(hand[0]));
        assert(sh.contains(hand[0]));
        assert(sh.len() > 0);
        assert(sh.contains(sh.last()));
        assert forall|i: int| 0 <= i < hand.len() implies #[trigger] hand[i].number <= sh.last().number by {
            assert(hand.contains(hand[i]));
            assert(sh.contains(hand[i]));
            let j = choose|j: int| 0 <= j < sh.len() && sh[j] == hand[i];
            if j < sh.len() - 1 {
                assert(sh[j].number <= sh[sh.len() - 1].number);
            }
        }
    }
}

proof fn lemma_first_flag_min(
    s: int,
    hand: Seq<Card>,
    claims: Seq<ClaimStatus>,
    flags: Seq<Vec<Card>>,
    colors: Seq<Color>,
    k: int,
)
    requires
        k <= claims.len() <= usize::MAX,
    ensures
        first_flag_for(s, hand, claims, flags, colors, k) matches Some((x, c)) ==> {
            &&& x < k
            &&& open_flag(claims, flags, x as int)
            &&& strategy_pick(s, hand, flags[x as int]@, colors) == Some(c)
            &&& forall|y: int| 0 <= y < x && #[trigger] open_flag(claims, flags, y) ==> strategy_pick(s, hand, flags[y]@, colors) is None
        },
        first_flag_for(s, hand, claims, flags, colors, k) is None ==> forall|y: int|
            0 <= y < k && #[trigger] open_flag(claims, flags, y) ==> strategy_pick(s, hand, flags[y]@, colors) is None,
    decreases k,
{
    if k > 0 {
        lemma_first_flag_min(s, hand, claims, flags, colors, k - 1);
    }
}

/// The strategies are tried in the order wedge, phalanx, battalion,
/// skirmish line, each over the open flags in order: the play is the card of
/// the first strategy that finds one on some open flag, on the first such
/// flag; with none, the strongest card goes to the last open flag.
pub proof fn lemma_strategy_order(sh: Seq<Card>, claims: Seq<ClaimStatus>, flags: Seq<Vec<Card>>, colors: Seq<Color>)
    requires
        claims.len() <= usize::MAX,
    ensures
        wedge_somewhere(sh, claims, flags) ==> plays_first_wedge(sh, claims, flags, planned_play(sh, claims, flags, colors)),
        !wedge_somewhere(sh, claims, flags) && phalanx_somewhere(sh, claims, flags) ==> plays_first_phalanx(sh, claims, flags, planned_play(sh, claims, flags, colors)),
        !wedge_somewhere(sh, claims, flags) && !phalanx_somewhere(sh, claims, flags) && battalion_somewhere(sh, colors, claims, flags) ==> plays_first_battalion(sh, colors, claims, flags, planned_play(sh, claims, flags, colors)),
        !wedge_somewhere(sh, claims, flags) && !phalanx_somewhere(sh, claims, flags) && !battalion_somewhere(sh, colors, claims, flags) && skirmish_somewhere(sh, claims, flags) ==> plays_first_skirmish(sh, claims, flags, planned_play(sh, claims, flags, colors)),
        !wedge_somewhere(sh, claims, flags) && !phalanx_somewhere(sh, claims, flags) && !battalion_somewhere(sh, colors, claims, flags) && !skirmish_somewhere(sh, claims, flags) ==> planned_play(sh, claims, flags, colors) == fallback_play(sh, claims, flags),
{
    let n = claims.len() as int;
    lemma_first_flag_min(0, sh, claims, flags, colors, n);
    lemma_first_flag_min(1, sh, claims, flags, colors, n);
    lemma_first_flag_min(2, sh, claims, flags, colors, n);
    lemma_first_flag_min(3, sh, claims, flags, colors, n);
    reveal_with_fuel(strategies_upto, 5);
    assert forall|y: int| 0 <= y < n implies {
        &&& wedge_pick(sh, flags[y]@) == strategy_pick(0, sh, flags[y]@, colors)
        &&& phalanx_pick(sh, flags[y]@) == strategy_pick(1, sh, flags[y]@, colors)
        &&& battalion_scan(sh, flags[y]@, colors) == strategy_pick(2, sh, flags[y]@, colors)
        &&& skirmish_pick(sh, flags[y]@) == strategy_pick(3, sh, flags[y]@, colors)
    } by {}
    if wedge_somewhere(sh, claims, flags) {
        let y = choose|y: int| 0 <= y < n && #[trigger] open_flag(claims, flags, y) && wedge_pick(sh, flags[y]@) is Some;
        assert(first_flag_for(0, sh, claims, flags, colors, n) is Some);
    } else if phalanx_somewhere(sh, claims, flags) {
        let y = choose|y: int| 0 <= y < n && #[trigger] open_flag(claims, flags, y) && phalanx_pick(sh, flags[y]@) is Some;
        assert(first_flag_for(1, sh, claims, flags, colors, n) is Some);
        assert(first_flag_for(0, sh, claims, flags, colors, n) is None);
    } else if battalion_somewhere(sh, colors, claims, flags) {
        let y = choose|y: int| 0 <= y < n && #[trigger] open_flag(claims, flags, y) && battalion_scan(sh, flags[y]@, colors) is Some;
        assert(first_flag_for(2, sh, claims, flags, colors, n) is Some);
        assert(first_flag_for(0, sh, claims, flags, colors, n) is None);
        assert(first_flag_for(1, sh, claims, flags, colors, n) is None);
    } else if skirmish_somewhere(sh, claims, flags) {
        let y = choose|y: int| 0 <= y < n && #[trigger] open_flag(claims, flags, y) && skirmish_pick(sh, flags[y]@) is Some;
        assert(first_flag_for(3, sh, claims, flags, colors, n) is Some);
        assert(first_flag_for(0, sh, claims, flags, colors, n) is None);
        assert(first_flag_for(1, sh, claims, flags, colors, n) is None);
        assert(first_flag_for(2, sh, claims, flags, colors, n) is None);
    } else {
        assert(first_flag_for(0, sh, claims, flags, colors, n) is None);
        assert(first_flag_for(1, sh, claims, flags, colors, n) is None);
        assert(first_flag_for(2, sh, claims, flags, colors, n) is None);
        assert(first_flag_for(3, sh, claims, flags, colors, n) is None);
    }
}

/// A flag is open exactly when it is unclaimed and holds at most three of
/// the bot's cards.
pub proof fn lemma_open_flag_meaning(claims: Seq<ClaimStatus>, flags: Seq<Vec<Card>>, x: int)
    ensures
        open_flag(claims, flags, x) <==> (flags[x]@.len() <= 3 && claims[x] == ClaimStatus::Unclaimed),
{
}

} // verus!
