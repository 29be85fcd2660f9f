//! Putting a hand in order of strength, keeping the order of equal cards.
use vstd::prelude::*;
use crate::card::{Card, has_number};

verus! {

/// The cards of `s` with strengths below `k`, strength by strength in
/// increasing order, each strength keeping the order it has in `s`.
pub open spec fn by_number_below(s: Seq<Card>, k: int) -> Seq<Card>
    decreases k,
{
    if k <= 0 {
        Seq::empty()
    } else {
        by_number_below(s, k - 1) + s.filter(has_number((k - 1) as u8))
    }
}

/// The hand in increasing order of strength, cards of equal strength in the
/// order they had: a stable sort by strength.
pub open spec fn sorted_by_number(s: Seq<Card>) -> Seq<Card> {
    by_number_below(s, 256)
}

/// Sorts a hand by strength, stably.
pub fn sort_by_number(hand: &Vec<Card>) -> (sorted: Vec<Card>)
    ensures
        sorted@ == sorted_by_number(hand@),
{
    let mut out: Vec<Card> = Vec::new();
    let mut n: u16 = 0;
    while n < 256
        invariant
            n <= 256,
            out@ == by_number_below(hand@, n as int),
        decreases 256 - n,
    {
        let ghost before = out@;
        let mut i: usize = 0;
        while i < hand.len()
            invariant
                n < 256,
                i <= hand.len(),
                out@ == before + hand@.take(i as int).filter(has_number(n as u8)),
            decreases hand.len() - i,
        {
            let x = hand[i];
            proof {
                assert(hand@.take(i + 1) =~= hand@.take(i as int).push(x));
                hand@.take(i as int).lemma_filter_push(x, has_number(n as u8));
            }
            if x.number as u16 == n {
                out.push(x);
            }
            i += 1;
        }
        proof {
            assert(hand@.take(hand.len() as int) =~= hand@);
        }
        n += 1;
    }
    out
}

proof fn lemma_filter_all(t: Seq<Card>, p: spec_fn(Card) -> bool)
    requires
        forall|i: int| 0 <= i < t.len() ==> p(#[trigger] t[i]),
    ensures
        t.filter(p) == t,
    decreases t.len(),
{
    reveal(Seq::filter);
    if t.len() > 0 {
        assert forall|i: int| 0 <= i < t.drop_last().len() implies p(#[trigger] t.drop_last()[i]) by {
            assert(t.drop_last()[i] == t[i]);
        }
        lemma_filter_all(t.drop_last(), p);
        assert(p(t[t.len() - 1]));
        assert(t.drop_last().push(t.last()) =~= t);
    }
}

proof fn lemma_filter_none(t: Seq<Card>, p: spec_fn(Card) -> bool)
    requires
        forall|i: int| 0 <= i < t.len() ==> !p(#[trigger] t[i]),
    ensures
        t.filter(p) == Seq::<Card>::empty(),
    decreases t.len(),
{
    reveal(Seq::filter);
    if t.len() > 0 {
        assert forall|i: int| 0 <= i < t.drop_last().len() implies !p(#[trigger] t.drop_last()[i]) by {
            assert(t.drop_last()[i] == t[i]);
        }
        lemma_filter_none(t.drop_last(), p);
        assert(!p(t[t.len() - 1]));
    }
}

proof fn lemma_below_facts(s: Seq<Card>, k: int)
    requires
        0 <= k <= 256,
    ensures
        forall|i: int| 0 <= i < by_number_below(s, k).len() ==> #[trigger] by_number_below(s, k)[i].number < k,
        forall|i: int, j: int|
            0 <= i < j < by_number_below(s, k).len() ==> #[trigger] by_number_below(s, k)[i].number
                <= #[trigger] by_number_below(s, k)[j].number,
        forall|n: u8| #[trigger] by_number_below(s, k).filter(has_number(n)) == if n < k {
            s.filter(has_number(n))
        } else {
            Seq::<Card>::empty()
        },
    decreases k,
{
    broadcast use vstd::seq_lib::group_filter_ensures;
    if k <= 0 {
        assert forall|n: u8| #[trigger] by_number_below(s, k).filter(has_number(n)) == Seq::<Card>::empty() by {
            lemma_filter_none(by_number_below(s, k), has_number(n));
        }
    } else {
        lemma_below_facts(s, k - 1);
        let a = by_number_below(s, k - 1);
        let q = has_number((k - 1) as u8);
        let b = s.filter(q);
        assert(by_number_below(s, k) == a + b);
        assert forall|i: int| 0 <= i < b.len() implies #[trigger] b[i].number == k - 1 by {
            s.lemma_filter_pred(q, i);
        }
        assert forall|n: u8| #[trigger] by_number_below(s, k).filter(has_number(n)) == if n < k {
            s.filter(has_number(n))
        } else {
            Seq::<Card>::empty()
        } by {
            Seq::filter_distributes_over_add(a, b, has_number(n));
            if n == k - 1 {
                lemma_filter_all(b, has_number(n));
                assert(a.filter(has_number(n)) == Seq::<Card>::empty());
                assert(Seq::<Card>::empty() + b =~= b);
            } else {
                lemma_filter_none(b, has_number(n));
                assert(a.filter(has_number(n)) + Seq::<Card>::empty() =~= a.filter(has_number(n)));
            }
        }
        let c = a + b;
        assert forall|i: int| 0 <= i < c.len() implies #[trigger] c[i].number < k by {
            if i < a.len() {
                assert(c[i] == a[i]);
            } else {
                assert(c[i] == b[i - a.len()]);
            }
        }
        assert forall|i: int, j: int| 0 <= i < j < c.len() implies #[trigger] c[i].number <= #[trigger] c[j].number by {
            if j < a.len() {
                assert(c[i] == a[i] && c[j] == a[j]);
            } else if i < a.len() {
                assert(c[i] == a[i] && c[j] == b[j - a.len()]);
            } else {
                assert(c[i] == b[i - a.len()] && c[j] == b[j - a.len()]);
            }
        }
    }
}

/// After sorting, strengths never decrease along the hand.
pub proof fn lemma_sorted_is_ordered(s: Seq<Card>)
    ensures
        forall|i: int, j: int|
            0 <= i < j < sorted_by_number(s).len() ==> #[trigger] sorted_by_number(s)[i].number
                <= #[trigger] sorted_by_number(s)[j].number,
{
    lemma_below_facts(s, 256);
}

/// Sorting keeps, for every strength, exactly the cards of that strength in
/// the order they had: it is stable and loses or adds no card.
pub proof fn lemma_sorted_is_stable(s: Seq<Card>, n: u8)
    ensures
        sorted_by_number(s).filter(has_number(n)) == s.filter(has_number(n)),
{
    lemma_below_facts(s, 256);
}

/// Sorting neither loses nor invents a card.
pub proof fn lemma_sorted_same_cards(s: Seq<Card>)
    ensures
        forall|c: Card| #[trigger] sorted_by_number(s).contains(c) <==> s.contains(c),
{
    lemma_below_facts(s, 256);
    let t = sorted_by_number(s);
    assert forall|c: Card| #[trigger] t.contains(c) <==> s.contains(c) by {
        let p = has_number(c.number);
        if t.contains(c) {
            let i = choose|i: int| 0 <= i < t.len() && t[i] == c;
            t.lemma_filter_contains(p, i);
            s.lemma_filter_contains_rev(p, c);
        }
        if s.contains(c) {
            let i = choose|i: int| 0 <= i < s.len() && s[i] == c;
            s.lemma_filter_contains(p, i);
            t.lemma_filter_contains_rev(p, c);
        }
    }
}

proof fn lemma_filter_last(s: Seq<Card>, p: spec_fn(Card) -> bool)
    requires
        s.filter(p).len() > 0,
    ensures
        exists|k: int| {
            &&& 0 <= k < s.len()
            &&& #[trigger] s[k] == s.filter(p).last()
            &&& p(s[k])
            &&& forall|i: int| k < i < s.len() ==> !p(#[trigger] s[i])
        },
    decreases s.len(),
{
    reveal(Seq::filter);
    let t = s.drop_last();
    if p(s.last()) {
        let k = s.len() - 1;
        assert(s[k] == s.last());
    } else {
        lemma_filter_last(t, p);
        let k = choose|k: int| {
            &&& 0 <= k < t.len()
            &&& #[trigger] t[k] == t.filter(p).last()
            &&& p(t[k])
            &&& forall|i: int| k < i < t.len() ==> !p(#[trigger] t[i])
        };
        assert(s[k] == t[k]);
        assert forall|i: int| k < i < s.len() implies !p(#[trigger] s[i]) by {
            if i < t.len() {
                assert(s[i] == t[i]);
            } else {
                assert(s[i] == s.last());
            }
        }
    }
}

/// The last card of the sorted hand is the last card of the hand that has
/// the highest strength: every card after it in the hand is weaker.
pub proof fn lemma_sorted_last(s: Seq<Card>)
    requires
        s.len() > 0,
    ensures
        sorted_by_number(s).len() > 0,
        exists|k: int| {
            &&& 0 <= k < s.len()
            &&& #[trigger] s[k] == sorted_by_number(s).last()
            &&& forall|i: int| k < i < s.len() ==> #[trigger] s[i].number < sorted_by_number(s).last().number
        },
{
    let t = sorted_by_number(s);
    lemma_sorted_same_cards(s);
    lemma_sorted_is_ordered(s);
    assert(s.contains(s[0]));
    assert(t.contains(s[0]));
    let c = t.last();
    let p = has_number(c.number);
    lemma_sorted_is_stable(s, c.number);
    reveal(Seq::filter);
    assert(t.filter(p) == t.drop_last().filter(p).push(c));
    lemma_filter_last(s, p);
    let k = choose|k: int| {
        &&& 0 <= k < s.len()
        &&& #[trigger] s[k] == s.filter(p).last()
        &&& p(s[k])
        &&& forall|i: int| k < i < s.len() ==> !p(#[trigger] s[i])
    };
    assert(s[k] == c);
    assert forall|i: int| k < i < s.len() implies #[trigger] s[i].number < c.number by {
        assert(s.contains(s[i]));
        assert(t.contains(s[i]));
        let j = choose|j: int| 0 <= j < t.len() && t[j] == s[i];
        if j < t.len() - 1 {
            assert(t[j].number <= t[t.len() - 1].number);
        }
        assert(!p(s[i]));
    }
}

} // verus!
