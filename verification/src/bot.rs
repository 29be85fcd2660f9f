//! The bot: its name, and its answer to a game state, the `play` command.
use vstd::prelude::*;
use crate::card::{Card, ClaimStatus, Color};
use crate::hand::sorted_by_number;
use crate::play::{choose_play, planned_play};

verus! {

/// The character of decimal digit `d`.
pub open spec fn digit_char(d: int) -> char {
    (d + 48) as char
}

/// The decimal writing of `n`, without leading zeros.
pub open spec fn decimal(n: nat) -> Seq<char>
    decreases n,
{
    if n < 10 {
        seq![digit_char(n as int)]
    } else {
        decimal(n / 10) + seq![digit_char((n % 10) as int)]
    }
}

/// The position of a colour among the six: `Color1` is 0.
pub open spec fn color_index(c: Color) -> int {
    match c {
        Color::Color1 => 0,
        Color::Color2 => 1,
        Color::Color3 => 2,
        Color::Color4 => 3,
        Color::Color5 => 4,
        Color::Color6 => 5,
    }
}

/// `play <flag> <colour name>,<strength>`, the flag counted from 1.
pub open spec fn play_message(flag_number: nat, color_name: Seq<char>, number: u8) -> Seq<char> {
    seq!['p', 'l', 'a', 'y', ' '] + decimal(flag_number) + seq![' '] + color_name + seq![','] + decimal(
        number as nat,
    )
}

/// The answer when there is nothing to play: `play 1 red,1`.
pub open spec fn idle_message() -> Seq<char> {
    seq!['p', 'l', 'a', 'y', ' ', '1', ' ', 'r', 'e', 'd', ',', '1']
}

/// The bot's answer: the planned play written as a command, the colour named
/// by `color_names` (the name of `Color1` first), or `play 1 red,1`.
pub open spec fn response(
    sorted_hand: Seq<Card>,
    claims: Seq<ClaimStatus>,
    flags: Seq<Vec<Card>>,
    colors: Seq<Color>,
    color_names: Seq<String>,
) -> Seq<char> {
    match planned_play(sorted_hand, claims, flags, colors) {
        Some((x, c)) => play_message((x + 1) as nat, color_names[color_index(c.color)]@, c.number),
        None => idle_message(),
    }
}

/// The text of one decimal digit.
fn digit_str(d: usize) -> (s: &'static str)
    requires
        d < 10,
    ensures
        s@ == seq![digit_char(d as int)],
{
    if d == 0 {
        proof { reveal_strlit("0"); }
        "0"
    } else if d == 1 {
        proof { reveal_strlit("1"); }
        "1"
    } else if d == 2 {
        proof { reveal_strlit("2"); }
        "2"
    } else if d == 3 {
        proof { reveal_strlit("3"); }
        "3"
    } else if d == 4 {
        proof { reveal_strlit("4"); }
        "4"
    } else if d == 5 {
        proof { reveal_strlit("5"); }
        "5"
    } else if d == 6 {
        proof { reveal_strlit("6"); }
        "6"
    } else if d == 7 {
        proof { reveal_strlit("7"); }
        "7"
    } else if d == 8 {
        proof { reveal_strlit("8"); }
        "8"
    } else {
        proof { reveal_strlit("9"); }
        "9"
    }
}

/// Appends the decimal writing of `n`.
fn push_decimal(out: &mut String, n: usize)
    ensures
        final(out)@ == old(out)@ + decimal(n as nat),
    decreases n,
{
    if n >= 10 {
        push_decimal(out, n / 10);
        out.append(digit_str(n % 10));
        proof {
            assert(old(out)@ + decimal((n / 10) as nat) + seq![digit_char((n % 10) as int)] =~= old(out)@
                + decimal(n as nat));
        }
    } else {
        out.append(digit_str(n));
    }
}

/// Writes `play <flag> <colour name>,<strength>`.
pub fn format_play(flag_number: usize, color_name: &str, number: u8) -> (msg: String)
    ensures
        msg@ == play_message(flag_number as nat, color_name@, number),
{
    let mut out = String::from_str("play ");
    proof { reveal_strlit("play "); }
    push_decimal(&mut out, flag_number);
    out.append(" ");
    proof { reveal_strlit(" "); }
    out.append(color_name);
    out.append(",");
    proof { reveal_strlit(","); }
    push_decimal(&mut out, number as usize);
    proof {
        assert(out@ =~= play_message(flag_number as nat, color_name@, number));
    }
    out
}

/// The position of a colour among the six.
fn color_position(c: Color) -> (i: usize)
    ensures
        i == color_index(c),
{
    match c {
        Color::Color1 => 0,
        Color::Color2 => 1,
        Color::Color3 => 2,
        Color::Color4 => 3,
        Color::Color5 => 4,
        Color::Color6 => 5,
    }
}

/// The bot.
pub struct Ai {}

impl Ai {
    /// Answers a game state with a `play` command: `hand` is the bot's hand,
    /// `claims` who holds each flag, `flags` the bot's cards on each flag,
    /// `colors_vec` the colours in play, `color_names` the name of each colour
    /// from `Color1` to `Color6`.
    pub fn update_game_state(
        &self,
        hand: &Vec<Card>,
        claims: &Vec<ClaimStatus>,
        flags: &Vec<Vec<Card>>,
        colors_vec: &Vec<Color>,
        color_names: &Vec<String>,
    ) -> (msg: String)
        requires
            claims.len() <= flags.len(),
            color_names.len() == 6,
        ensures
            msg@ == response(sorted_by_number(hand@), claims@, flags@, colors_vec@, color_names@),
            planned_play(sorted_by_number(hand@), claims@, flags@, colors_vec@) matches Some((x, c)) ==> (c.color
                == Color::Color1 ==> msg@ == seq!['p', 'l', 'a', 'y', ' '] + decimal((x + 1) as nat) + seq![' '] + color_names@[0]@ + seq![','] + decimal(c.number as nat)),
            planned_play(sorted_by_number(hand@), claims@, flags@, colors_vec@) matches Some((x, c)) ==> (c.color
                == Color::Color2 ==> msg@ == seq!['p', 'l', 'a', 'y', ' '] + decimal((x + 1) as nat) + seq![' '] + color_names@[1]@ + seq![','] + decimal(c.number as nat)),
            planned_play(sorted_by_number(hand@), claims@, flags@, colors_vec@) matches Some((x, c)) ==> (c.color
                == Color::Color3 ==> msg@ == seq!['p', 'l', 'a', 'y', ' '] + decimal((x + 1) as nat) + seq![' '] + color_names@[2]@ + seq![','] + decimal(c.number as nat)),
            planned_play(sorted_by_number(hand@), claims@, flags@, colors_vec@) matches Some((x, c)) ==> (c.color
                == Color::Color4 ==> msg@ == seq!['p', 'l', 'a', 'y', ' '] + decimal((x + 1) as nat) + seq![' '] + color_names@[3]@ + seq![','] + decimal(c.number as nat)),
            planned_play(sorted_by_number(hand@), claims@, flags@, colors_vec@) matches Some((x, c)) ==> (c.color
                == Color::Color5 ==> msg@ == seq!['p', 'l', 'a', 'y', ' '] + decimal((x + 1) as nat) + seq![' '] + color_names@[4]@ + seq![','] + decimal(c.number as nat)),
            planned_play(sorted_by_number(hand@), claims@, flags@, colors_vec@) matches Some((x, c)) ==> (c.color
                == Color::Color6 ==> msg@ == seq!['p', 'l', 'a', 'y', ' '] + decimal((x + 1) as nat) + seq![' '] + color_names@[5]@ + seq![','] + decimal(c.number as nat)),
            planned_play(sorted_by_number(hand@), claims@, flags@, colors_vec@) is None ==> msg@ == seq![
                'p', 'l', 'a', 'y', ' ', '1', ' ', 'r', 'e', 'd', ',', '1',
            ],
    {
        match choose_play(hand, claims, flags, colors_vec) {
            Some((x, card)) => {
                let name = color_names[color_position(card.color)].as_str();
                format_play(x + 1, name, card.number)
            },
            None => {
                let msg = String::from_str("play 1 red,1");
                proof {
                    reveal_strlit("play 1 red,1");
                    assert(msg@ =~= idle_message());
                }
                msg
            },
        }
    }

    /// The name the bot gives itself.
    pub fn get_bot_name(&self) -> (name: String)
        ensures
            name@ == seq![
                'r', 'u', 's', 't', 'y', '_', 'b', 'a', 't', 't', 'l', 'e', 'l', 'i', 'n', 'e', '_',
                'b', 'o', 't', '_', 'w', 'i', 'p',
            ],
    {
        let name = String::from_str("rusty_battleline_bot_wip");
        proof {
            reveal_strlit("rusty_battleline_bot_wip");
        }
        name
    }
}

/// The answer names the played card's own colour: the name at position
/// K - 1 of `color_names` for a card of colour K.
pub proof fn lemma_response_names_card_colour(
    sorted_hand: Seq<Card>,
    claims: Seq<ClaimStatus>,
    flags: Seq<Vec<Card>>,
    colors: Seq<Color>,
    color_names: Seq<String>,
)
    ensures
        planned_play(sorted_hand, claims, flags, colors) matches Some((x, c)) ==> {
            &&& (c.color == Color::Color1 ==> response(sorted_hand, claims, flags, colors, color_names) == play_message(
                (x + 1) as nat,
                color_names[0]@,
                c.number,
            ))
            &&& (c.color == Color::Color2 ==> response(sorted_hand, claims, flags, colors, color_names) == play_message(
                (x + 1) as nat,
                color_names[1]@,
                c.number,
            ))
            &&& (c.color == Color::Color3 ==> response(sorted_hand, claims, flags, colors, color_names) == play_message(
                (x + 1) as nat,
                color_names[2]@,
                c.number,
            ))
            &&& (c.color == Color::Color4 ==> response(sorted_hand, claims, flags, colors, color_names) == play_message(
                (x + 1) as nat,
                color_names[3]@,
                c.number,
            ))
            &&& (c.color == Color::Color5 ==> response(sorted_hand, claims, flags, colors, color_names) == play_message(
                (x + 1) as nat,
                color_names[4]@,
                c.number,
            ))
            &&& (c.color == Color::Color6 ==> response(sorted_hand, claims, flags, colors, color_names) == play_message(
                (x + 1) as nat,
                color_names[5]@,
                c.number,
            ))
        },
{
}

/// The number that a string of decimal digits denotes.
pub open spec fn digits_value(s: Seq<char>) -> int
    decreases s.len(),
{
    if s.len() == 0 {
        0
    } else {
        digits_value(s.drop_last()) * 10 + (s.last() as int - 48)
    }
}

/// The decimal writing of `n` is a non-empty string of the digits `0` to `9`
/// that denotes `n`, starting with `0` only when `n` is 0.
pub proof fn lemma_decimal_law(n: nat)
    ensures
        decimal(n).len() >= 1,
        forall|i: int| 0 <= i < decimal(n).len() ==> 48 <= #[trigger] decimal(n)[i] as int <= 57,
        digits_value(decimal(n)) == n,
        n > 0 ==> decimal(n)[0] != '0',
    decreases n,
{
    if n < 10 {
        assert(decimal(n) =~= seq![digit_char(n as int)]);
        assert(decimal(n).drop_last() =~= Seq::<char>::empty());
        assert(digit_char(n as int) as int == n + 48);
        assert(digits_value(decimal(n)) == digits_value(decimal(n).drop_last()) * 10 + (decimal(n).last() as int - 48));
    } else {
        let q = n / 10;
        let d = n % 10;
        lemma_decimal_law(q);
        let t = decimal(q) + seq![digit_char(d as int)];
        assert(decimal(n) == t);
        assert(t.drop_last() =~= decimal(q));
        assert(t[0] == decimal(q)[0]);
        assert(digit_char(d as int) as int == d + 48);
        assert(t.last() == digit_char(d as int));
        assert(digits_value(t) == digits_value(t.drop_last()) * 10 + (t.last() as int - 48));
        assert(q * 10 + d == n);
        assert forall|i: int| 0 <= i < t.len() implies 48 <= #[trigger] t[i] as int <= 57 by {
            if i < decimal(q).len() {
                assert(t[i] == decimal(q)[i]);
            }
        }
    }
}

/// The `play` command is the word `play`, the flag number, the colour name
/// and the strength, separated by a space, a space and a comma.
pub proof fn lemma_play_message_layout(flag_number: nat, color_name: Seq<char>, number: u8)
    ensures
        play_message(flag_number, color_name, number) == seq!['p', 'l', 'a', 'y', ' '] + decimal(flag_number) + seq![' ']
            + color_name + seq![','] + decimal(number as nat),
{
}

} // verus!
