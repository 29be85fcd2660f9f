use battleline_bot::bot::{format_play, Ai};
use battleline_bot::card::{Card, ClaimStatus, Color};
use battleline_bot::hand::sort_by_number;
use battleline_bot::play::choose_play;

fn card(color: Color, number: u8) -> Card {
    Card { color, number }
}

fn get_colors() -> Vec<Color> {
    vec![Color::Color1, Color::Color2, Color::Color3, Color::Color4, Color::Color5, Color::Color6]
}

fn names() -> Vec<String> {
    ["a", "b", "c", "d", "e", "f"].iter().map(|s| s.to_string()).collect()
}

fn fresh_board() -> (Vec<ClaimStatus>, Vec<Vec<Card>>) {
    (vec![ClaimStatus::Unclaimed; 9], vec![vec![]; 9])
}

#[test]
#[allow(non_snake_case)]
fn playHighestOnLast() {
    let ai = Ai {};
    let (claims, flags) = fresh_board();
    let hand = vec![card(Color::Color1, 7), card(Color::Color2, 10), card(Color::Color3, 3)];
    let response = ai.update_game_state(&hand, &claims, &flags, &get_colors(), &names());
    assert_eq!("play 9 b,10", response);
    let hand = vec![card(Color::Color1, 7), card(Color::Color3, 3)];
    let response = ai.update_game_state(&hand, &claims, &flags, &get_colors(), &names());
    assert_eq!("play 9 a,7", response);
    let hand = vec![card(Color::Color3, 3)];
    let response = ai.update_game_state(&hand, &claims, &flags, &get_colors(), &names());
    assert_eq!("play 9 c,3", response);
}

#[test]
fn bot_name() {
    assert_eq!("rusty_battleline_bot_wip", Ai {}.get_bot_name());
}

#[test]
fn idle_answer_with_empty_hand() {
    let (claims, flags) = fresh_board();
    let response = Ai {}.update_game_state(&vec![], &claims, &flags, &get_colors(), &names());
    assert_eq!("play 1 red,1", response);
}

#[test]
fn idle_answer_with_no_open_flag() {
    let claims = vec![ClaimStatus::Claimed, ClaimStatus::Claimed];
    let flags = vec![vec![], vec![]];
    let hand = vec![card(Color::Color1, 7)];
    assert_eq!(None, choose_play(&hand, &claims, &flags, &get_colors()));
    let response = Ai {}.update_game_state(&hand, &claims, &flags, &get_colors(), &names());
    assert_eq!("play 1 red,1", response);
}

#[test]
fn full_flags_are_skipped() {
    let claims = vec![ClaimStatus::Unclaimed; 3];
    let four = vec![card(Color::Color1, 1); 4];
    let flags = vec![vec![], four.clone(), four];
    let hand = vec![card(Color::Color5, 2)];
    assert_eq!(Some((0, card(Color::Color5, 2))), choose_play(&hand, &claims, &flags, &get_colors()));
}

#[test]
fn wedge_comes_before_the_fallback() {
    let mut claims = vec![ClaimStatus::Unclaimed; 9];
    claims[0] = ClaimStatus::Claimed;
    let mut flags: Vec<Vec<Card>> = vec![vec![]; 9];
    flags[2] = vec![card(Color::Color4, 4)];
    let hand = vec![card(Color::Color4, 6), card(Color::Color4, 5), card(Color::Color1, 10)];
    let response = Ai {}.update_game_state(&hand, &claims, &flags, &get_colors(), &names());
    assert_eq!("play 3 d,6", response);
    assert_eq!(Some((2, card(Color::Color4, 6))), choose_play(&hand, &claims, &flags, &get_colors()));
}

#[test]
fn phalanx_on_second_flag() {
    let claims = vec![ClaimStatus::Unclaimed; 2];
    let flags = vec![vec![card(Color::Color1, 1)], vec![card(Color::Color2, 8)]];
    let hand = vec![card(Color::Color6, 8), card(Color::Color3, 8), card(Color::Color1, 3)];
    assert_eq!(Some((1, card(Color::Color6, 8))), choose_play(&hand, &claims, &flags, &get_colors()));
}

#[test]
fn played_card_comes_from_hand_onto_open_flag() {
    let claims = vec![ClaimStatus::Unclaimed, ClaimStatus::Claimed, ClaimStatus::Unclaimed];
    let flags = vec![vec![card(Color::Color2, 2)], vec![], vec![card(Color::Color3, 9)]];
    let hand = vec![card(Color::Color2, 3), card(Color::Color5, 1), card(Color::Color2, 4)];
    let (x, c) = choose_play(&hand, &claims, &flags, &get_colors()).unwrap();
    assert!(claims[x] == ClaimStatus::Unclaimed && flags[x].len() <= 3);
    assert!(hand.contains(&c));
}

#[test]
fn sorting_is_stable_by_strength() {
    let hand = vec![
        card(Color::Color3, 7),
        card(Color::Color1, 2),
        card(Color::Color2, 7),
        card(Color::Color6, 0),
        card(Color::Color4, 2),
    ];
    let sorted = sort_by_number(&hand);
    assert_eq!(
        vec![
            card(Color::Color6, 0),
            card(Color::Color1, 2),
            card(Color::Color4, 2),
            card(Color::Color3, 7),
            card(Color::Color2, 7),
        ],
        sorted
    );
}

#[test]
fn formats_numbers_in_decimal() {
    assert_eq!("play 10 green,255", format_play(10, "green", 255));
    assert_eq!("play 0 x,0", format_play(0, "x", 0));
    assert_eq!("play 123 ,9", format_play(123, "", 9));
}
