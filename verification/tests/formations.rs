use battleline_bot::card::{Card, Color};
use battleline_bot::formations::{
    check_for_battalion, check_for_phalanx, check_for_skirmish, check_for_wedge,
};

fn card(color: Color, number: u8) -> Card {
    Card { color, number }
}

fn get_colors() -> Vec<Color> {
    vec![Color::Color1, Color::Color2, Color::Color3, Color::Color4, Color::Color5, Color::Color6]
}

#[test]
fn verify_battalion_1() {
    let hand = vec![card(Color::Color1, 7), card(Color::Color2, 8), card(Color::Color1, 1)];
    let flag = vec![card(Color::Color1, 6)];
    let (x, y) = check_for_battalion(&hand, &flag, &get_colors());
    assert!(x);
    assert_eq!(card(Color::Color1, 7), y);
}

#[test]
fn verify_battalion_3() {
    let hand = vec![
        card(Color::Color1, 4),
        card(Color::Color2, 5),
        card(Color::Color3, 1),
        card(Color::Color4, 10),
        card(Color::Color1, 2),
        card(Color::Color5, 7),
        card(Color::Color3, 7),
    ];
    let flag = vec![card(Color::Color3, 9)];
    let (x, y) = check_for_battalion(&hand, &flag, &get_colors());
    assert!(x);
    assert_eq!(card(Color::Color3, 7), y);
    let flag = vec![card(Color::Color2, 10)];
    let (x, _y) = check_for_battalion(&hand, &flag, &get_colors());
    assert!(!x);
}

#[test]
fn verify_battalion_2() {
    let hand = vec![card(Color::Color1, 7), card(Color::Color2, 1)];
    let flag = vec![card(Color::Color1, 6)];
    let (x, _) = check_for_battalion(&hand, &flag, &get_colors());
    assert!(!x);
}

#[test]
fn verify_phalanx_cant_place_on_already_placed_flag() {
    let hand = vec![card(Color::Color1, 7), card(Color::Color2, 7), card(Color::Color3, 7)];
    let flag = vec![card(Color::Color1, 3)];
    let (x, _) = check_for_phalanx(&hand, &flag, &get_colors());
    assert!(!x);
}

#[test]
fn verify_wedge() {
    let hand = vec![card(Color::Color1, 5), card(Color::Color1, 6), card(Color::Color2, 1)];
    let flag = vec![card(Color::Color1, 4)];
    let (x, _) = check_for_wedge(&hand, &flag, &get_colors());
    assert!(x);
}

#[test]
fn verify_skirmish() {
    let hand = vec![card(Color::Color1, 5), card(Color::Color2, 6), card(Color::Color2, 1)];
    let flag = vec![card(Color::Color3, 4)];
    let (x, _) = check_for_skirmish(&hand, &flag, &get_colors());
    assert!(x);
}

#[test]
fn phalanx_on_empty_flag_takes_first_card_of_highest_strength() {
    let hand = vec![
        card(Color::Color4, 2),
        card(Color::Color2, 2),
        card(Color::Color5, 2),
        card(Color::Color3, 8),
        card(Color::Color1, 8),
        card(Color::Color6, 8),
    ];
    let (x, y) = check_for_phalanx(&hand, &vec![], &get_colors());
    assert!(x);
    assert_eq!(card(Color::Color3, 8), y);
}

#[test]
fn phalanx_completed_by_flag_cards() {
    let hand = vec![card(Color::Color2, 9), card(Color::Color5, 3)];
    let flag = vec![card(Color::Color1, 9), card(Color::Color4, 9)];
    assert_eq!((true, card(Color::Color2, 9)), check_for_phalanx(&hand, &flag, &get_colors()));
}

#[test]
fn phalanx_ignores_strength_ten() {
    let hand = vec![card(Color::Color1, 10), card(Color::Color2, 10), card(Color::Color3, 10)];
    assert_eq!((false, card(Color::Color1, 1)), check_for_phalanx(&hand, &vec![], &get_colors()));
}

#[test]
fn phalanx_needs_a_hand_card() {
    let flag = vec![card(Color::Color1, 5), card(Color::Color2, 5), card(Color::Color3, 5)];
    assert_eq!((false, card(Color::Color1, 1)), check_for_phalanx(&vec![], &flag, &get_colors()));
}

#[test]
fn battalion_follows_the_colour_order_given() {
    let hand = vec![
        card(Color::Color1, 1),
        card(Color::Color1, 3),
        card(Color::Color1, 9),
        card(Color::Color2, 4),
        card(Color::Color2, 8),
        card(Color::Color2, 2),
    ];
    let forward = get_colors();
    assert_eq!((true, card(Color::Color2, 8)), check_for_battalion(&hand, &vec![], &forward));
    let backward = vec![Color::Color2, Color::Color1];
    assert_eq!((true, card(Color::Color1, 9)), check_for_battalion(&hand, &vec![], &backward));
    assert_eq!((false, card(Color::Color1, 1)), check_for_battalion(&hand, &vec![], &vec![]));
}

#[test]
fn battalion_keeps_first_of_equal_strength() {
    let hand = vec![card(Color::Color3, 6), card(Color::Color3, 6), card(Color::Color3, 2)];
    assert_eq!((true, card(Color::Color3, 6)), check_for_battalion(&hand, &vec![], &get_colors()));
}

#[test]
fn wedge_reports_first_neighbour_of_last_centre() {
    let hand = vec![card(Color::Color1, 5), card(Color::Color1, 6), card(Color::Color2, 1)];
    let flag = vec![card(Color::Color1, 4)];
    assert_eq!((true, card(Color::Color1, 6)), check_for_wedge(&hand, &flag, &get_colors()));
}

#[test]
fn wedge_needs_one_colour() {
    let hand = vec![card(Color::Color1, 5), card(Color::Color2, 6)];
    let flag = vec![card(Color::Color1, 4)];
    assert_eq!((false, card(Color::Color1, 1)), check_for_wedge(&hand, &flag, &get_colors()));
    assert_eq!((true, card(Color::Color2, 6)), check_for_skirmish(&hand, &flag, &get_colors()));
}

#[test]
fn runs_need_all_flag_cards_adjacent() {
    let hand = vec![card(Color::Color1, 5), card(Color::Color1, 6)];
    let flag = vec![card(Color::Color1, 4), card(Color::Color1, 9)];
    assert_eq!((false, card(Color::Color1, 1)), check_for_wedge(&hand, &flag, &get_colors()));
    assert_eq!((false, card(Color::Color1, 1)), check_for_skirmish(&hand, &flag, &get_colors()));
}

#[test]
fn skirmish_in_hand_alone() {
    let hand = vec![card(Color::Color4, 3), card(Color::Color2, 2), card(Color::Color6, 4)];
    assert_eq!((true, card(Color::Color2, 2)), check_for_skirmish(&hand, &vec![], &get_colors()));
}

#[test]
fn extreme_strengths_do_not_wrap() {
    let hand = vec![card(Color::Color1, 0), card(Color::Color1, 255), card(Color::Color1, 254)];
    assert_eq!((false, card(Color::Color1, 1)), check_for_skirmish(&hand, &vec![], &get_colors()));
}
