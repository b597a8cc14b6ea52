use katas::poker::Suit::{Club, Diamond, Heart, Spade};
use katas::poker::{best, less, try_winning_hands, winning_hands, Card, Poker, Suit};

fn winners(hands: &[&str]) -> Vec<String> {
    let got = winning_hands(hands).unwrap();
    assert_eq!(Some(got.clone()), try_winning_hands(hands));
    got.into_iter().map(|h| h.to_string()).collect()
}

fn card(rank: &str, suit: &str) -> Option<Card> {
    Card::from_parts(&rank.chars().collect(), &suit.chars().collect())
}

fn score(cards: &[(u8, Suit)]) -> Option<Poker> {
    let cards: Vec<Card> = cards.iter().map(|&(rank, suit)| Card { rank, suit }).collect();
    Poker::new(&cards)
}

#[test]
fn single_hand_always_wins() {
    assert_eq!(winners(&["4S 5S 7H 8D JC"]), vec!["4S 5S 7H 8D JC"]);
}

#[test]
fn highest_card_of_all_hands_wins() {
    assert_eq!(
        winners(&["4D 5S 6S 8D 3C", "2S 4C 7S 9H 10H", "3S 4S 5D 6H JH"]),
        vec!["3S 4S 5D 6H JH"]
    );
}

#[test]
fn a_tie_has_multiple_winners() {
    assert_eq!(
        winners(&["4D 5S 6S 8D 3C", "2S 4C 7S 9H 10H", "3S 4S 5D 6H JH", "3H 4H 5C 6C JD"]),
        vec!["3S 4S 5D 6H JH", "3H 4H 5C 6C JD"]
    );
}

#[test]
fn high_card_can_be_low_card_in_an_otherwise_tie() {
    assert_eq!(winners(&["3S 5H 6S 8D 7H", "2S 5D 6D 8C 7S"]), vec!["3S 5H 6S 8D 7H"]);
}

#[test]
fn one_pair_beats_high_card() {
    assert_eq!(winners(&["4S 5H 6C 8D KH", "2S 4H 6S 4D JH"]), vec!["2S 4H 6S 4D JH"]);
}

#[test]
fn highest_pair_wins() {
    assert_eq!(winners(&["4S 2H 6S 2D JH", "2S 4H 6C 4D JD"]), vec!["2S 4H 6C 4D JD"]);
}

#[test]
fn pairs_of_the_same_rank_tie_whatever_else_the_hands_hold() {
    assert_eq!(
        winners(&["4S 4H 6S 2D JH", "4C 4D AD KD QD"]),
        vec!["4S 4H 6S 2D JH", "4C 4D AD KD QD"]
    );
}

#[test]
fn two_pairs_beats_one_pair() {
    assert_eq!(winners(&["2S 8H 6S 8D JH", "4S 5H 4C 8C 5C"]), vec!["4S 5H 4C 8C 5C"]);
}

#[test]
fn two_pairs_are_compared_highest_pair_first() {
    assert_eq!(winners(&["2S 8H 2D 8D 3H", "4S 5H 4C 8S 5D"]), vec!["2S 8H 2D 8D 3H"]);
    assert_eq!(winners(&["2S QS 2C QD JH", "JD QH JS 8D QC"]), vec!["JD QH JS 8D QC"]);
    assert_eq!(winners(&["JD QH JS 8D QC", "JS QS JC 2D QD"]), vec!["JD QH JS 8D QC"]);
}

#[test]
fn three_of_a_kind_beats_two_pair() {
    assert_eq!(winners(&["2S 8H 2H 8D JH", "4S 5H 4C 8S 4H"]), vec!["4S 5H 4C 8S 4H"]);
}

#[test]
fn three_of_a_kind_is_decided_by_the_triplet_then_the_other_cards() {
    assert_eq!(winners(&["2S 2H 2C 8D JH", "4S AH AS 8C AD"]), vec!["4S AH AS 8C AD"]);
    assert_eq!(winners(&["4S AH AS 7C AD", "4S AH AS 8C AD"]), vec!["4S AH AS 8C AD"]);
}

#[test]
fn a_straight_beats_three_of_a_kind() {
    assert_eq!(winners(&["4S 5H 4C 8D 4H", "3S 4D 2S 6D 5C"]), vec!["3S 4D 2S 6D 5C"]);
}

#[test]
fn aces_can_end_a_straight() {
    assert_eq!(winners(&["4S 5H 4C 8D 4H", "10D JH QS KD AC"]), vec!["10D JH QS KD AC"]);
}

#[test]
fn aces_can_start_a_straight() {
    assert_eq!(winners(&["4S 5H 4C 8D 4H", "4D AH 3S 2D 5C"]), vec!["4D AH 3S 2D 5C"]);
}

#[test]
fn the_straight_from_the_ace_up_is_the_lowest() {
    assert_eq!(winners(&["2H 3C 4D 5D 6H", "4S AH 3S 2D 5H"]), vec!["2H 3C 4D 5D 6H"]);
}

#[test]
fn both_hands_with_a_straight_tie_goes_to_highest_ranked_card() {
    assert_eq!(winners(&["4S 6C 7S 8D 5H", "5S 7H 8S 9D 6H"]), vec!["5S 7H 8S 9D 6H"]);
}

#[test]
fn flush_beats_a_straight() {
    assert_eq!(winners(&["4C 6H 7D 8D 5H", "2S 4S 5S 6S 7S"]), vec!["2S 4S 5S 6S 7S"]);
}

#[test]
fn flushes_are_decided_by_the_highest_card_alone() {
    assert_eq!(winners(&["4H 7H 8H 9H 6H", "2S 4S 5S 6S 7S"]), vec!["4H 7H 8H 9H 6H"]);
    assert_eq!(
        winners(&["4H 7H 8H 9H 2H", "2S 4S 5S 6S 9S"]),
        vec!["4H 7H 8H 9H 2H", "2S 4S 5S 6S 9S"]
    );
}

#[test]
fn full_house_beats_a_flush() {
    assert_eq!(winners(&["3H 6H 7H 8H 5H", "4S 5H 4C 5D 4H"]), vec!["4S 5H 4C 5D 4H"]);
}

#[test]
fn full_houses_are_decided_by_the_triplet_then_the_pair() {
    assert_eq!(winners(&["4H 4S 4D 9S 9D", "5H 5S 5D 8S 8D"]), vec!["5H 5S 5D 8S 8D"]);
    assert_eq!(winners(&["5H 5S 5D 9S 9D", "5H 5S 5D 8S 8D"]), vec!["5H 5S 5D 9S 9D"]);
}

#[test]
fn four_of_a_kind_beats_a_full_house() {
    assert_eq!(winners(&["4S 5H 4D 5D 4H", "3S 3H 2S 3D 3C"]), vec!["3S 3H 2S 3D 3C"]);
}

#[test]
fn four_of_a_kind_is_decided_by_the_quadruplet_then_the_kicker() {
    assert_eq!(winners(&["2S 2H 2C 8D 2D", "4S 5H 5S 5D 5C"]), vec!["4S 5H 5S 5D 5C"]);
    assert_eq!(winners(&["3S 3H 2S 3D 3C", "3S 3H 4S 3D 3C"]), vec!["3S 3H 4S 3D 3C"]);
}

#[test]
fn straight_flush_beats_four_of_a_kind() {
    assert_eq!(winners(&["4S 5H 5S 5D 5C", "7S 8S 9S 6S 10S"]), vec!["7S 8S 9S 6S 10S"]);
}

#[test]
fn straight_flushes_are_decided_by_the_highest_card() {
    assert_eq!(winners(&["4H 6H 7H 8H 5H", "5S 7S 8S 9S 6S"]), vec!["5S 7S 8S 9S 6S"]);
}

#[test]
fn winners_come_in_the_order_of_the_input() {
    assert_eq!(
        winners(&["2S 3S 4S 5S 7S", "2D 3D", "2H 3H 4H 5H 7H", "2C 3C 4C 5C 7C"]),
        vec!["2S 3S 4S 5S 7S", "2H 3H 4H 5H 7H", "2C 3C 4C 5C 7C"]
    );
}

#[test]
fn hands_that_cannot_be_scored() {
    assert_eq!(try_winning_hands(&[]), None);
    assert_eq!(try_winning_hands(&["4S 5S 7H 8D XX"]), None);
    assert_eq!(try_winning_hands(&["4S 5S 7H 8D JC", "1J 5S 7H 8D JC"]), None);
    assert_eq!(try_winning_hands(&["2S 3H"]), None);
    assert_eq!(try_winning_hands(&[""]), None);
    assert_eq!(try_winning_hands(&["2S 3S"]), Some(vec!["2S 3S"]));
}

#[test]
fn a_card_is_found_anywhere_in_its_text() {
    assert_eq!(winners(&["<4S> (5S) [7H] {8D} *JC*"]), vec!["<4S> (5S) [7H] {8D} *JC*"]);
}

#[test]
fn cards_from_their_parts() {
    assert_eq!(card("J", "H").map(|c| (c.rank, c.suit)), Some((11, Suit::Heart)));
    assert_eq!(card("Q", "D").map(|c| (c.rank, c.suit)), Some((12, Suit::Diamond)));
    assert_eq!(card("K", "C").map(|c| (c.rank, c.suit)), Some((13, Suit::Club)));
    assert_eq!(card("A", "S").map(|c| (c.rank, c.suit)), Some((14, Suit::Spade)));
    assert_eq!(card("10", "S").map(|c| (c.rank, c.suit)), Some((10, Suit::Spade)));
    assert_eq!(card("7", "S").map(|c| (c.rank, c.suit)), Some((7, Suit::Spade)));
    assert_eq!(card("255", "S").map(|c| c.rank), Some(255));
    assert_eq!(card("256", "S").map(|c| c.rank), None);
    assert_eq!(card("JJ", "S").map(|c| c.rank), None);
    assert_eq!(card("", "S").map(|c| c.rank), None);
    assert_eq!(card("7", "X").map(|c| c.rank), None);
    assert_eq!(card("7", "").map(|c| c.rank), None);
}

#[test]
fn scores_of_hands() {
    assert_eq!(
        score(&[(3, Spade), (9, Heart), (14, Club), (5, Diamond), (11, Club)]),
        Some(Poker::HighSeven(14, 11, 9, 5, 3))
    );
    assert_eq!(score(&[(3, Spade), (3, Heart), (14, Club), (5, Diamond), (11, Club)]), Some(Poker::Pair(3)));
    assert_eq!(
        score(&[(3, Spade), (3, Heart), (14, Club), (5, Diamond), (5, Club)]),
        Some(Poker::TwoPairs(5, 3, 14))
    );
    assert_eq!(
        score(&[(3, Spade), (3, Heart), (3, Club), (5, Diamond), (9, Club)]),
        Some(Poker::ThreeOfAKind(3, 9, 5))
    );
    assert_eq!(score(&[(3, Spade), (4, Heart), (5, Club), (6, Diamond), (7, Club)]), Some(Poker::Straight(7)));
    assert_eq!(score(&[(14, Spade), (2, Heart), (3, Club), (4, Diamond), (5, Club)]), Some(Poker::Straight(1)));
    assert_eq!(score(&[(3, Club), (9, Club), (14, Club), (5, Club), (11, Club)]), Some(Poker::Flush(14)));
    assert_eq!(score(&[(3, Spade), (3, Heart), (3, Club), (5, Diamond), (5, Club)]), Some(Poker::FullHouse(3, 5)));
    assert_eq!(score(&[(3, Spade), (3, Heart), (3, Club), (3, Diamond), (5, Club)]), Some(Poker::FourOfAKind(3, 5)));
    assert_eq!(score(&[(10, Club), (11, Club), (12, Club), (13, Club), (14, Club)]), Some(Poker::StraightFlush(14)));
    assert_eq!(score(&[]), None);
    assert_eq!(score(&[(3, Spade), (4, Heart)]), None);
    assert_eq!(score(&[(3, Spade), (4, Spade)]), Some(Poker::Flush(4)));
    assert_eq!(
        score(&[(2, Spade), (3, Heart), (5, Club), (7, Diamond), (9, Club), (11, Heart)]),
        Some(Poker::HighSeven(11, 9, 7, 5, 3))
    );
}

#[test]
fn the_order_of_scores() {
    let ladder = vec![
        Poker::HighSeven(2, 2, 2, 2, 2),
        Poker::HighSeven(14, 13, 12, 11, 9),
        Poker::Pair(2),
        Poker::Pair(14),
        Poker::TwoPairs(3, 2, 14),
        Poker::TwoPairs(4, 2, 2),
        Poker::ThreeOfAKind(2, 14, 13),
        Poker::Straight(1),
        Poker::Straight(14),
        Poker::Flush(7),
        Poker::FullHouse(2, 3),
        Poker::FourOfAKind(2, 3),
        Poker::StraightFlush(1),
        Poker::StraightFlush(14),
    ];
    for i in 0..ladder.len() {
        for j in 0..ladder.len() {
            assert_eq!(less(&ladder[i], &ladder[j]), i < j);
        }
    }
    assert_eq!(best(&ladder), vec![ladder.len() - 1]);
    assert_eq!(best(&vec![Poker::Pair(3), Poker::Pair(2), Poker::Pair(3)]), vec![0, 2]);
    assert_eq!(best(&Vec::new()), Vec::<usize>::new());
}
