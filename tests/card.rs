use itertools::Itertools;
use pokercraft_core::{Card, CardNumber, CardShape, HandRank, PokercraftLocalError};

/// Check if the given cards always result in the expected
/// hand rank for all permutations of the cards.
fn check_for_all_permutations(cards: [Card; 5], expected: HandRank) {
    for shuffled in cards.iter().permutations(5) {
        let cards = [
            *shuffled[0],
            *shuffled[1],
            *shuffled[2],
            *shuffled[3],
            *shuffled[4],
        ];
        let rank = HandRank::new(cards);
        assert_eq!(rank, expected);
    }
}

/// Convenience function to create an array of `Card`s from strings.
/// This method will throw an error if any of the strings is invalid or duplicated.
fn create_cards_slice<const N: usize>(
    card_strs: [&str; N],
) -> Result<[Card; N], PokercraftLocalError> {
    let mut cards = [Card::default(); N];
    for (i, s) in card_strs.iter().enumerate() {
        cards[i] = Card::parse(s)?;
    }
    for i in 0..N {
        for j in (i + 1)..N {
            if cards[i] == cards[j] {
                return Err(PokercraftLocalError::DuplicateOrOverlappingCard);
            }
        }
    }
    Ok(cards)
}

fn show(cards: &[Card; 5]) -> String {
    cards.iter().map(|c| c.to_string()).join(" ")
}

#[test]
/// Test the construction of `HandRank` from various card combinations.
fn test_rank_construction() -> Result<(), PokercraftLocalError> {
    for cards in [
        create_cards_slice(["As", "Kd", "Jh", "9c", "3s"])?,
        create_cards_slice(["5s", "7d", "4s", "3s", "2s"])?,
    ] {
        println!("Testing cards for high: {}", show(&cards));
        let mut sorted_cards = cards.clone();
        HandRank::sort_decreasing(&mut sorted_cards);
        check_for_all_permutations(cards, HandRank::HighCard(sorted_cards));
    }

    for cards in [
        create_cards_slice(["As", "Ad", "Jh", "9c", "3s"])?,
        create_cards_slice(["5s", "5d", "4s", "3s", "2s"])?,
        create_cards_slice(["Qd", "Qh", "7s", "4c", "2d"])?,
    ] {
        println!("Testing cards for one pair: {}", show(&cards));
        let mut sorted_kickers = [cards[2], cards[3], cards[4]];
        HandRank::sort_decreasing(&mut sorted_kickers);
        check_for_all_permutations(cards, HandRank::OnePair(cards[0].number, sorted_kickers));
    }

    for cards in [
        create_cards_slice(["As", "Ad", "Jh", "Jc", "3s"])?,
        create_cards_slice(["5s", "5d", "3s", "3c", "4s"])?,
        create_cards_slice(["Qd", "Qh", "7s", "7c", "Ad"])?,
    ] {
        println!("Testing cards for two pairs: {}", show(&cards));
        let mut high_pair = cards[0].number;
        let mut low_pair = cards[2].number;
        let kicker = cards[4];
        if low_pair > high_pair {
            std::mem::swap(&mut high_pair, &mut low_pair);
        }
        check_for_all_permutations(cards, HandRank::TwoPairs(high_pair, low_pair, kicker));
    }

    for cards in [
        create_cards_slice(["As", "Ad", "Ac", "9c", "3s"])?,
        create_cards_slice(["5s", "5d", "5h", "3s", "Js"])?,
        create_cards_slice(["Qd", "Qh", "Qs", "7c", "Kd"])?,
    ] {
        println!("Testing cards for triple: {}", show(&cards));
        let mut sorted_kickers = [cards[3], cards[4]];
        HandRank::sort_decreasing(&mut sorted_kickers);
        check_for_all_permutations(cards, HandRank::Triple(cards[0].number, sorted_kickers));
    }

    for cards in [
        create_cards_slice(["As", "Kd", "Qh", "Jc", "Ts"])?,
        create_cards_slice(["5s", "4d", "3h", "2c", "As"])?,
        create_cards_slice(["9d", "8h", "7s", "6c", "5d"])?,
    ] {
        println!("Testing cards for straight: {}", show(&cards));
        check_for_all_permutations(cards, HandRank::Straight(cards[0].number));
    }

    for cards in [
        create_cards_slice(["As", "Ks", "Qs", "Js", "9s"])?,
        create_cards_slice(["5d", "4d", "3d", "2d", "Jd"])?,
        create_cards_slice(["9c", "3c", "2c", "6c", "Tc"])?,
    ] {
        println!("Testing cards for flush: {}", show(&cards));
        let mut sorted_numbers = [
            cards[0].number,
            cards[1].number,
            cards[2].number,
            cards[3].number,
            cards[4].number,
        ];
        sorted_numbers.sort();
        sorted_numbers.reverse();
        check_for_all_permutations(cards, HandRank::Flush(cards[0].shape, sorted_numbers));
    }

    for cards in [
        create_cards_slice(["As", "Ad", "Ac", "Ks", "Kd"])?,
        create_cards_slice(["5s", "5d", "5h", "3c", "3s"])?,
        create_cards_slice(["Qd", "Qh", "Qs", "Kc", "Kd"])?,
    ] {
        println!("Testing cards for full house: {}", show(&cards));
        let three = cards[0].number;
        let pair = cards[3].number;
        check_for_all_permutations(cards, HandRank::FullHouse(three, pair));
    }

    for cards in [
        create_cards_slice(["As", "Ad", "Ac", "Ah", "Kd"])?,
        create_cards_slice(["5s", "5d", "5h", "5c", "Js"])?,
        create_cards_slice(["Qd", "Qh", "Qs", "Qc", "2d"])?,
    ] {
        println!("Testing cards for quads: {}", show(&cards));
        let four = cards[0].number;
        let kicker = cards[4];
        check_for_all_permutations(cards, HandRank::Quads(four, kicker));
    }

    for cards in [
        create_cards_slice(["As", "Ks", "Qs", "Js", "Ts"])?,
        create_cards_slice(["5d", "4d", "3d", "2d", "Ad"])?,
        create_cards_slice(["9c", "8c", "7c", "6c", "5c"])?,
    ] {
        println!("Testing cards for straight flush: {}", show(&cards));
        let highest = cards[0];
        check_for_all_permutations(cards, HandRank::StraightFlush(highest));
    }

    Ok(())
}

#[test]
fn test_rank_order() -> Result<(), PokercraftLocalError> {
    let ranks = [
        // High cards
        HandRank::HighCard(create_cards_slice(["7s", "6d", "4h", "3c", "2s"])?),
        HandRank::HighCard(create_cards_slice(["8s", "6c", "4h", "3c", "2s"])?),
        HandRank::HighCard(create_cards_slice(["As", "Kd", "4c", "3c", "2d"])?),
        HandRank::HighCard(create_cards_slice(["As", "Kd", "Jh", "5h", "4s"])?),
        HandRank::HighCard(create_cards_slice(["As", "Kd", "Jh", "9c", "2s"])?),
        HandRank::HighCard(create_cards_slice(["As", "Kd", "Jh", "9c", "3s"])?),
        // One pair
        HandRank::OnePair(CardNumber::Two, create_cards_slice(["Ks", "Qd", "3d"])?),
        HandRank::OnePair(CardNumber::Two, create_cards_slice(["Ks", "Qd", "Jh"])?),
        HandRank::OnePair(CardNumber::Two, create_cards_slice(["As", "Kd", "Jh"])?),
        HandRank::OnePair(CardNumber::Ten, create_cards_slice(["Ks", "Qd", "Jh"])?),
        HandRank::OnePair(CardNumber::Ace, create_cards_slice(["Ks", "Qd", "Jh"])?),
        // Two pairs
        HandRank::TwoPairs(CardNumber::King, CardNumber::Jack, Card::parse("Qd")?),
        HandRank::TwoPairs(CardNumber::Ace, CardNumber::Jack, Card::parse("Qd")?),
        HandRank::TwoPairs(CardNumber::Ace, CardNumber::King, Card::parse("6d")?),
        HandRank::TwoPairs(CardNumber::Ace, CardNumber::King, Card::parse("Qd")?),
        // Triple
        HandRank::Triple(CardNumber::Three, create_cards_slice(["Jd", "Th"])?),
        HandRank::Triple(CardNumber::Four, create_cards_slice(["As", "Qh"])?),
        HandRank::Triple(CardNumber::Ace, create_cards_slice(["Jd", "Th"])?),
        HandRank::Triple(CardNumber::Ace, create_cards_slice(["Kd", "2h"])?),
        HandRank::Triple(CardNumber::Ace, create_cards_slice(["Kd", "Jh"])?),
        // Straight
        HandRank::Straight(CardNumber::Five),
        HandRank::Straight(CardNumber::Nine),
        HandRank::Straight(CardNumber::Ace),
        // Flush
        HandRank::Flush(
            CardShape::Club,
            [
                CardNumber::King,
                CardNumber::Jack,
                CardNumber::Ten,
                CardNumber::Nine,
                CardNumber::Two,
            ],
        ),
        HandRank::Flush(
            CardShape::Spade,
            [
                CardNumber::Ace,
                CardNumber::King,
                CardNumber::Eight,
                CardNumber::Seven,
                CardNumber::Six,
            ],
        ),
        HandRank::Flush(
            CardShape::Spade,
            [
                CardNumber::Ace,
                CardNumber::King,
                CardNumber::Jack,
                CardNumber::Nine,
                CardNumber::Three,
            ],
        ),
        HandRank::Flush(
            CardShape::Spade,
            [
                CardNumber::Ace,
                CardNumber::King,
                CardNumber::Jack,
                CardNumber::Nine,
                CardNumber::Eight,
            ],
        ),
        // Full house
        HandRank::FullHouse(CardNumber::King, CardNumber::Two),
        HandRank::FullHouse(CardNumber::King, CardNumber::Ace),
        HandRank::FullHouse(CardNumber::Ace, CardNumber::King),
        // Quads
        HandRank::Quads(CardNumber::King, Card::parse("As")?),
        HandRank::Quads(CardNumber::Ace, Card::parse("Jd")?),
        HandRank::Quads(CardNumber::Ace, Card::parse("Qd")?),
        // Straight flush
        HandRank::StraightFlush(Card::parse("5d")?),
        HandRank::StraightFlush(Card::parse("9c")?),
        HandRank::StraightFlush(Card::parse("As")?),
    ];

    // Brute force comparison
    for i in 0..ranks.len() {
        for j in (i + 1)..ranks.len() {
            assert!(ranks[i] < ranks[j]);
        }
    }
    Ok(())
}

#[test]
fn parse_accepts_either_case() {
    let card = Card::parse("tD").unwrap();
    assert_eq!(card, Card { shape: CardShape::Diamond, number: CardNumber::Ten });
    assert_eq!(Card::parse("AS").unwrap(), Card { shape: CardShape::Spade, number: CardNumber::Ace });
}

#[test]
fn parse_names_the_offending_part() {
    assert_eq!(
        Card::parse("Xs"),
        Err(PokercraftLocalError::InvalidEncoding("X".to_string()))
    );
    assert_eq!(
        Card::parse("Ax"),
        Err(PokercraftLocalError::InvalidEncoding("x".to_string()))
    );
    assert_eq!(
        Card::parse("Asd"),
        Err(PokercraftLocalError::InvalidEncoding("Asd".to_string()))
    );
    assert_eq!(
        Card::parse(""),
        Err(PokercraftLocalError::InvalidEncoding("".to_string()))
    );
    assert_eq!(
        Card::parse("é"),
        Err(PokercraftLocalError::InvalidEncoding("é".to_string()))
    );
}

#[test]
fn card_code_round_trip() {
    for card in Card::all() {
        let code = card.to_string();
        assert_eq!(code.chars().count(), 2);
        assert_eq!(Card::parse(&code).unwrap(), card);
    }
    assert_eq!(Card::parse("9h").unwrap().to_string(), "9h");
    assert_eq!(Card::parse("kc").unwrap().to_string(), "Kc");
}

#[test]
fn deck_has_52_distinct_cards() {
    let deck = Card::all();
    assert_eq!(deck.len(), 52);
    for i in 0..52 {
        for j in (i + 1)..52 {
            assert_ne!(deck[i], deck[j]);
        }
    }
    assert_eq!(deck[0], Card { shape: CardShape::Spade, number: CardNumber::Two });
    assert_eq!(deck[51], Card { shape: CardShape::Club, number: CardNumber::Ace });
    assert_eq!(CardShape::all().len(), 4);
    assert_eq!(CardNumber::all().len(), 13);
}

#[test]
fn number_from_integer() {
    assert_eq!(CardNumber::new(1), Some(CardNumber::Ace));
    assert_eq!(CardNumber::new(14), Some(CardNumber::Ace));
    assert_eq!(CardNumber::new(10), Some(CardNumber::Ten));
    assert_eq!(CardNumber::new(0), None);
    assert_eq!(CardNumber::new(15), None);
    assert_eq!(CardNumber::new(-3), None);
}

#[test]
fn next_in_cycle_wraps_only_from_ace_to_two() {
    assert!(CardNumber::Two.is_next_in_cycle(&CardNumber::Ace));
    assert!(CardNumber::Three.is_next_in_cycle(&CardNumber::Two));
    assert!(CardNumber::Ace.is_next_in_cycle(&CardNumber::King));
    assert!(!CardNumber::Ace.is_next_in_cycle(&CardNumber::Two));
    assert!(!CardNumber::King.is_next_in_cycle(&CardNumber::Ace));
    assert!(!CardNumber::Five.is_next_in_cycle(&CardNumber::Five));
}

#[test]
fn wheel_is_five_high_for_every_shape_combination() {
    let shapes = CardShape::all();
    let numbers = [
        CardNumber::Ace,
        CardNumber::Five,
        CardNumber::Four,
        CardNumber::Three,
        CardNumber::Two,
    ];
    for code in 0..(4usize.pow(5)) {
        let mut cards = [Card::default(); 5];
        let mut rest = code;
        for k in 0..5 {
            cards[k] = Card { shape: shapes[rest % 4], number: numbers[k] };
            rest /= 4;
        }
        let same = cards.iter().all(|c| c.shape == cards[0].shape);
        let expected = if same {
            HandRank::StraightFlush(Card { shape: cards[0].shape, number: CardNumber::Five })
        } else {
            HandRank::Straight(CardNumber::Five)
        };
        assert_eq!(HandRank::new(cards), expected);
        if !same {
            assert!(HandRank::new(cards) < HandRank::Straight(CardNumber::Six));
        }
    }
}

#[test]
fn numerize_packs_base_thirteen() {
    let rank = HandRank::FullHouse(CardNumber::King, CardNumber::Two);
    assert_eq!(rank.numerize(), (6, 13 * 13 + 2));
    let high = HandRank::new(create_cards_slice(["As", "Kd", "Jh", "9c", "3s"]).unwrap());
    assert_eq!(high.numerize(), (0, (((14 * 13 + 13) * 13 + 11) * 13 + 9) * 13 + 3));
    assert_eq!(HandRank::Straight(CardNumber::Five).numerize(), (4, 5));
}

#[test]
fn evaluation_is_repeatable() {
    let cards = create_cards_slice(["Qd", "Qh", "7s", "7c", "Ad"]).unwrap();
    let first = HandRank::new(cards);
    let second = HandRank::new(cards);
    assert_eq!(first, second);
    assert_eq!(first.compare(&second), std::cmp::Ordering::Equal);
}

#[test]
fn equal_keys_tie_across_shapes() {
    let a = HandRank::new(create_cards_slice(["As", "Kd", "Jh", "9c", "3s"]).unwrap());
    let b = HandRank::new(create_cards_slice(["Ad", "Kh", "Jc", "9s", "3d"]).unwrap());
    assert_ne!(a, b);
    assert_eq!(a.compare(&b), std::cmp::Ordering::Equal);
    assert_eq!(a.partial_cmp(&b), Some(std::cmp::Ordering::Equal));
}

#[test]
fn best_five_of_seven() {
    let cards = [
        Card::parse("2c").unwrap(),
        Card::parse("As").unwrap(),
        Card::parse("Ks").unwrap(),
        Card::parse("7d").unwrap(),
        Card::parse("Qs").unwrap(),
        Card::parse("Js").unwrap(),
        Card::parse("Ts").unwrap(),
    ];
    let (best_cards, best) = HandRank::find_best5(cards);
    assert_eq!(best, HandRank::StraightFlush(Card::parse("As").unwrap()));
    assert_eq!(HandRank::new(best_cards), best);
}
