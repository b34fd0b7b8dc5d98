use pokercraft_core::{Card, EquityResult, Fraction, PokercraftLocalError};

fn card(code: &str) -> Card {
    Card::parse(code).unwrap()
}

fn as_f64(f: Fraction) -> f64 {
    f.numerator as f64 / f.denominator as f64
}

/// Helper function to assert the equity results.
fn assert_equity(
    cards_people: Vec<(Card, Card)>,
    cards_community: Vec<Card>,
    expected_equities: Vec<f64>,
) -> Result<(), PokercraftLocalError> {
    let equity = EquityResult::new(cards_people, cards_community)?;
    for (i, &expected) in expected_equities.iter().enumerate() {
        let actual = as_f64(equity.get_equity(i)?);
        assert!((actual - expected).abs() < 1e-4);
    }
    Ok(())
}

#[test]
fn test_equity() -> Result<(), PokercraftLocalError> {
    assert_equity(
        vec![
            (Card::parse("As")?, Card::parse("Ad")?),
            (Card::parse("Ks")?, Card::parse("Kd")?),
        ],
        vec![],
        vec![0.8236 + 0.0054 / 2.0, 0.1709 + 0.0054 / 2.0],
    )?;

    assert_equity(
        vec![
            (Card::parse("Ac")?, Card::parse("Kc")?),
            (Card::parse("6h")?, Card::parse("7h")?),
        ],
        vec![Card::parse("9d")?, Card::parse("Td")?, Card::parse("Jd")?],
        vec![0.6495 + 0.0566 / 2.0, 0.2939 + 0.0566 / 2.0],
    )?;

    assert_equity(
        vec![
            (Card::parse("Ac")?, Card::parse("Kc")?),
            (Card::parse("6h")?, Card::parse("7h")?),
            (Card::parse("Ts")?, Card::parse("Th")?),
        ],
        vec![Card::parse("9d")?, Card::parse("Td")?, Card::parse("Jd")?],
        vec![
            0.1318 + 0.0620 / 3.0,
            0.1030 + 0.0620 / 3.0,
            0.7032 + 0.0620 / 3.0,
        ],
    )?;
    Ok(())
}

#[test]
fn full_board_counts_one_runout() {
    let result = EquityResult::new(
        vec![(card("Ac"), card("Kc")), (card("2h"), card("3h"))],
        vec![card("Ad"), card("Kd"), card("7s"), card("8s"), card("9c")],
    )
    .unwrap();
    assert_eq!(result.get_equity(0).unwrap(), Fraction { numerator: 2, denominator: 2 });
    assert_eq!(result.get_equity(1).unwrap(), Fraction { numerator: 0, denominator: 2 });
    assert_eq!(result.never_lost(0), Ok(true));
    assert_eq!(result.never_lost(1), Ok(false));
}

#[test]
fn board_that_plays_splits_the_pot() {
    let result = EquityResult::new(
        vec![(card("2c"), card("3d")), (card("2h"), card("3s"))],
        vec![card("As"), card("Ks"), card("Qs"), card("Js"), card("Ts")],
    )
    .unwrap();
    // One run-out, won by both: each gets half.
    let share = result.get_equity(0).unwrap();
    assert_eq!(share, Fraction { numerator: 1, denominator: 2 });
    assert_eq!(result.get_equity(1).unwrap(), share);
    assert_eq!(result.never_lost(1), Ok(true));
}

#[test]
fn river_to_come_counts_every_remaining_card() {
    let result = EquityResult::new(
        vec![(card("Ac"), card("Ad")), (card("Kc"), card("Kd"))],
        vec![card("2s"), card("7h"), card("9c"), card("Js")],
    )
    .unwrap();
    let a = result.get_equity(0).unwrap();
    let k = result.get_equity(1).unwrap();
    // 44 cards remain; only the two other kings save the kings.
    assert_eq!(a.denominator, 44 * 2);
    assert_eq!(a.numerator, 42 * 2);
    assert_eq!(k.numerator, 2 * 2);
    assert_eq!(as_f64(a) + as_f64(k), 1.0);
}

#[test]
fn equity_queries_are_repeatable() {
    let result = EquityResult::new(
        vec![(card("Ac"), card("Kc")), (card("6h"), card("7h"))],
        vec![card("9d"), card("Td"), card("Jd")],
    )
    .unwrap();
    let first = result.get_equity(0).unwrap();
    let second = result.get_equity(0).unwrap();
    assert_eq!(first, second);
}

#[test]
fn too_many_community_cards() {
    let board = vec![card("2s"), card("3s"), card("4s"), card("5s"), card("6s"), card("7s")];
    let result = EquityResult::new(vec![(card("Ac"), card("Kc"))], board);
    assert!(matches!(result, Err(PokercraftLocalError::TooManyCommunityCards)));
}

#[test]
fn duplicate_cards_are_rejected() {
    let result = EquityResult::new(
        vec![(card("Ac"), card("Kc")), (card("Ac"), card("7h"))],
        vec![],
    );
    assert!(matches!(result, Err(PokercraftLocalError::DuplicateOrOverlappingCard)));
    let result = EquityResult::new(vec![(card("Ac"), card("Kc"))], vec![card("Kc")]);
    assert!(matches!(result, Err(PokercraftLocalError::DuplicateOrOverlappingCard)));
    let result = EquityResult::new(vec![(card("Ac"), card("Ac"))], vec![]);
    assert!(matches!(result, Err(PokercraftLocalError::DuplicateOrOverlappingCard)));
}

#[test]
fn player_index_and_empty_runouts() {
    let result = EquityResult::new(
        vec![(card("Ac"), card("Kc")), (card("6h"), card("7h"))],
        vec![card("9d"), card("Td"), card("Jd"), card("2c"), card("3c")],
    )
    .unwrap();
    assert_eq!(result.get_equity(2), Err(PokercraftLocalError::PlayerIndexOutOfRange));
    assert_eq!(result.never_lost(5), Err(PokercraftLocalError::PlayerIndexOutOfRange));

    // Twenty-four players leave four cards: no board can be completed.
    let deck = Card::all();
    let players: Vec<(Card, Card)> = (0..24).map(|i| (deck[2 * i], deck[2 * i + 1])).collect();
    let result = EquityResult::new(players, vec![]).unwrap();
    assert_eq!(result.get_equity(0), Err(PokercraftLocalError::NoGamesPlayed));
}

#[test]
fn equities_sum_to_one() {
    let result = EquityResult::new(
        vec![(card("Ac"), card("Kc")), (card("6h"), card("7h")), (card("Ts"), card("Th"))],
        vec![card("9d"), card("Td"), card("Jd")],
    )
    .unwrap();
    let shares: Vec<Fraction> = (0..3).map(|i| result.get_equity(i).unwrap()).collect();
    let denominator = shares[0].denominator;
    assert!(shares.iter().all(|f| f.denominator == denominator));
    // 43 cards remain, so C(43, 2) run-outs, each scaled by 3!.
    assert_eq!(denominator, 903 * 6);
    assert_eq!(shares.iter().map(|f| f.numerator).sum::<u128>(), denominator);
}
