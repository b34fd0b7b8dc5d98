use pokercraft_core::{
    simple_monte_carlo_loop, simulate_core, BankrollParameter, BankruptcyMetric, Fraction,
    Multiplier, PokercraftLocalError,
};

fn double() -> Multiplier {
    Multiplier { numerator: 2, denominator: 1 }
}

fn rejected(result: Result<BankruptcyMetric, PokercraftLocalError>) -> Option<BankrollParameter> {
    match result {
        Err(PokercraftLocalError::InvalidParameter(p)) => Some(p),
        _ => None,
    }
}

#[test]
fn invalid_parameters_are_rejected() {
    assert_eq!(
        rejected(simulate_core(0, vec![1, -1], 10, double(), 5)),
        Some(BankrollParameter::InitialCapital)
    );
    assert_eq!(
        rejected(simulate_core(-5, vec![1, -1], 10, double(), 5)),
        Some(BankrollParameter::InitialCapital)
    );
    assert_eq!(
        rejected(simulate_core(100, vec![], 10, double(), 5)),
        Some(BankrollParameter::EmptyReturns)
    );
    assert_eq!(
        rejected(simulate_core(100, vec![1, -1], 0, double(), 5)),
        Some(BankrollParameter::MaxIteration)
    );
    assert_eq!(
        rejected(simulate_core(100, vec![5, -6], 10, double(), 5)),
        Some(BankrollParameter::NegativeReturnSum)
    );
    assert_eq!(
        rejected(simulate_core(100, vec![1, -1], 10, double(), 0)),
        Some(BankrollParameter::SimulationCount)
    );
    assert_eq!(
        rejected(simulate_core(
            100,
            vec![1, -1],
            10,
            Multiplier { numerator: 2, denominator: 0 },
            5
        )),
        Some(BankrollParameter::ExitMultiplier)
    );
}

#[test]
fn steady_gains_reach_the_profit_exit() {
    let metric = simulate_core(100, vec![10], 1000, double(), 8).unwrap();
    assert_eq!(metric.len(), 8);
    assert_eq!(metric.get_bankruptcy_rate(), Fraction { numerator: 0, denominator: 8 });
    assert_eq!(metric.get_survival_rate(), Fraction { numerator: 8, denominator: 8 });
    assert_eq!(metric.get_profitable_rate(), Fraction { numerator: 8, denominator: 8 });
}

#[test]
fn flat_results_neither_gain_nor_lose() {
    let metric = simulate_core(100, vec![0, 0, 0], 50, double(), 4).unwrap();
    assert_eq!(metric.len(), 4);
    assert_eq!(metric.get_bankruptcy_rate(), Fraction { numerator: 0, denominator: 4 });
    assert_eq!(metric.get_profitable_rate(), Fraction { numerator: 0, denominator: 4 });
}

#[test]
fn mixed_results_stay_in_bounds() {
    let metric = simulate_core(50, vec![30, -30, 1], 200, double(), 64).unwrap();
    assert_eq!(metric.len(), 64);
    let ruined = metric.get_bankruptcy_rate();
    let survived = metric.get_survival_rate();
    assert_eq!(ruined.denominator, 64);
    assert_eq!(ruined.numerator + survived.numerator, 64);
    assert!(metric.get_profitable_rate().numerator <= survived.numerator);
}

#[test]
fn multiplier_below_one_never_exits_early() {
    let metric = simulate_core(100, vec![1], 30, Multiplier { numerator: 1, denominator: 2 }, 3)
        .unwrap();
    assert_eq!(metric.get_profitable_rate(), Fraction { numerator: 3, denominator: 3 });
}

#[test]
fn rates_of_given_results() {
    let mut metric = BankruptcyMetric::new(vec![
        (Fraction { numerator: 0, denominator: 100 }, 7),
        (Fraction { numerator: 150, denominator: 100 }, 0),
        (Fraction { numerator: 80, denominator: 100 }, 0),
    ]);
    metric.push((Fraction { numerator: 100, denominator: 100 }, 0));
    assert_eq!(metric.len(), 4);
    assert_eq!(metric.get_bankruptcy_rate(), Fraction { numerator: 1, denominator: 4 });
    assert_eq!(metric.get_survival_rate(), Fraction { numerator: 3, denominator: 4 });
    assert_eq!(metric.get_profitable_rate(), Fraction { numerator: 1, denominator: 4 });
}

#[test]
fn empty_metric_has_zero_rates() {
    let metric = BankruptcyMetric::new(vec![]);
    assert_eq!(metric.len(), 0);
    assert_eq!(metric.get_bankruptcy_rate(), Fraction { numerator: 0, denominator: 1 });
    assert_eq!(metric.get_survival_rate(), Fraction { numerator: 0, denominator: 1 });
    assert_eq!(metric.get_profitable_rate(), Fraction { numerator: 0, denominator: 1 });
}

#[test]
fn walk_with_nothing_to_do_records_zero() {
    let none = (Fraction { numerator: 0, denominator: 1 }, 0);
    assert_eq!(simple_monte_carlo_loop(0, &vec![1, 2], 10, double()), none);
    assert_eq!(simple_monte_carlo_loop(-3, &vec![1, 2], 10, double()), none);
    assert_eq!(simple_monte_carlo_loop(100, &vec![], 10, double()), none);
    assert_eq!(simple_monte_carlo_loop(100, &vec![1, 2], 0, double()), none);
    assert_eq!(simple_monte_carlo_loop(100, &vec![5, -6], 10, double()), none);
}

#[test]
fn single_walk_reaches_exit() {
    assert_eq!(
        simple_monte_carlo_loop(100, &vec![25], 10, double()),
        (Fraction { numerator: 200, denominator: 100 }, 0)
    );
    // A zero denominator sets no exit: the walk uses every draw.
    assert_eq!(
        simple_monte_carlo_loop(100, &vec![25], 10, Multiplier { numerator: 2, denominator: 0 }),
        (Fraction { numerator: 350, denominator: 100 }, 0)
    );
}
