//! Bankroll survival by Monte Carlo random walks over observed per-game results.
//!
//! Amounts are integers in the caller's smallest unit of money (cents, say); the
//! capital of a walk is held exactly.
use crate::errors::{BankrollParameter, PokercraftLocalError};
use crate::fraction::Fraction;
use rand::Rng;
use rayon::iter::{IntoParallelIterator, ParallelIterator};
use vstd::prelude::*;

verus! {

/// The profit-exit multiplier `numerator / denominator`. A walk whose capital reaches the
/// initial capital times the multiplier stops early; a multiplier below one never stops it.
#[derive(PartialEq, Eq, Structural, Clone, Copy, Debug)]
pub struct Multiplier {
    pub numerator: u32,
    pub denominator: u32,
}

/// Capital after the first `j` draws of a walk.
pub open spec fn capital_after(initial: int, deltas: Seq<i64>, draws: Seq<int>, j: int) -> int
    decreases j,
{
    if j <= 0 {
        initial
    } else {
        capital_after(initial, deltas, draws, j - 1) + deltas[draws[j - 1]]
    }
}

/// Whether a capital has reached the profit exit; a multiplier below one, or with a zero
/// denominator, sets no exit.
pub open spec fn exit_reached(initial: int, exit: Multiplier, capital: int) -> bool {
    &&& exit.denominator > 0
    &&& exit.numerator >= exit.denominator
    &&& capital * exit.denominator >= initial * exit.numerator
}

/// Whether a walk has nothing to do: a capital that is not positive, no results to draw,
/// no draw allowed, or results that sum below zero.
pub open spec fn walk_is_void(initial: int, deltas: Seq<i64>, max_iteration: nat) -> bool {
    initial <= 0 || deltas.len() == 0 || max_iteration < 1 || total_return(deltas) < 0
}

/// Whether `draws` are the indices that one walk drew: each names one of the deltas; the walk
/// goes on while its capital stays positive and short of the exit, and it stops at ruin, at the
/// exit, or after `max_iteration` draws.
pub open spec fn is_walk(
    initial: int,
    deltas: Seq<i64>,
    max_iteration: nat,
    exit: Multiplier,
    draws: Seq<int>,
) -> bool {
    let last = capital_after(initial, deltas, draws, draws.len() as int);
    &&& draws.len() <= max_iteration
    &&& forall|q: int| 0 <= q < draws.len() ==> 0 <= #[trigger] draws[q] < deltas.len()
    &&& forall|j: int|
        1 <= j < draws.len() ==> #[trigger] capital_after(initial, deltas, draws, j) > 0
            && !exit_reached(initial, exit, capital_after(initial, deltas, draws, j))
    &&& draws.len() == max_iteration || (draws.len() > 0 && (last <= 0 || exit_reached(
        initial,
        exit,
        last,
    )))
}

/// What a walk records: its final capital relative to the initial one (zero after ruin), and
/// the draw at which it was ruined (zero when it was not).
pub open spec fn walk_result(initial: int, deltas: Seq<i64>, draws: Seq<int>) -> (Fraction, u32) {
    let last = capital_after(initial, deltas, draws, draws.len() as int);
    if draws.len() > 0 && last <= 0 {
        (Fraction { numerator: 0, denominator: initial as u128 }, draws.len() as u32)
    } else {
        (Fraction { numerator: last as u128, denominator: initial as u128 }, 0)
    }
}

/// Whether `r` is what some walk with these parameters records.
pub open spec fn is_walk_result(
    initial: int,
    deltas: Seq<i64>,
    max_iteration: nat,
    exit: Multiplier,
    r: (Fraction, u32),
) -> bool {
    exists|draws: Seq<int>|
        is_walk(initial, deltas, max_iteration, exit, draws) && r == walk_result(
            initial,
            deltas,
            draws,
        )
}

/// Sum of the deltas.
pub open spec fn total_return(s: Seq<i64>) -> int
    decreases s.len(),
{
    if s.len() == 0 {
        0
    } else {
        total_return(s.drop_last()) + s.last()
    }
}

/// The first parameter of a simulation that is out of its domain, if any.
pub open spec fn rejected_parameter(
    initial_capital: int,
    deltas: Seq<i64>,
    max_iteration: nat,
    exit: Multiplier,
    simulation_count: nat,
) -> Option<BankrollParameter> {
    if initial_capital <= 0 {
        Some(BankrollParameter::InitialCapital)
    } else if deltas.len() == 0 {
        Some(BankrollParameter::EmptyReturns)
    } else if max_iteration < 1 {
        Some(BankrollParameter::MaxIteration)
    } else if total_return(deltas) < 0 {
        Some(BankrollParameter::NegativeReturnSum)
    } else if simulation_count < 1 {
        Some(BankrollParameter::SimulationCount)
    } else if exit.denominator == 0 {
        Some(BankrollParameter::ExitMultiplier)
    } else {
        None
    }
}

/// Relies on rand's `thread_rng().gen_range(0..len)`: an index below `len`, from the
/// generator of the calling thread.
#[verifier::external_body]
fn random_index(len: usize) -> (r: usize)
    requires
        len > 0,
    ensures
        r < len,
{
    rand::thread_rng().gen_range(0..len)
}

/// One walk: start from the initial capital and add deltas drawn uniformly at random, with
/// replacement, until ruin, the profit exit, or `max_iteration` draws. When the walk has
/// nothing to do it makes no draw and records `(0, 0)`.
pub fn simple_monte_carlo_loop(
    initial_capital: i64,
    relative_return_results: &Vec<i64>,
    max_iteration: u32,
    profit_exit_multiplier: Multiplier,
) -> (r: (Fraction, u32))
    ensures
        walk_is_void(initial_capital as int, relative_return_results@, max_iteration as nat)
            ==> r == (Fraction { numerator: 0, denominator: 1 }, 0u32),
        !walk_is_void(initial_capital as int, relative_return_results@, max_iteration as nat)
            ==> is_walk_result(
            initial_capital as int,
            relative_return_results@,
            max_iteration as nat,
            profit_exit_multiplier,
            r,
        ),
{
    if initial_capital <= 0 || relative_return_results.len() == 0 || max_iteration < 1
        || sum_returns(relative_return_results) < 0 {
        return (Fraction { numerator: 0, denominator: 1 }, 0);
    }
    let ghost initial = initial_capital as int;
    let ghost deltas = relative_return_results@;
    let exit = profit_exit_multiplier;
    let exit_enabled = exit.denominator > 0 && exit.numerator >= exit.denominator;
    let divisor: i128 = if exit.denominator == 0 {
        1
    } else {
        exit.denominator as i128
    };
    assert(0 <= initial_capital * exit.numerator <= 0x7fff_ffff_ffff_ffff * 0xffff_ffff)
        by (nonlinear_arith)
        requires
            0 < initial_capital <= 0x7fff_ffff_ffff_ffff,
            0 <= exit.numerator <= 0xffff_ffff,
    ;
    // The least capital that reaches the exit: the target rounded up to a whole unit.
    let target = initial_capital as i128 * exit.numerator as i128;
    let exit_capital = (target + divisor - 1) / divisor;
    let mut capital: i128 = initial_capital as i128;
    let ghost mut draws: Seq<int> = Seq::empty();
    let mut i: u32 = 0;
    while i < max_iteration
        invariant
            initial == initial_capital > 0,
            deltas == relative_return_results@,
            deltas.len() > 0,
            !walk_is_void(initial, deltas, max_iteration as nat),
            exit == profit_exit_multiplier,
            exit_enabled == (exit.denominator > 0 && exit.numerator >= exit.denominator),
            divisor >= 1,
            exit.denominator > 0 ==> divisor == exit.denominator,
            target == initial * exit.numerator,
            exit_capital == (target + divisor - 1) / (divisor as int),
            i <= max_iteration,
            draws.len() == i,
            forall|q: int| 0 <= q < draws.len() ==> 0 <= #[trigger] draws[q] < deltas.len(),
            forall|j: int|
                1 <= j <= draws.len() ==> #[trigger] capital_after(initial, deltas, draws, j) > 0
                    && !exit_reached(initial, exit, capital_after(initial, deltas, draws, j)),
            capital == capital_after(initial, deltas, draws, i as int),
            0 < capital <= initial + i * 0x8000_0000_0000_0000,
        decreases max_iteration - i,
    {
        let idx = random_index(relative_return_results.len());
        let ghost before = draws;
        proof {
            draws = draws.push(idx as int);
            assert forall|j: int| 0 <= j <= before.len() implies capital_after(initial, deltas, draws, j)
                == capital_after(initial, deltas, before, j) by {
                lemma_capital_prefix(initial, deltas, before, draws, j);
            }
        }
        capital = capital + relative_return_results[idx] as i128;
        assert(capital == capital_after(initial, deltas, draws, i + 1));
        if capital <= 0 {
            // Bankrupted
            let r = (Fraction { numerator: 0, denominator: initial_capital as u128 }, i + 1);
            assert(is_walk(initial, deltas, max_iteration as nat, exit, draws));
            assert(r == walk_result(initial, deltas, draws));
            return r;
        }
        proof {
            lemma_exit_threshold(target as int, divisor as int, capital as int);
        }
        if exit_enabled && capital >= exit_capital {
            // Exit if profit is reached
            let r = (Fraction { numerator: capital as u128, denominator: initial_capital as u128 }, 0);
            assert(is_walk(initial, deltas, max_iteration as nat, exit, draws));
            assert(r == walk_result(initial, deltas, draws));
            return r;
        }
        i += 1;
    }
    let r = (Fraction { numerator: capital as u128, denominator: initial_capital as u128 }, 0);
    assert(is_walk(initial, deltas, max_iteration as nat, exit, draws));
    assert(r == walk_result(initial, deltas, draws));
    r
}

/// A capital reaches `target / den` exactly when it reaches the target rounded up.
proof fn lemma_exit_threshold(target: int, den: int, c: int)
    requires
        target >= 0,
        den > 0,
    ensures
        c * den >= target <==> c >= (target + den - 1) / den,
{
    let t = (target + den - 1) / den;
    let r = (target + den - 1) % den;
    assert(target + den - 1 == t * den + r && 0 <= r < den) by (nonlinear_arith)
        requires
            den > 0,
            t == (target + den - 1) / den,
            r == (target + den - 1) % den,
    ;
    assert((t - 1) * den == t * den - den) by (nonlinear_arith);
    assert(t * den >= target && (t - 1) * den < target);
    if c >= t {
        assert(c * den >= t * den) by (nonlinear_arith)
            requires
                c >= t,
                den > 0,
        ;
    } else {
        assert(c * den <= (t - 1) * den) by (nonlinear_arith)
            requires
                c <= t - 1,
                den > 0,
        ;
    }
}

/// The capital after `j` draws depends on the first `j` draws alone.
proof fn lemma_capital_prefix(initial: int, deltas: Seq<i64>, a: Seq<int>, b: Seq<int>, j: int)
    requires
        0 <= j <= a.len() <= b.len(),
        forall|q: int| 0 <= q < a.len() ==> a[q] == b[q],
    ensures
        capital_after(initial, deltas, a, j) == capital_after(initial, deltas, b, j),
    decreases j,
{
    if j > 0 {
        lemma_capital_prefix(initial, deltas, a, b, j - 1);
    }
}

/// Relies on rayon's `into_par_iter().map(..).collect()` over `0..count`: `count` results,
/// each one walk run by `simple_monte_carlo_loop` on a worker thread of its own generator.
#[verifier::external_body]
fn walks_in_parallel(
    count: u32,
    initial_capital: i64,
    deltas: &Vec<i64>,
    max_iteration: u32,
    exit: Multiplier,
) -> (r: Vec<(Fraction, u32)>)
    requires
        !walk_is_void(initial_capital as int, deltas@, max_iteration as nat),
    ensures
        r@.len() == count,
        forall|k: int|
            0 <= k < r@.len() ==> is_walk_result(
                initial_capital as int,
                deltas@,
                max_iteration as nat,
                exit,
                #[trigger] r@[k],
            ),
{
    (0..count).into_par_iter().map(
        |_| simple_monte_carlo_loop(initial_capital, deltas, max_iteration, exit),
    ).collect()
}

/// Holds `(relative_return, iteration)` pairs, one per simulated walk: the final capital over
/// the initial capital (zero after ruin), and the draw at which the walk was ruined (zero if
/// it was not).
#[derive(Debug)]
pub struct BankruptcyMetric {
    simulated_results: Vec<(Fraction, u32)>,
}

/// Whether a walk ended in ruin.
pub open spec fn is_ruined(r: (Fraction, u32)) -> bool {
    r.0.numerator == 0
}

/// Whether a walk ended with more than it started with.
pub open spec fn is_profitable(r: (Fraction, u32)) -> bool {
    r.0.numerator > r.0.denominator
}

/// Number of ruined walks.
pub open spec fn count_ruined(s: Seq<(Fraction, u32)>) -> nat
    decreases s.len(),
{
    if s.len() == 0 {
        0
    } else {
        count_ruined(s.drop_last()) + if is_ruined(s.last()) {
            1nat
        } else {
            0nat
        }
    }
}

/// Number of profitable walks.
pub open spec fn count_profitable(s: Seq<(Fraction, u32)>) -> nat
    decreases s.len(),
{
    if s.len() == 0 {
        0
    } else {
        count_profitable(s.drop_last()) + if is_profitable(s.last()) {
            1nat
        } else {
            0nat
        }
    }
}

/// `count / total`, or zero when nothing was simulated.
pub open spec fn rate(count: int, total: int) -> Fraction {
    if total == 0 {
        Fraction { numerator: 0, denominator: 1 }
    } else {
        Fraction { numerator: count as u128, denominator: total as u128 }
    }
}

proof fn lemma_counts_bound(s: Seq<(Fraction, u32)>)
    ensures
        count_ruined(s) <= s.len(),
        count_profitable(s) <= s.len(),
    decreases s.len(),
{
    if s.len() > 0 {
        lemma_counts_bound(s.drop_last());
    }
}

impl BankruptcyMetric {
    pub closed spec fn view(&self) -> Seq<(Fraction, u32)> {
        self.simulated_results@
    }

    /// Create a metric holding the given results.
    pub fn new(v: Vec<(Fraction, u32)>) -> (r: Self)
        ensures
            r.view() == v@,
    {
        BankruptcyMetric { simulated_results: v }
    }

    /// Record the result of one more walk.
    pub fn push(&mut self, simulation_result: (Fraction, u32))
        ensures
            final(self).view() == old(self).view().push(simulation_result),
    {
        self.simulated_results.push(simulation_result);
    }

    /// Get the number of walks recorded.
    pub fn len(&self) -> (r: usize)
        ensures
            r == self.view().len(),
    {
        self.simulated_results.len()
    }

    /// Count the walks that satisfy `profitable` (more than the start) or, when it is false,
    /// that were ruined.
    fn count(&self, profitable: bool) -> (r: u128)
        ensures
            r == if profitable {
                count_profitable(self.view())
            } else {
                count_ruined(self.view())
            },
    {
        let ghost s = self.view();
        let mut n: u128 = 0;
        let mut i: usize = 0;
        while i < self.simulated_results.len()
            invariant
                s == self.view(),
                s == self.simulated_results@,
                i <= s.len(),
                n == if profitable {
                    count_profitable(s.take(i as int))
                } else {
                    count_ruined(s.take(i as int))
                },
            decreases s.len() - i,
        {
            proof {
                assert(s.take(i + 1).drop_last() =~= s.take(i as int));
                lemma_counts_bound(s.take(i as int));
            }
            let (ratio, _) = self.simulated_results[i];
            if profitable {
                if ratio.numerator > ratio.denominator {
                    n += 1;
                }
            } else if ratio.numerator == 0 {
                n += 1;
            }
            i += 1;
        }
        assert(s.take(s.len() as int) =~= s);
        n
    }

    /// Get the bankruptcy rate: the share of walks that were ruined. This is not cached.
    pub fn get_bankruptcy_rate(&self) -> (r: Fraction)
        ensures
            r == rate(count_ruined(self.view()) as int, self.view().len() as int),
    {
        let ruined = self.count(false);
        let total = self.simulated_results.len();
        if total == 0 {
            return Fraction { numerator: 0, denominator: 1 };
        }
        Fraction { numerator: ruined, denominator: total as u128 }
    }

    /// Get the survival rate: the share of walks that were not ruined. This is not cached.
    pub fn get_survival_rate(&self) -> (r: Fraction)
        ensures
            r == rate(
                self.view().len() - count_ruined(self.view()),
                self.view().len() as int,
            ),
    {
        let ruined = self.count(false);
        let total = self.simulated_results.len();
        if total == 0 {
            return Fraction { numerator: 0, denominator: 1 };
        }
        proof {
            lemma_counts_bound(self.view());
        }
        Fraction { numerator: total as u128 - ruined, denominator: total as u128 }
    }

    /// Get the profitable rate: the share of walks that ended above their start. This is not
    /// cached.
    pub fn get_profitable_rate(&self) -> (r: Fraction)
        ensures
            r == rate(count_profitable(self.view()) as int, self.view().len() as int),
    {
        let profitable = self.count(true);
        let total = self.simulated_results.len();
        if total == 0 {
            return Fraction { numerator: 0, denominator: 1 };
        }
        Fraction { numerator: profitable, denominator: total as u128 }
    }
}

impl Default for BankruptcyMetric {
    fn default() -> (r: Self)
        ensures
            r.view().len() == 0,
    {
        BankruptcyMetric::new(Vec::new())
    }
}

/// Simulate `simulation_count` independent walks, after checking every parameter.
pub fn simulate_core(
    initial_capital: i64,
    relative_return_results: Vec<i64>,
    max_iteration: u32,
    profit_exit_multiplier: Multiplier,
    simulation_count: u32,
) -> (r: Result<BankruptcyMetric, PokercraftLocalError>)
    ensures
        match rejected_parameter(
            initial_capital as int,
            relative_return_results@,
            max_iteration as nat,
            profit_exit_multiplier,
            simulation_count as nat,
        ) {
            Some(p) => r == Err::<BankruptcyMetric, PokercraftLocalError>(
                PokercraftLocalError::InvalidParameter(p),
            ),
            None => r matches Ok(m) && m.view().len() == simulation_count && forall|k: int|
                0 <= k < m.view().len() ==> is_walk_result(
                    initial_capital as int,
                    relative_return_results@,
                    max_iteration as nat,
                    profit_exit_multiplier,
                    #[trigger] m.view()[k],
                ),
        },
{
    if initial_capital <= 0 {
        return Err(PokercraftLocalError::InvalidParameter(BankrollParameter::InitialCapital));
    } else if relative_return_results.len() == 0 {
        return Err(PokercraftLocalError::InvalidParameter(BankrollParameter::EmptyReturns));
    } else if max_iteration < 1 {
        return Err(PokercraftLocalError::InvalidParameter(BankrollParameter::MaxIteration));
    } else if sum_returns(&relative_return_results) < 0 {
        return Err(PokercraftLocalError::InvalidParameter(BankrollParameter::NegativeReturnSum));
    } else if simulation_count < 1 {
        return Err(PokercraftLocalError::InvalidParameter(BankrollParameter::SimulationCount));
    } else if profit_exit_multiplier.denominator == 0 {
        return Err(PokercraftLocalError::InvalidParameter(BankrollParameter::ExitMultiplier));
    }
    let results = walks_in_parallel(
        simulation_count,
        initial_capital,
        &relative_return_results,
        max_iteration,
        profit_exit_multiplier,
    );
    Ok(BankruptcyMetric::new(results))
}

/// Sum of the deltas, held exactly.
fn sum_returns(deltas: &Vec<i64>) -> (r: i128)
    ensures
        r == total_return(deltas@),
{
    let mut sum: i128 = 0;
    let mut i: usize = 0;
    while i < deltas.len()
        invariant
            i <= deltas@.len(),
            sum == total_return(deltas@.take(i as int)),
            -0x8000_0000_0000_0000 * i <= sum <= 0x7fff_ffff_ffff_ffff * i,
        decreases deltas@.len() - i,
    {
        proof {
            assert(deltas@.take(i + 1).drop_last() =~= deltas@.take(i as int));
            assert(i < 0x1_0000_0000_0000_0000);
        }
        sum = sum + deltas[i] as i128;
        i += 1;
    }
    assert(deltas@.take(i as int) =~= deltas@);
    sum
}

} // verus!
