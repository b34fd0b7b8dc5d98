//! Equity by exhaustive enumeration of the community cards still to come.
use crate::card::{deck_card, deck_index, lemma_deck_card_index, Card};
use crate::errors::PokercraftLocalError;
use crate::fraction::Fraction;
use crate::hand::{best_strength, lemma_best_strength, HandRank};
use itertools::Itertools;
use rayon::iter::{IntoParallelRefIterator, ParallelIterator};
use vstd::arithmetic::div_mod::lemma_div_multiples_vanish;
use vstd::prelude::*;

verus! {

/// A player's seven cards: the five board cards, then the two hole cards.
pub open spec fn seven_cards(board: Seq<Card>, hole: (Card, Card)) -> Seq<Card> {
    board.push(hole.0).push(hole.1)
}

/// Strength of the best hand of player `i` on a complete board.
pub open spec fn player_strength(board: Seq<Card>, players: Seq<(Card, Card)>, i: int) -> int {
    best_strength(seven_cards(board, players[i]))
}

/// Whether player `i` holds a best hand on a complete board (ties included); strengths order
/// hands as `HandRank` does (see `lemma_strength_order`).
pub open spec fn is_winner(board: Seq<Card>, players: Seq<(Card, Card)>, i: int) -> bool {
    forall|j: int|
        0 <= j < players.len() ==> #[trigger] player_strength(board, players, j) <= player_strength(
            board,
            players,
            i,
        )
}

/// Number of winners among the first `n` players.
pub open spec fn winners_among(board: Seq<Card>, players: Seq<(Card, Card)>, n: int) -> int
    decreases n,
{
    if n <= 0 {
        0
    } else {
        winners_among(board, players, n - 1) + if is_winner(board, players, n - 1) {
            1int
        } else {
            0int
        }
    }
}

/// What a complete board gives player `i`: the number of other winners it ties with, or -1
/// when it loses.
pub open spec fn outcome(board: Seq<Card>, players: Seq<(Card, Card)>, i: int) -> int {
    if is_winner(board, players, i) {
        winners_among(board, players, players.len() as int) - 1
    } else {
        -1
    }
}

/// A winner among the first `n` players makes their count positive.
proof fn lemma_winner_counted(board: Seq<Card>, players: Seq<(Card, Card)>, n: int, i: int)
    requires
        0 <= i < n,
        is_winner(board, players, i),
    ensures
        winners_among(board, players, n) >= 1,
    decreases n,
{
    if i < n - 1 {
        lemma_winner_counted(board, players, n - 1, i);
        lemma_winners_nonnegative(board, players, n - 1);
    } else {
        lemma_winners_nonnegative(board, players, n - 1);
    }
}

proof fn lemma_winners_nonnegative(board: Seq<Card>, players: Seq<(Card, Card)>, n: int)
    ensures
        0 <= winners_among(board, players, n),
    decreases n,
{
    if n > 0 {
        lemma_winners_nonnegative(board, players, n - 1);
    }
}

/// A player whose best hand is at least as strong as those of the first `m` players.
proof fn lemma_strongest_player(board: Seq<Card>, players: Seq<(Card, Card)>, m: int) -> (k: int)
    requires
        1 <= m <= players.len(),
    ensures
        0 <= k < m,
        forall|j: int|
            0 <= j < m ==> #[trigger] player_strength(board, players, j) <= player_strength(
                board,
                players,
                k,
            ),
    decreases m,
{
    if m == 1 {
        0
    } else {
        let k = lemma_strongest_player(board, players, m - 1);
        if player_strength(board, players, m - 1) > player_strength(board, players, k) {
            m - 1
        } else {
            k
        }
    }
}

/// Every complete board has a winning set: with at least one player, some player wins.
pub proof fn lemma_some_player_wins(board: Seq<Card>, players: Seq<(Card, Card)>)
    requires
        players.len() >= 1,
    ensures
        exists|i: int| 0 <= i < players.len() && #[trigger] is_winner(board, players, i),
        winners_among(board, players, players.len() as int) >= 1,
{
    let k = lemma_strongest_player(board, players, players.len() as int);
    assert(is_winner(board, players, k));
    lemma_winner_counted(board, players, players.len() as int, k);
}

/// Strengths of each player's best hand on one complete board.
fn player_strengths(players: &Vec<(Card, Card)>, board: &[Card; 5]) -> (r: Vec<u64>)
    ensures
        r@.len() == players@.len(),
        forall|i: int| 0 <= i < players@.len() ==> r@[i] == player_strength(board@, players@, i),
{
    let mut card7 = [board[0], board[1], board[2], board[3], board[4], board[0], board[0]];
    let mut strengths: Vec<u64> = Vec::new();
    let mut i: usize = 0;
    while i < players.len()
        invariant
            i <= players@.len(),
            strengths@.len() == i,
            forall|k: int| 0 <= k < 5 ==> card7@[k] == board@[k],
            forall|k: int| 0 <= k < i ==> strengths@[k] == player_strength(board@, players@, k),
        decreases players@.len() - i,
    {
        let (c1, c2) = players[i];
        card7[5] = c1;
        card7[6] = c2;
        let (_, best) = HandRank::find_best5(card7);
        proof {
            assert(card7@ =~= seven_cards(board@, players@[i as int]));
            lemma_best_strength(card7@, best.strength());
        }
        strengths.push(best.strength_value());
        i += 1;
    }
    strengths
}

/// The outcome of one complete board for every player.
fn runout_outcome(players: &Vec<(Card, Card)>, board: &Vec<Card>, extra: &Vec<Card>) -> (r: Vec<
    i64,
>)
    requires
        board@.len() + extra@.len() == 5,
        players@.len() <= 26,
    ensures
        r@.len() == players@.len(),
        forall|i: int|
            0 <= i < players@.len() ==> r@[i] == outcome(board@ + extra@, players@, i),
{
    let ghost full = board@ + extra@;
    let mut five = [Card::default();5];
    let mut k: usize = 0;
    while k < 5
        invariant
            k <= 5,
            board@.len() + extra@.len() == 5,
            full == board@ + extra@,
            forall|m: int| 0 <= m < k ==> five@[m] == full[m],
        decreases 5 - k,
    {
        five[k] = if k < board.len() {
            board[k]
        } else {
            extra[k - board.len()]
        };
        k += 1;
    }
    assert(five@ =~= full);
    let strengths = player_strengths(players, &five);
    let n = players.len();
    let mut best: u64 = 0;
    let mut i: usize = 0;
    while i < n
        invariant
            i <= n == strengths@.len(),
            forall|j: int| 0 <= j < i ==> strengths@[j] <= best,
            i > 0 ==> exists|j: int| 0 <= j < i && strengths@[j] == best,
        decreases n - i,
    {
        if strengths[i] > best || i == 0 {
            best = strengths[i];
        }
        i += 1;
    }
    assert forall|j: int| 0 <= j < n implies is_winner(full, players@, j) == (strengths@[j] == best) by {
        if strengths@[j] == best {
            assert forall|m: int| 0 <= m < players@.len() implies #[trigger] player_strength(
                full,
                players@,
                m,
            ) <= player_strength(full, players@, j) by {
                assert(strengths@[m] <= best);
            }
        } else {
            let w = choose|w: int| 0 <= w < n && strengths@[w] == best;
            assert(player_strength(full, players@, w) <= player_strength(full, players@, j) ==> false);
        }
    }
    let mut winners: u64 = 0;
    let mut j: usize = 0;
    while j < n
        invariant
            j <= n == strengths@.len() == players@.len(),
            winners == winners_among(full, players@, j as int),
            winners <= j,
            forall|m: int| 0 <= m < n ==> is_winner(full, players@, m) == (strengths@[m] == best),
        decreases n - j,
    {
        if strengths[j] == best {
            winners += 1;
        }
        j += 1;
    }
    let mut result: Vec<i64> = Vec::new();
    let mut i: usize = 0;
    while i < n
        invariant
            i <= n == strengths@.len() == players@.len(),
            result@.len() == i,
            n <= 26,
            winners == winners_among(full, players@, n as int),
            winners <= n,
            forall|m: int| 0 <= m < n ==> is_winner(full, players@, m) == (strengths@[m] == best),
            forall|m: int| 0 <= m < i ==> result@[m] == outcome(full, players@, m),
        decreases n - i,
    {
        if strengths[i] == best {
            proof {
                lemma_winner_counted(full, players@, n as int, i as int);
            }
            result.push(winners as i64 - 1);
        } else {
            result.push(-1);
        }
        i += 1;
    }
    result
}


/// Every selection of `k` cards of `s`, each in the order of `s`, listed in lexicographic order
/// of positions: first those that hold `s[0]`, then those that do not.
pub open spec fn combos(s: Seq<Card>, k: nat) -> Seq<Seq<Card>>
    decreases s.len(),
{
    if k == 0 {
        seq![Seq::<Card>::empty()]
    } else if s.len() == 0 {
        Seq::empty()
    } else {
        combos(s.drop_first(), (k - 1) as nat).map_values(|c: Seq<Card>| seq![s[0]] + c) + combos(
            s.drop_first(),
            k,
        )
    }
}

/// `b` to the power `e`.
pub open spec fn power(b: int, e: nat) -> int
    decreases e,
{
    if e == 0 {
        1
    } else {
        b * power(b, (e - 1) as nat)
    }
}

/// The largest number of run-outs that a deal can leave: 52 to the fifth.
pub const MAX_RUNOUTS: u64 = 380204032;

proof fn lemma_power_monotone(a: int, b: int, e: nat)
    requires
        0 <= a <= b,
    ensures
        0 <= power(a, e) <= power(b, e),
    decreases e,
{
    if e > 0 {
        lemma_power_monotone(a, b, (e - 1) as nat);
        let x = power(a, (e - 1) as nat);
        let y = power(b, (e - 1) as nat);
        assert(a * x <= b * y) by (nonlinear_arith)
            requires
                0 <= a <= b,
                0 <= x <= y,
        ;
    }
}

/// Every selection has `k` cards, and there are at most `s.len()` to the `k` of them.
proof fn lemma_combos_shape(s: Seq<Card>, k: nat)
    ensures
        combos(s, k).len() <= power(s.len() as int, k),
        forall|i: int| 0 <= i < combos(s, k).len() ==> #[trigger] combos(s, k)[i].len() == k,
    decreases s.len(),
{
    if k == 0 {
    } else if s.len() == 0 {
        lemma_power_monotone(0, 0, k);
    } else {
        let t = s.drop_first();
        lemma_combos_shape(t, (k - 1) as nat);
        lemma_combos_shape(t, k);
        let m = t.len() as int;
        let head = combos(t, (k - 1) as nat).map_values(|c: Seq<Card>| seq![s[0]] + c);
        assert forall|i: int| 0 <= i < combos(s, k).len() implies #[trigger] combos(s, k)[i].len()
            == k by {
            if i < head.len() {
                assert(combos(s, k)[i] == head[i]);
            } else {
                assert(combos(s, k)[i] == combos(t, k)[i - head.len()]);
            }
        }
        lemma_power_monotone(m, m + 1, (k - 1) as nat);
        let x = power(m, (k - 1) as nat);
        let y = power(m + 1, (k - 1) as nat);
        assert(x + m * x <= (m + 1) * y) by (nonlinear_arith)
            requires
                0 <= x <= y,
                0 <= m,
        ;
    }
}

/// Selections of at most five of at most 52 cards number at most `MAX_RUNOUTS`.
proof fn lemma_runouts_bound(s: Seq<Card>, k: nat)
    requires
        s.len() <= 52,
        k <= 5,
    ensures
        combos(s, k).len() <= MAX_RUNOUTS,
        forall|i: int| 0 <= i < combos(s, k).len() ==> #[trigger] combos(s, k)[i].len() == k,
{
    lemma_combos_shape(s, k);
    lemma_power_monotone(s.len() as int, 52, k);
    reveal_with_fuel(power, 6);
    assert(power(52, k) <= 380204032);
}

/// Relies on itertools' `Itertools::combinations`: every selection of `k` cards of the pool,
/// each in pool order, as positions in increasing lexicographic order.
#[verifier::external_body]
fn combinations_of(pool: &Vec<Card>, k: usize) -> (r: Vec<Vec<Card>>)
    ensures
        r@.len() == combos(pool@, k as nat).len(),
        forall|i: int| 0 <= i < r@.len() ==> #[trigger] r@[i]@ == combos(pool@, k as nat)[i],
{
    pool.iter().copied().combinations(k).collect()
}

/// Relies on rayon's `par_iter().map(..).collect()` over a slice: item `k` of the result is
/// `runout_outcome` of item `k` of the input.
#[verifier::external_body]
fn outcomes_in_parallel(
    players: &Vec<(Card, Card)>,
    board: &Vec<Card>,
    runouts: &Vec<Vec<Card>>,
) -> (r: Vec<Vec<i64>>)
    requires
        players@.len() <= 26,
        forall|k: int| 0 <= k < runouts@.len() ==> board@.len() + (#[trigger] runouts@[k])@.len() == 5,
    ensures
        r@.len() == runouts@.len(),
        forall|k: int|
            0 <= k < r@.len() ==> (#[trigger] r@[k])@.len() == players@.len() && forall|i: int|
                0 <= i < players@.len() ==> r@[k]@[i] == outcome(
                    board@ + runouts@[k]@,
                    players@,
                    i,
                ),
{
    runouts.par_iter().map(|extra| runout_outcome(players, board, extra)).collect()
}

/// Every card dealt: the two hole cards of each player in turn, then the board.
pub open spec fn dealt(players: Seq<(Card, Card)>, board: Seq<Card>) -> Seq<Card> {
    Seq::new(
        (2 * players.len() + board.len()) as nat,
        |i: int|
            if i < 2 * players.len() {
                if i % 2 == 0 {
                    players[i / 2].0
                } else {
                    players[i / 2].1
                }
            } else {
                board[i - 2 * players.len()]
            },
    )
}

/// The 52 cards in deck order.
pub open spec fn deck() -> Seq<Card> {
    Seq::new(52, |i: int| deck_card(i))
}

/// Whether a card is still in the deck: neither in a hand nor on the board.
pub open spec fn undealt(players: Seq<(Card, Card)>, board: Seq<Card>) -> spec_fn(Card) -> bool {
    |c: Card| !dealt(players, board).contains(c)
}

/// The cards of the deck that nobody holds and that are not on the board, in deck order.
pub open spec fn remaining(players: Seq<(Card, Card)>, board: Seq<Card>) -> Seq<Card> {
    deck().filter(undealt(players, board))
}

/// Every way to complete the board: the missing community cards, drawn from the remaining ones.
pub open spec fn runouts(players: Seq<(Card, Card)>, board: Seq<Card>) -> Seq<Seq<Card>> {
    combos(remaining(players, board), (5 - board.len()) as nat)
}

/// How many of the run-outs `rs` give player `i` the outcome `t`.
pub open spec fn count_outcome(
    players: Seq<(Card, Card)>,
    board: Seq<Card>,
    rs: Seq<Seq<Card>>,
    i: int,
    t: int,
) -> nat
    decreases rs.len(),
{
    if rs.len() == 0 {
        0
    } else {
        count_outcome(players, board, rs.drop_last(), i, t) + if outcome(
            board + rs.last(),
            players,
            i,
        ) == t {
            1nat
        } else {
            0nat
        }
    }
}

/// Sum of a row of counts.
pub open spec fn row_sum(s: Seq<u64>) -> int
    decreases s.len(),
{
    if s.len() == 0 {
        0
    } else {
        row_sum(s.drop_last()) + s.last()
    }
}

/// Credit for a row of win counts: `w[t]` wins shared by `t + 1` winners, scaled by `f`.
pub open spec fn credit(w: Seq<u64>, f: int) -> int
    decreases w.len(),
{
    if w.len() == 0 {
        0
    } else {
        credit(w.drop_last(), f) + w.last() * (f / (w.len() as int))
    }
}

pub open spec fn factorial(n: nat) -> int
    decreases n,
{
    if n == 0 {
        1
    } else {
        n * factorial((n - 1) as nat)
    }
}

/// Number of true entries.
pub open spec fn count_true(s: Seq<bool>) -> int
    decreases s.len(),
{
    if s.len() == 0 {
        0
    } else {
        count_true(s.drop_last()) + if s.last() {
            1int
        } else {
            0int
        }
    }
}

proof fn lemma_count_true_bound(s: Seq<bool>)
    ensures
        0 <= count_true(s) <= s.len(),
    decreases s.len(),
{
    if s.len() > 0 {
        lemma_count_true_bound(s.drop_last());
    }
}

proof fn lemma_count_true_set(s: Seq<bool>, k: int)
    requires
        0 <= k < s.len(),
        !s[k],
    ensures
        count_true(s.update(k, true)) == count_true(s) + 1,
    decreases s.len(),
{
    let u = s.update(k, true);
    if k < s.len() - 1 {
        assert(u.drop_last() =~= s.drop_last().update(k, true));
        lemma_count_true_set(s.drop_last(), k);
    } else {
        assert(u.drop_last() =~= s.drop_last());
    }
}

proof fn lemma_row_sum_increment(s: Seq<u64>, t: int)
    requires
        0 <= t < s.len(),
        s[t] < u64::MAX,
    ensures
        row_sum(s.update(t, (s[t] + 1) as u64)) == row_sum(s) + 1,
    decreases s.len(),
{
    let u = s.update(t, (s[t] + 1) as u64);
    if t < s.len() - 1 {
        assert(u.drop_last() =~= s.drop_last().update(t, (s[t] + 1) as u64));
        lemma_row_sum_increment(s.drop_last(), t);
    } else {
        assert(u.drop_last() =~= s.drop_last());
    }
}

proof fn lemma_row_sum_nonnegative(s: Seq<u64>)
    ensures
        0 <= row_sum(s),
    decreases s.len(),
{
    if s.len() > 0 {
        lemma_row_sum_nonnegative(s.drop_last());
    }
}

proof fn lemma_row_entry_le_sum(s: Seq<u64>, t: int)
    requires
        0 <= t < s.len(),
    ensures
        s[t] <= row_sum(s),
    decreases s.len(),
{
    lemma_row_sum_nonnegative(s.drop_last());
    if t < s.len() - 1 {
        lemma_row_entry_le_sum(s.drop_last(), t);
    }
}

proof fn lemma_winners_at_most(board: Seq<Card>, players: Seq<(Card, Card)>, n: int)
    requires
        n >= 0,
    ensures
        winners_among(board, players, n) <= n,
    decreases n,
{
    if n > 0 {
        lemma_winners_at_most(board, players, n - 1);
    }
}

/// Each run-out gives a player either a loss (-1) or a tie with fewer than the other players.
proof fn lemma_outcome_range(board: Seq<Card>, players: Seq<(Card, Card)>, i: int)
    requires
        0 <= i < players.len(),
    ensures
        -1 <= outcome(board, players, i) < players.len(),
{
    lemma_winners_at_most(board, players, players.len() as int);
    if is_winner(board, players, i) {
        lemma_winner_counted(board, players, players.len() as int, i);
    }
}

proof fn lemma_factorial_bound(n: nat)
    requires
        n <= 26,
    ensures
        1 <= factorial(n) <= 403291461126605635584000000,
    decreases n,
{
    assert(factorial(0) == 1);
    assert(factorial(1) == 1);
    assert(factorial(2) == 2);
    assert(factorial(3) == 6);
    assert(factorial(4) == 24);
    assert(factorial(5) == 120);
    assert(factorial(6) == 720);
    assert(factorial(7) == 5040);
    assert(factorial(8) == 40320);
    assert(factorial(9) == 362880);
    assert(factorial(10) == 3628800);
    assert(factorial(11) == 39916800);
    assert(factorial(12) == 479001600);
    assert(factorial(13) == 6227020800);
    assert(factorial(14) == 87178291200);
    assert(factorial(15) == 1307674368000);
    assert(factorial(16) == 20922789888000);
    assert(factorial(17) == 355687428096000);
    assert(factorial(18) == 6402373705728000);
    assert(factorial(19) == 121645100408832000);
    assert(factorial(20) == 2432902008176640000);
    assert(factorial(21) == 51090942171709440000);
    assert(factorial(22) == 1124000727777607680000);
    assert(factorial(23) == 25852016738884976640000);
    assert(factorial(24) == 620448401733239439360000);
    assert(factorial(25) == 15511210043330985984000000);
    assert(factorial(26) == 403291461126605635584000000);
    if n < 26 {
        lemma_factorial_monotone(n, 26);
    }
}

proof fn lemma_factorial_monotone(a: nat, b: nat)
    requires
        a <= b,
    ensures
        1 <= factorial(a) <= factorial(b),
    decreases b,
{
    if a < b {
        lemma_factorial_monotone(a, (b - 1) as nat);
        let x = factorial((b - 1) as nat);
        assert(x <= b * x) by (nonlinear_arith)
            requires
                1 <= x,
                1 <= b,
        ;
    } else {
        lemma_factorial_positive(a);
    }
}

proof fn lemma_factorial_positive(n: nat)
    ensures
        1 <= factorial(n),
    decreases n,
{
    if n > 0 {
        lemma_factorial_positive((n - 1) as nat);
        let x = factorial((n - 1) as nat);
        assert(1 <= n * x) by (nonlinear_arith)
            requires
                1 <= x,
                1 <= n,
        ;
    }
}

proof fn lemma_credit_bound(w: Seq<u64>, f: int)
    requires
        f >= 0,
    ensures
        0 <= credit(w, f) <= row_sum(w) * f,
    decreases w.len(),
{
    if w.len() > 0 {
        lemma_credit_bound(w.drop_last(), f);
        let x = w.last() as int;
        let q = f / (w.len() as int);
        assert(0 <= q <= f);
        assert(0 <= x * q <= x * f) by (nonlinear_arith)
            requires
                0 <= x,
                0 <= q <= f,
        ;
        assert(row_sum(w) * f == row_sum(w.drop_last()) * f + x * f) by (nonlinear_arith)
            requires
                row_sum(w) == row_sum(w.drop_last()) + x,
        ;
    }
}

/// Position of a card in the deck, in executable code.
fn deck_position(c: Card) -> (r: usize)
    ensures
        r == deck_index(c),
        r < 52,
{
    let shape: usize = match c.shape {
        crate::card::CardShape::Spade => 0,
        crate::card::CardShape::Heart => 1,
        crate::card::CardShape::Diamond => 2,
        crate::card::CardShape::Club => 3,
    };
    shape * 13 + (c.number.as_u8() as usize - 2)
}

/// The card at each position of the deck sits at that position.
proof fn lemma_deck_index_of_card(i: int)
    requires
        0 <= i < 52,
    ensures
        deck_index(deck_card(i)) == i,
{
    assert(0 <= i / 13 < 4);
    assert(0 <= i % 13 < 13);
    assert(i == (i / 13) * 13 + i % 13);
}


proof fn lemma_row_sum_prefix(s: Seq<u64>, t: int)
    requires
        0 <= t <= s.len(),
    ensures
        row_sum(s.take(t)) <= row_sum(s),
    decreases s.len(),
{
    if t == s.len() {
        assert(s.take(t) =~= s);
    } else {
        assert(s.take(t) =~= s.drop_last().take(t));
        lemma_row_sum_prefix(s.drop_last(), t);
    }
}

/// Record that card `c`, at position `m` of the dealt cards `d`, is dealt; fails when it
/// already was.
fn mark_dealt(used: &mut Vec<bool>, c: Card, d: Ghost<Seq<Card>>, m: Ghost<int>) -> (fresh: bool)
    requires
        old(used)@.len() == 52,
        0 <= m@ < d@.len(),
        d@[m@] == c,
        forall|k: int| 0 <= k < 52 ==> old(used)@[k] == d@.take(m@).contains(deck_card(k)),
        d@.take(m@).no_duplicates(),
        count_true(old(used)@) == m@,
    ensures
        final(used)@.len() == 52,
        fresh ==> forall|k: int|
            0 <= k < 52 ==> final(used)@[k] == d@.take(m@ + 1).contains(deck_card(k)),
        fresh ==> d@.take(m@ + 1).no_duplicates(),
        fresh ==> count_true(final(used)@) == m@ + 1,
        !fresh ==> !d@.no_duplicates(),
{
    let k0 = deck_position(c);
    proof {
        lemma_deck_card_index(c);
    }
    if used[k0] {
        proof {
            assert(d@.take(m@).contains(c));
            let q = choose|q: int| 0 <= q < m@ && #[trigger] d@.take(m@)[q] == c;
            assert(d@[q] == d@[m@]);
        }
        return false;
    }
    proof {
        lemma_count_true_set(used@, k0 as int);
        assert(d@.take(m@ + 1) =~= d@.take(m@).push(c));
    }
    let ghost before = used@;
    used.set(k0, true);
    proof {
        let prefix = d@.take(m@);
        let next = d@.take(m@ + 1);
        assert(next[m@] == c);
        assert forall|k: int| 0 <= k < 52 implies used@[k] == next.contains(deck_card(k)) by {
            lemma_deck_index_of_card(k);
            if k == k0 {
                assert(next[m@] == deck_card(k));
            } else {
                assert(used@[k] == before[k]);
                if prefix.contains(deck_card(k)) {
                    let q = choose|q: int| 0 <= q < m@ && #[trigger] prefix[q] == deck_card(k);
                    assert(next[q] == deck_card(k));
                }
                if next.contains(deck_card(k)) {
                    let q = choose|q: int| 0 <= q < m@ + 1 && #[trigger] next[q] == deck_card(k);
                    assert(q != m@);
                    assert(prefix[q] == deck_card(k));
                }
            }
        }
        assert(!prefix.contains(c));
        assert forall|x: int, y: int| 0 <= x < next.len() && 0 <= y < next.len() && x != y implies next[x] != next[y] by {
            if x < m@ && y < m@ {
                assert(prefix[x] == next[x] && prefix[y] == next[y]);
            } else if x == m@ {
                assert(prefix[y] == next[y]);
            } else {
                assert(prefix[x] == next[x]);
            }
        }
    }
    true
}

/// Result of single equity calculation: for each player, how many run-outs it won together
/// with each number of other winners, and how many it lost.
#[derive(Debug)]
pub struct EquityResult {
    wins: Vec<Vec<u64>>,
    loses: Vec<u64>,
}

impl EquityResult {
    /// `wins_view()[i][t]`: run-outs that player `i` won with `t` other players tied.
    pub closed spec fn wins_view(&self) -> Seq<Seq<u64>> {
        self.wins@.map_values(|r: Vec<u64>| r@)
    }

    /// `loses_view()[i]`: run-outs that player `i` did not win.
    pub closed spec fn loses_view(&self) -> Seq<u64> {
        self.loses@
    }

    pub open spec fn num_players(&self) -> nat {
        self.loses_view().len()
    }

    /// Number of run-outs counted for player `i`.
    pub open spec fn games(&self, i: int) -> int {
        row_sum(self.wins_view()[i]) + self.loses_view()[i]
    }

    #[verifier::type_invariant]
    spec fn well_formed(&self) -> bool {
        &&& self.loses@.len() <= 26
        &&& self.wins@.len() == self.loses@.len()
        &&& forall|i: int|
            0 <= i < self.wins@.len() ==> (#[trigger] self.wins@[i])@.len() == self.loses@.len()
        &&& forall|i: int|
            0 <= i < self.wins@.len() ==> row_sum((#[trigger] self.wins@[i])@) + self.loses@[i]
                <= MAX_RUNOUTS
    }

    /// Whether these counts are those of the deal of `players` with the board `board`.
    pub open spec fn describes(&self, players: Seq<(Card, Card)>, board: Seq<Card>) -> bool {
        let rs = runouts(players, board);
        &&& self.num_players() == players.len()
        &&& self.wins_view().len() == players.len()
        &&& forall|i: int|
            0 <= i < players.len() ==> (#[trigger] self.wins_view()[i]).len() == players.len()
        &&& forall|i: int| 0 <= i < players.len() ==> #[trigger] self.games(i) == rs.len()
        &&& forall|i: int, t: int|
            0 <= i < players.len() && 0 <= t < players.len() ==> #[trigger] self.wins_view()[i][t]
                == count_outcome(players, board, rs, i, t)
        &&& forall|i: int|
            0 <= i < players.len() ==> #[trigger] self.loses_view()[i] == count_outcome(
                players,
                board,
                rs,
                i,
                -1,
            )
    }

    /// Count wins and losses of each player over every way to complete the board. A card
    /// dealt twice, in the hands or on the board, is rejected before any counting.
    pub fn new(cards_people: Vec<(Card, Card)>, cards_community: Vec<Card>) -> (r: Result<
        Self,
        PokercraftLocalError,
    >)
        ensures
            cards_community@.len() > 5 ==> r matches Err(
                PokercraftLocalError::TooManyCommunityCards,
            ),
            cards_community@.len() <= 5 && !dealt(cards_people@, cards_community@).no_duplicates()
                ==> r matches Err(PokercraftLocalError::DuplicateOrOverlappingCard),
            cards_community@.len() <= 5 && dealt(cards_people@, cards_community@).no_duplicates()
                ==> (r matches Ok(res) && res.describes(cards_people@, cards_community@)),
    {
        if cards_community.len() > 5 {
            return Err(PokercraftLocalError::TooManyCommunityCards);
        }
        let ghost players = cards_people@;
        let ghost board = cards_community@;
        let ghost d = dealt(players, board);
        let n = cards_people.len();
        let b = cards_community.len();
        let mut used: Vec<bool> = Vec::new();
        while used.len() < 52
            invariant
                used@.len() <= 52,
                forall|k: int| 0 <= k < used@.len() ==> !used@[k],
                count_true(used@) == 0,
            decreases 52 - used@.len(),
        {
            proof {
                assert(used@.push(false).drop_last() =~= used@);
            }
            used.push(false);
        }
        proof {
            assert forall|k: int| 0 <= k < 52 implies used@[k] == d.take(0).contains(deck_card(k)) by {}
        }
        let mut p: usize = 0;
        while p < n
            invariant
                n == players.len(),
                b == board.len() <= 5,
                cards_people@ == players,
                cards_community@ == board,
                d == dealt(players, board),
                used@.len() == 52,
                p <= n,
                forall|k: int| 0 <= k < 52 ==> used@[k] == d.take(2 * p).contains(deck_card(k)),
                d.take(2 * p).no_duplicates(),
                count_true(used@) == 2 * p,
            decreases n - p,
        {
            let (c1, c2) = cards_people[p];
            assert(d[2 * p as int] == c1);
            assert(d[2 * p + 1] == c2);
            if !mark_dealt(&mut used, c1, Ghost(d), Ghost(2 * p as int)) {
                return Err(PokercraftLocalError::DuplicateOrOverlappingCard);
            }
            if !mark_dealt(&mut used, c2, Ghost(d), Ghost(2 * p + 1)) {
                return Err(PokercraftLocalError::DuplicateOrOverlappingCard);
            }
            p += 1;
        }
        let mut q: usize = 0;
        while q < b
            invariant
                n == players.len(),
                b == board.len() <= 5,
                cards_people@ == players,
                cards_community@ == board,
                d == dealt(players, board),
                used@.len() == 52,
                q <= b,
                forall|k: int|
                    0 <= k < 52 ==> used@[k] == d.take(2 * n + q).contains(deck_card(k)),
                d.take(2 * n + q).no_duplicates(),
                count_true(used@) == 2 * n + q,
            decreases b - q,
        {
            let c = cards_community[q];
            assert(d[2 * n + q] == c);
            if !mark_dealt(&mut used, c, Ghost(d), Ghost(2 * n + q)) {
                return Err(PokercraftLocalError::DuplicateOrOverlappingCard);
            }
            q += 1;
        }
        proof {
            lemma_count_true_bound(used@);
            assert(d.take(2 * n + b) =~= d);
        }
        let all = Card::all();
        let mut pool: Vec<Card> = Vec::new();
        let mut idx: usize = 0;
        while idx < 52
            invariant
                idx <= 52,
                used@.len() == 52,
                forall|i: int| 0 <= i < 52 ==> #[trigger] all@[i] == deck_card(i),
                forall|k: int| 0 <= k < 52 ==> used@[k] == d.contains(deck_card(k)),
                d == dealt(players, board),
                pool@ == deck().take(idx as int).filter(undealt(players, board)),
                pool@.len() <= idx,
            decreases 52 - idx,
        {
            proof {
                assert(deck().take(idx + 1).drop_last() =~= deck().take(idx as int));
                assert(deck().take(idx + 1).last() == deck_card(idx as int));
                reveal(Seq::filter);
            }
            if !used[idx] {
                pool.push(all[idx]);
            }
            idx += 1;
        }
        proof {
            assert(deck().take(52) =~= deck());
        }
        let runouts_list = combinations_of(&pool, 5 - b);
        let ghost rs = runouts(players, board);
        proof {
            lemma_runouts_bound(pool@, (5 - b) as nat);
            assert forall|k: int| 0 <= k < runouts_list@.len() implies b + (
            #[trigger] runouts_list@[k])@.len() == 5 by {
                assert(runouts_list@[k]@ == rs[k]);
            }
        }
        let outcomes = outcomes_in_parallel(&cards_people, &cards_community, &runouts_list);
        let total = outcomes.len();
        let mut wins: Vec<Vec<u64>> = Vec::new();
        let mut loses: Vec<u64> = Vec::new();
        let mut i: usize = 0;
        while i < n
            invariant
                n == players.len() <= 26,
                cards_people@ == players,
                cards_community@ == board,
                rs == runouts(players, board),
                total == outcomes@.len() == rs.len() <= MAX_RUNOUTS,
                forall|k: int|
                    0 <= k < total ==> (#[trigger] outcomes@[k])@.len() == n && forall|j: int|
                        0 <= j < n ==> outcomes@[k]@[j] == outcome(board + rs[k], players, j),
                wins@.len() == i,
                loses@.len() == i,
                i <= n,
                forall|j: int| 0 <= j < i ==> (#[trigger] wins@[j])@.len() == n,
                forall|j: int|
                    0 <= j < i ==> row_sum((#[trigger] wins@[j])@) + loses@[j] == total,
                forall|j: int, t: int|
                    0 <= j < i && 0 <= t < n ==> #[trigger] wins@[j]@[t] == count_outcome(
                        players,
                        board,
                        rs,
                        j,
                        t,
                    ),
                forall|j: int|
                    0 <= j < i ==> #[trigger] loses@[j] == count_outcome(players, board, rs, j, -1),
            decreases n - i,
        {
            let mut row: Vec<u64> = Vec::new();
            while row.len() < n
                invariant
                    row@.len() <= n,
                    forall|t: int| 0 <= t < row@.len() ==> row@[t] == 0,
                    row_sum(row@) == 0,
                decreases n - row@.len(),
            {
                proof {
                    assert(row@.push(0).drop_last() =~= row@);
                }
                row.push(0);
            }
            let mut lost: u64 = 0;
            let mut k: usize = 0;
            while k < total
                invariant
                    n == players.len() <= 26,
                    i < n,
                    rs == runouts(players, board),
                    total == outcomes@.len() == rs.len() <= MAX_RUNOUTS,
                    forall|kk: int|
                        0 <= kk < total ==> (#[trigger] outcomes@[kk])@.len() == n && forall|j: int|
                            0 <= j < n ==> outcomes@[kk]@[j] == outcome(board + rs[kk], players, j),
                    k <= total,
                    row@.len() == n,
                    forall|t: int|
                        0 <= t < n ==> row@[t] == count_outcome(
                            players,
                            board,
                            rs.take(k as int),
                            i as int,
                            t,
                        ),
                    lost == count_outcome(players, board, rs.take(k as int), i as int, -1),
                    row_sum(row@) + lost == k,
                decreases total - k,
            {
                let o = outcomes[k][i];
                proof {
                    lemma_outcome_range(board + rs[k as int], players, i as int);
                    assert(rs.take(k + 1).drop_last() =~= rs.take(k as int));
                    assert(rs.take(k + 1).last() == rs[k as int]);
                    lemma_row_sum_nonnegative(row@);
                }
                if o >= 0 {
                    let t = o as usize;
                    proof {
                        lemma_row_entry_le_sum(row@, t as int);
                        lemma_row_sum_increment(row@, t as int);
                    }
                    row.set(t, row[t] + 1);
                } else {
                    lost += 1;
                }
                k += 1;
            }
            proof {
                assert(rs.take(total as int) =~= rs);
            }
            wins.push(row);
            loses.push(lost);
            i += 1;
        }
        let result = EquityResult { wins, loses };
        proof {
            assert(result.wins_view().len() == n);
            assert forall|j: int| 0 <= j < n implies #[trigger] result.wins_view()[j] == wins@[j]@ by {}
        }
        Ok(result)
    }

    /// Get the equity of the given player index (0-based): the run-outs it won, each shared
    /// among its winners, over all run-outs. The fraction is exact and scaled by `n!` for `n`
    /// players: its numerator sums `wins[t] * (n! / (t + 1))`, its denominator is the number
    /// of run-outs times `n!`.
    pub fn get_equity(&self, player_index: usize) -> (r: Result<Fraction, PokercraftLocalError>)
        ensures
            player_index >= self.num_players() ==> r matches Err(
                PokercraftLocalError::PlayerIndexOutOfRange,
            ),
            player_index < self.num_players() && self.games(player_index as int) == 0 ==> r matches Err(
                PokercraftLocalError::NoGamesPlayed,
            ),
            player_index < self.num_players() && self.games(player_index as int) > 0 ==> (r matches Ok(
                f,
            ) && f.numerator == credit(
                self.wins_view()[player_index as int],
                factorial(self.num_players()),
            ) && f.denominator == self.games(player_index as int) * factorial(self.num_players())),
    {
        proof {
            use_type_invariant(self);
        }
        let n = self.loses.len();
        if player_index >= n {
            return Err(PokercraftLocalError::PlayerIndexOutOfRange);
        }
        let row = &self.wins[player_index];
        let ghost w = row@;
        assert(w == self.wins_view()[player_index as int]);
        let mut total: u128 = self.loses[player_index] as u128;
        let mut t: usize = 0;
        while t < n
            invariant
                n == w.len() <= 26,
                row@ == w,
                t <= n,
                total == row_sum(w.take(t as int)) + self.loses@[player_index as int],
                row_sum(w) + self.loses@[player_index as int] <= MAX_RUNOUTS,
            decreases n - t,
        {
            proof {
                assert(w.take(t + 1).drop_last() =~= w.take(t as int));
                lemma_row_sum_prefix(w, t + 1);
                lemma_row_sum_nonnegative(w.take(t as int));
            }
            total = total + row[t] as u128;
            t += 1;
        }
        assert(w.take(n as int) =~= w);
        if total == 0 {
            return Err(PokercraftLocalError::NoGamesPlayed);
        }
        let mut f: u128 = 1;
        let mut m: usize = 1;
        while m <= n
            invariant
                n <= 26,
                1 <= m <= n + 1,
                f == factorial((m - 1) as nat),
            decreases n + 1 - m,
        {
            proof {
                lemma_factorial_bound(m as nat);
                let prev = factorial((m - 1) as nat);
                assert(factorial(m as nat) == m * prev);
                assert(f * m == m * prev) by (nonlinear_arith)
                    requires
                        f == prev,
                ;
            }
            f = f * m as u128;
            m += 1;
        }
        let ghost fv = factorial(n as nat);
        proof {
            lemma_factorial_bound(n as nat);
        }
        let mut numerator: u128 = 0;
        let mut t: usize = 0;
        while t < n
            invariant
                n == w.len() <= 26,
                row@ == w,
                t <= n,
                f == fv,
                1 <= fv <= 403291461126605635584000000,
                numerator == credit(w.take(t as int), fv),
                row_sum(w) <= MAX_RUNOUTS,
            decreases n - t,
        {
            proof {
                assert(w.take(t + 1).drop_last() =~= w.take(t as int));
                lemma_credit_bound(w.take(t + 1), fv);
                lemma_row_sum_prefix(w, t + 1);
                let x = row_sum(w.take(t + 1));
                assert(x * fv <= MAX_RUNOUTS * 403291461126605635584000000) by (nonlinear_arith)
                    requires
                        x <= MAX_RUNOUTS,
                        1 <= fv <= 403291461126605635584000000,
                ;
                lemma_row_entry_le_sum(w.take(t + 1), t as int);
                let y = w[t as int] as int;
                let share = fv / (t + 1);
                assert(0 <= share <= fv);
                assert(y * share <= MAX_RUNOUTS * 403291461126605635584000000) by (nonlinear_arith)
                    requires
                        0 <= y <= x,
                        x <= MAX_RUNOUTS,
                        0 <= share <= 403291461126605635584000000,
                ;
            }
            numerator = numerator + row[t] as u128 * (f / (t as u128 + 1));
            t += 1;
        }
        assert(w.take(n as int) =~= w);
        proof {
            let g = total as int;
            assert(g * fv <= MAX_RUNOUTS * 403291461126605635584000000) by (nonlinear_arith)
                requires
                    0 <= g <= MAX_RUNOUTS,
                    1 <= fv <= 403291461126605635584000000,
            ;
        }
        Ok(Fraction { numerator, denominator: total * f })
    }

    /// Check if the given player index (0-based) has never lost in all scenarios.
    pub fn never_lost(&self, player_index: usize) -> (r: Result<bool, PokercraftLocalError>)
        ensures
            player_index >= self.num_players() ==> r matches Err(
                PokercraftLocalError::PlayerIndexOutOfRange,
            ),
            player_index < self.num_players() ==> r == Ok::<bool, PokercraftLocalError>(
                self.loses_view()[player_index as int] == 0,
            ),
    {
        if player_index >= self.loses.len() {
            return Err(PokercraftLocalError::PlayerIndexOutOfRange);
        }
        Ok(self.loses[player_index] == 0)
    }
}


/// Sum of `f(k)` for `k` from 0 below `n`.
pub open spec fn sum_below(n: int, f: spec_fn(int) -> int) -> int
    decreases n,
{
    if n <= 0 {
        0
    } else {
        sum_below(n - 1, f) + f(n - 1)
    }
}

proof fn lemma_sum_add(n: int, f: spec_fn(int) -> int, g: spec_fn(int) -> int, h: spec_fn(int) -> int)
    requires
        forall|k: int| 0 <= k < n ==> #[trigger] f(k) == g(k) + h(k),
    ensures
        sum_below(n, f) == sum_below(n, g) + sum_below(n, h),
    decreases n,
{
    if n > 0 {
        lemma_sum_add(n - 1, f, g, h);
    }
}

proof fn lemma_sum_single(n: int, f: spec_fn(int) -> int, o: int)
    requires
        forall|k: int| 0 <= k < n && k != o ==> #[trigger] f(k) == 0,
    ensures
        sum_below(n, f) == if 0 <= o < n {
            f(o)
        } else {
            0
        },
    decreases n,
{
    if n > 0 {
        lemma_sum_single(n - 1, f, o);
    }
}

proof fn lemma_sum_congruent(n: int, f: spec_fn(int) -> int, g: spec_fn(int) -> int)
    requires
        forall|k: int| 0 <= k < n ==> #[trigger] f(k) == g(k),
    ensures
        sum_below(n, f) == sum_below(n, g),
    decreases n,
{
    if n > 0 {
        lemma_sum_congruent(n - 1, f, g);
    }
}

/// `n!` is a multiple of every `w` from 1 to `n`.
proof fn lemma_factorial_multiple(n: nat, w: int) -> (q: int)
    requires
        1 <= w <= n,
    ensures
        factorial(n) == w * q,
        q >= 1,
    decreases n,
{
    lemma_factorial_positive((n - 1) as nat);
    if w == n {
        factorial((n - 1) as nat)
    } else {
        let p = lemma_factorial_multiple((n - 1) as nat, w);
        let x = factorial((n - 1) as nat);
        assert(n * x == w * (n * p) && n * p >= 1) by (nonlinear_arith)
            requires
                x == w * p,
                p >= 1,
                n >= 1,
        ;
        n * p
    }
}

/// The credit a player takes from one complete board, scaled by `f`: a winner gets `f` over
/// the number of winners, a loser nothing.
pub open spec fn runout_share(board: Seq<Card>, players: Seq<(Card, Card)>, i: int, f: int) -> int {
    if is_winner(board, players, i) {
        f / winners_among(board, players, players.len() as int)
    } else {
        0
    }
}

pub open spec fn share_term(board: Seq<Card>, players: Seq<(Card, Card)>, f: int) -> spec_fn(int) -> int {
    |i: int| runout_share(board, players, i, f)
}

/// The scaled credit of outcome `t` for player `i` on one complete board.
pub open spec fn outcome_term(board: Seq<Card>, players: Seq<(Card, Card)>, i: int, f: int) -> spec_fn(
    int,
) -> int {
    |t: int|
        if outcome(board, players, i) == t {
            f / (t + 1)
        } else {
            0
        }
}

/// The scaled credit of the run-outs `rs` that gave player `i` the outcome `t`.
pub open spec fn count_term(
    players: Seq<(Card, Card)>,
    board: Seq<Card>,
    rs: Seq<Seq<Card>>,
    i: int,
    f: int,
) -> spec_fn(int) -> int {
    |t: int| count_outcome(players, board, rs, i, t) * (f / (t + 1))
}

/// The scaled credit of player `i` over the run-outs `rs`.
pub open spec fn credit_term(
    players: Seq<(Card, Card)>,
    board: Seq<Card>,
    rs: Seq<Seq<Card>>,
    f: int,
) -> spec_fn(int) -> int {
    |i: int| sum_below(players.len() as int, count_term(players, board, rs, i, f))
}

/// On one complete board, the winners' shares of `n!` add up to `n!`.
proof fn lemma_shares_of_one_runout(board: Seq<Card>, players: Seq<(Card, Card)>)
    requires
        players.len() >= 1,
    ensures
        sum_below(players.len() as int, share_term(board, players, factorial(players.len()))) == factorial(
            players.len(),
        ),
{
    let n = players.len() as int;
    let f = factorial(players.len());
    lemma_some_player_wins(board, players);
    let w = winners_among(board, players, n);
    lemma_winners_at_most(board, players, n);
    let q = lemma_factorial_multiple(players.len(), w);
    lemma_div_multiples_vanish(q, w);
    assert(f / w == q);
    lemma_share_prefix(board, players, f, q, n);
}

/// The shares of the first `m` players are `q` for each winner among them.
proof fn lemma_share_prefix(board: Seq<Card>, players: Seq<(Card, Card)>, f: int, q: int, m: int)
    requires
        0 <= m <= players.len(),
        f / winners_among(board, players, players.len() as int) == q,
    ensures
        sum_below(m, share_term(board, players, f)) == winners_among(board, players, m) * q,
    decreases m,
{
    if m > 0 {
        lemma_share_prefix(board, players, f, q, m - 1);
        let a = winners_among(board, players, m - 1);
        assert((a + 1) * q == a * q + q) by (nonlinear_arith);
    }
}

/// On one complete board, the credit that the outcome of player `i` gives is its share.
proof fn lemma_outcome_credit(board: Seq<Card>, players: Seq<(Card, Card)>, i: int, f: int)
    requires
        0 <= i < players.len(),
    ensures
        sum_below(players.len() as int, outcome_term(board, players, i, f)) == runout_share(
            board,
            players,
            i,
            f,
        ),
{
    let o = outcome(board, players, i);
    lemma_outcome_range(board, players, i);
    lemma_sum_single(players.len() as int, outcome_term(board, players, i, f), o);
    let total = sum_below(players.len() as int, outcome_term(board, players, i, f));
    if is_winner(board, players, i) {
        lemma_winner_counted(board, players, players.len() as int, i);
        assert(o + 1 == winners_among(board, players, players.len() as int));
        assert(0 <= o < players.len());
        assert(total == outcome_term(board, players, i, f)(o));
        assert(outcome_term(board, players, i, f)(o) == f / (o + 1));
    } else {
        assert(o == -1);
        assert(total == 0);
    }
}

/// Over any list of complete boards, the credits of all players add up to `n!` per board.
proof fn lemma_credits_of_runouts(players: Seq<(Card, Card)>, board: Seq<Card>, rs: Seq<Seq<Card>>)
    requires
        players.len() >= 1,
    ensures
        sum_below(
            players.len() as int,
            credit_term(players, board, rs, factorial(players.len())),
        ) == rs.len() * factorial(players.len()),
    decreases rs.len(),
{
    let n = players.len() as int;
    let f = factorial(players.len());
    if rs.len() == 0 {
        assert forall|i: int| 0 <= i < n implies #[trigger] credit_term(players, board, rs, f)(i)
            == 0 by {
            assert forall|t: int| 0 <= t < n && t != -1 implies #[trigger] count_term(
                players,
                board,
                rs,
                i,
                f,
            )(t) == 0 by {
                assert(count_outcome(players, board, rs, i, t) == 0);
            }
            lemma_sum_single(n, count_term(players, board, rs, i, f), -1);
        }
        lemma_sum_single(n, credit_term(players, board, rs, f), -1);
    } else {
        let prev = rs.drop_last();
        let full = board + rs.last();
        lemma_credits_of_runouts(players, board, prev);
        assert forall|i: int| 0 <= i < n implies #[trigger] credit_term(players, board, rs, f)(i)
            == credit_term(players, board, prev, f)(i) + share_term(full, players, f)(i) by {
            assert forall|t: int| 0 <= t < n implies #[trigger] count_term(players, board, rs, i, f)(
                t,
            ) == count_term(players, board, prev, i, f)(t) + outcome_term(full, players, i, f)(t) by {
                let a = count_outcome(players, board, prev, i, t);
                let c = f / (t + 1);
                assert((a + 1) * c == a * c + c) by (nonlinear_arith);
            }
            lemma_sum_add(
                n,
                count_term(players, board, rs, i, f),
                count_term(players, board, prev, i, f),
                outcome_term(full, players, i, f),
            );
            lemma_outcome_credit(full, players, i, f);
        }
        lemma_sum_add(
            n,
            credit_term(players, board, rs, f),
            credit_term(players, board, prev, f),
            share_term(full, players, f),
        );
        lemma_shares_of_one_runout(full, players);
        assert(prev.len() * f + f == rs.len() * f) by (nonlinear_arith)
            requires
                prev.len() + 1 == rs.len(),
        ;
    }
}

pub open spec fn row_term(w: Seq<u64>, f: int) -> spec_fn(int) -> int {
    |t: int| w[t] * (f / (t + 1))
}

proof fn lemma_credit_as_sum(w: Seq<u64>, f: int)
    ensures
        credit(w, f) == sum_below(w.len() as int, row_term(w, f)),
    decreases w.len(),
{
    if w.len() > 0 {
        let v = w.drop_last();
        lemma_credit_as_sum(v, f);
        lemma_sum_congruent(v.len() as int, row_term(v, f), row_term(w, f));
    }
}

/// The scaled credit of each player, as `get_equity` reports it over `n!` times the run-outs.
pub open spec fn equity_credit(r: EquityResult) -> spec_fn(int) -> int {
    |i: int| credit(r.wins_view()[i], factorial(r.num_players()))
}

/// The equities of all players sum to one: their credits, each over `n!` times the number of
/// run-outs, add up to `n!` times the number of run-outs.
pub proof fn lemma_equities_sum_to_one(
    r: EquityResult,
    players: Seq<(Card, Card)>,
    board: Seq<Card>,
)
    requires
        r.describes(players, board),
        players.len() >= 1,
    ensures
        sum_below(players.len() as int, equity_credit(r)) == runouts(players, board).len()
            * factorial(players.len()),
{
    let n = players.len() as int;
    let f = factorial(players.len());
    let rs = runouts(players, board);
    lemma_credits_of_runouts(players, board, rs);
    assert forall|i: int| 0 <= i < n implies #[trigger] equity_credit(r)(i) == credit_term(
        players,
        board,
        rs,
        f,
    )(i) by {
        let w = r.wins_view()[i];
        lemma_credit_as_sum(w, f);
        assert forall|t: int| 0 <= t < n implies #[trigger] row_term(w, f)(t) == count_term(
            players,
            board,
            rs,
            i,
            f,
        )(t) by {
            assert(w[t] == count_outcome(players, board, rs, i, t));
        }
        lemma_sum_congruent(n, row_term(w, f), count_term(players, board, rs, i, f));
    }
    lemma_sum_congruent(n, equity_credit(r), credit_term(players, board, rs, f));
}

} // verus!
