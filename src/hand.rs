//! Ranking of five-card poker hands and the best five of seven cards.
use crate::card::{Card, CardNumber, CardShape};
use vstd::multiset::group_multiset_axioms;
use vstd::prelude::*;
use vstd::relations::{sorted_by, total_ordering};
use vstd::seq_lib::group_to_multiset_ensures;

verus! {

/// Represents the rank of a poker hand, with what breaks ties inside its category.
#[derive(Copy, Clone, Debug)]
pub enum HandRank {
    HighCard([Card; 5]),
    OnePair(CardNumber, [Card; 3]),
    TwoPairs(CardNumber, CardNumber, Card),
    Triple(CardNumber, [Card; 2]),
    Straight(CardNumber),
    /// (Shape, Numbers)
    Flush(CardShape, [CardNumber; 5]),
    /// (Three, Pair)
    FullHouse(CardNumber, CardNumber),
    /// (Four, Kicker)
    Quads(CardNumber, Card),
    /// Highest card in the straight flush
    StraightFlush(Card),
}

/// Sort key of a card: by number, then by shape.
pub open spec fn card_key(c: Card) -> int {
    c.number.value() * 4 + c.shape.index()
}

/// The order in which a hand is read: higher keys first.
pub open spec fn card_order() -> spec_fn(Card, Card) -> bool {
    |a: Card, b: Card| card_key(a) >= card_key(b)
}

/// The cards of a hand from the highest to the lowest.
pub open spec fn hand_sorted(cards: Seq<Card>) -> Seq<Card> {
    cards.sort_by(card_order())
}

/// Whether the five sorted cards share one shape.
pub open spec fn is_flush(s: Seq<Card>) -> bool {
    &&& s[1].shape == s[0].shape
    &&& s[2].shape == s[0].shape
    &&& s[3].shape == s[0].shape
    &&& s[4].shape == s[0].shape
}

/// The high number of the straight that five sorted cards form, if they form one;
/// A-5-4-3-2 is the lowest straight, with Five high.
pub open spec fn straight_high(s: Seq<Card>) -> Option<CardNumber> {
    if s[0].number.value() == s[1].number.value() + 1 && s[1].number.value() == s[2].number.value()
        + 1 && s[2].number.value() == s[3].number.value() + 1 && s[3].number.value()
        == s[4].number.value() + 1 {
        Some(s[0].number)
    } else if s[0].number == CardNumber::Ace && s[1].number == CardNumber::Five && s[2].number
        == CardNumber::Four && s[3].number == CardNumber::Three && s[4].number == CardNumber::Two {
        Some(CardNumber::Five)
    } else {
        None
    }
}

/// The rank of five cards given from the highest to the lowest.
pub open spec fn classify(s: Seq<Card>) -> HandRank {
    let (n0, n1, n2, n3, n4) = (s[0].number, s[1].number, s[2].number, s[3].number, s[4].number);
    if straight_high(s) is Some && is_flush(s) {
        HandRank::StraightFlush(Card { shape: s[0].shape, number: straight_high(s)->Some_0 })
    } else if straight_high(s) is Some {
        HandRank::Straight(straight_high(s)->Some_0)
    } else if is_flush(s) {
        HandRank::Flush(s[0].shape, [n0, n1, n2, n3, n4])
    } else if n0 == n3 {
        HandRank::Quads(n0, s[4])
    } else if n1 == n4 {
        HandRank::Quads(n1, s[0])
    } else if n0 == n2 && n3 == n4 {
        HandRank::FullHouse(n0, n3)
    } else if n0 == n1 && n2 == n4 {
        HandRank::FullHouse(n2, n0)
    } else if n0 == n2 {
        HandRank::Triple(n0, [s[3], s[4]])
    } else if n1 == n3 {
        HandRank::Triple(n1, [s[0], s[4]])
    } else if n2 == n4 {
        HandRank::Triple(n2, [s[0], s[1]])
    } else if n0 == n1 && n2 == n3 {
        HandRank::TwoPairs(n0, n2, s[4])
    } else if n0 == n1 && n3 == n4 {
        HandRank::TwoPairs(n0, n3, s[2])
    } else if n1 == n2 && n3 == n4 {
        HandRank::TwoPairs(n1, n3, s[0])
    } else if n0 == n1 {
        HandRank::OnePair(n0, [s[2], s[3], s[4]])
    } else if n1 == n2 {
        HandRank::OnePair(n1, [s[0], s[3], s[4]])
    } else if n2 == n3 {
        HandRank::OnePair(n2, [s[0], s[1], s[4]])
    } else if n3 == n4 {
        HandRank::OnePair(n3, [s[0], s[1], s[2]])
    } else {
        HandRank::HighCard([s[0], s[1], s[2], s[3], s[4]])
    }
}

/// The rank of any five cards.
pub open spec fn hand_rank_of(cards: Seq<Card>) -> HandRank {
    classify(hand_sorted(cards))
}

/// Numbers read as digits of base 13, the first one most significant.
pub open spec fn pack(s: Seq<CardNumber>) -> int
    decreases s.len(),
{
    if s.len() == 0 {
        0
    } else {
        pack(s.drop_last()) * 13 + s.last().value()
    }
}

/// 15 to the power `n`.
pub open spec fn pow15(n: nat) -> int
    decreases n,
{
    if n == 0 {
        1
    } else {
        15 * pow15((n - 1) as nat)
    }
}

/// Two cards that are equal by key are the same card.
proof fn lemma_card_key_injective(a: Card, b: Card)
    requires
        card_key(a) == card_key(b),
    ensures
        a == b,
{
}

/// Reading cards from the highest key down is a total order.
pub proof fn lemma_card_order_total()
    ensures
        total_ordering(card_order()),
{
    assert forall|a: Card, b: Card|
        #[trigger] card_order()(a, b) && #[trigger] card_order()(b, a) implies a == b by {
        lemma_card_key_injective(a, b);
    }
}

/// Two sorted sequences that hold the same cards are equal.
pub proof fn lemma_sorted_unique(a: Seq<Card>, b: Seq<Card>)
    requires
        sorted_by(a, card_order()),
        sorted_by(b, card_order()),
        a.to_multiset() == b.to_multiset(),
    ensures
        a == b,
    decreases a.len(),
{
    broadcast use group_to_multiset_ensures;

    assert(a.len() == a.to_multiset().len());
    assert(b.len() == b.to_multiset().len());
    if a.len() == 0 {
        assert(a =~= b);
    } else {
        let x = a[0];
        let y = b[0];
        assert(a.contains(x));
        assert(b.contains(y));
        assert(a.to_multiset().count(x) > 0);
        assert(b.to_multiset().count(y) > 0);
        assert(b.contains(x));
        assert(a.contains(y));
        let j = choose|j: int| 0 <= j < b.len() && b[j] == x;
        let i = choose|i: int| 0 <= i < a.len() && a[i] == y;
        if j > 0 {
            assert(card_order()(b[0], b[j]));
        }
        if i > 0 {
            assert(card_order()(a[0], a[i]));
        }
        lemma_card_key_injective(x, y);
        assert(a.remove(0) =~= a.drop_first());
        assert(b.remove(0) =~= b.drop_first());
        assert(sorted_by(a.drop_first(), card_order())) by {
            assert forall|p: int, q: int| 0 <= p < q < a.drop_first().len() implies #[trigger] card_order()(
                a.drop_first()[p],
                a.drop_first()[q],
            ) by {
                assert(card_order()(a[p + 1], a[q + 1]));
            }
        }
        assert(sorted_by(b.drop_first(), card_order())) by {
            assert forall|p: int, q: int| 0 <= p < q < b.drop_first().len() implies #[trigger] card_order()(
                b.drop_first()[p],
                b.drop_first()[q],
            ) by {
                assert(card_order()(b[p + 1], b[q + 1]));
            }
        }
        lemma_sorted_unique(a.drop_first(), b.drop_first());
        assert(a =~= b) by {
            assert forall|k: int| 0 <= k < a.len() implies a[k] == b[k] by {
                if k > 0 {
                    assert(a[k] == a.drop_first()[k - 1]);
                    assert(b[k] == b.drop_first()[k - 1]);
                }
            }
        }
    }
}

/// A sorted sequence holding the same cards as `cards` is the sorted hand of `cards`.
pub proof fn lemma_is_hand_sorted(cards: Seq<Card>, s: Seq<Card>)
    requires
        sorted_by(s, card_order()),
        s.to_multiset() == cards.to_multiset(),
    ensures
        s == hand_sorted(cards),
{
    lemma_card_order_total();
    cards.lemma_sort_by_ensures(card_order());
    lemma_sorted_unique(s, hand_sorted(cards));
}

/// The rank of five cards does not depend on the order in which they are given.
pub proof fn lemma_rank_permutation_invariant(a: Seq<Card>, b: Seq<Card>)
    requires
        a.to_multiset() == b.to_multiset(),
    ensures
        hand_rank_of(a) == hand_rank_of(b),
{
    lemma_card_order_total();
    b.lemma_sort_by_ensures(card_order());
    lemma_is_hand_sorted(a, hand_sorted(b));
}

/// Exchanging two positions keeps the cards that a sequence holds.
proof fn lemma_swap_multiset(s: Seq<Card>, i: int, j: int)
    requires
        0 <= i < s.len(),
        0 <= j < s.len(),
    ensures
        s.update(i, s[j]).update(j, s[i]).to_multiset() == s.to_multiset(),
{
    broadcast use group_to_multiset_ensures, group_multiset_axioms;

    let t = s.update(i, s[j]);
    assert(t.to_multiset() == s.to_multiset().insert(s[j]).remove(s[i]));
    assert(t.update(j, s[i]).to_multiset() == t.to_multiset().insert(s[i]).remove(t[j]));
    assert(t.update(j, s[i]).to_multiset() =~= s.to_multiset());
}

impl HandRank {
    /// Category index, from 0 (high card) to 8 (straight flush).
    pub open spec fn category(self) -> int {
        match self {
            HandRank::HighCard(_) => 0,
            HandRank::OnePair(_, _) => 1,
            HandRank::TwoPairs(_, _, _) => 2,
            HandRank::Triple(_, _) => 3,
            HandRank::Straight(_) => 4,
            HandRank::Flush(_, _) => 5,
            HandRank::FullHouse(_, _) => 6,
            HandRank::Quads(_, _) => 7,
            HandRank::StraightFlush(_) => 8,
        }
    }

    /// The numbers that break ties inside the category, most significant first.
    pub open spec fn tie_breakers(self) -> Seq<CardNumber> {
        match self {
            HandRank::HighCard(c) => seq![
                c[0].number,
                c[1].number,
                c[2].number,
                c[3].number,
                c[4].number,
            ],
            HandRank::OnePair(n, c) => seq![n, c[0].number, c[1].number, c[2].number],
            HandRank::TwoPairs(high, low, kicker) => seq![high, low, kicker.number],
            HandRank::Triple(n, c) => seq![n, c[0].number, c[1].number],
            HandRank::Straight(high) => seq![high],
            HandRank::Flush(_, ns) => seq![ns[0], ns[1], ns[2], ns[3], ns[4]],
            HandRank::FullHouse(three, pair) => seq![three, pair],
            HandRank::Quads(n, kicker) => seq![n, kicker.number],
            HandRank::StraightFlush(c) => seq![c.number],
        }
    }

    /// The packed tie-break integer.
    pub open spec fn packed(self) -> int {
        pack(self.tie_breakers())
    }

    /// Whether `self` ranks strictly below `other`: by category, then by the packed tie-breakers.
    pub open spec fn ranks_below(self, other: HandRank) -> bool {
        self.category() < other.category() || (self.category() == other.category()
            && self.packed() < other.packed())
    }

    /// Whether `self` and `other` tie exactly.
    pub open spec fn ties_with(self, other: HandRank) -> bool {
        self.category() == other.category() && self.packed() == other.packed()
    }

    /// One integer that orders hands as `ranks_below` does.
    pub open spec fn strength(self) -> int {
        self.category() * 1_000_000 + self.packed()
    }
}

/// A packed value of at most five numbers stays below 15 to the power of their count.
proof fn lemma_pack_bound(s: Seq<CardNumber>)
    ensures
        0 <= pack(s) < pow15(s.len()),
    decreases s.len(),
{
    if s.len() > 0 {
        lemma_pack_bound(s.drop_last());
    }
}

/// Every tie-break value fits below a million.
pub proof fn lemma_packed_bound(h: HandRank)
    ensures
        0 <= h.packed() < 1_000_000,
{
    lemma_pack_bound(h.tie_breakers());
    reveal_with_fuel(pow15, 6);
    assert(h.tie_breakers().len() <= 5);
}

/// `strength` orders hands exactly as category, then packed tie-breakers, do.
pub proof fn lemma_strength_order(a: HandRank, b: HandRank)
    ensures
        a.ranks_below(b) <==> a.strength() < b.strength(),
        a.ties_with(b) <==> a.strength() == b.strength(),
{
    lemma_packed_bound(a);
    lemma_packed_bound(b);
}

/// Hand ranks are totally ordered: of two hands one ranks below the other or they tie, and
/// ranking below is transitive.
pub proof fn lemma_rank_order_total(a: HandRank, b: HandRank, c: HandRank)
    ensures
        a.ranks_below(b) || a.ties_with(b) || b.ranks_below(a),
        !(a.ranks_below(b) && b.ranks_below(a)),
        !(a.ranks_below(b) && a.ties_with(b)),
        a.ranks_below(b) && b.ranks_below(c) ==> a.ranks_below(c),
{
    lemma_strength_order(a, b);
    lemma_strength_order(b, c);
    lemma_strength_order(a, c);
}

/// Pack numbers as digits of base 13, the first one most significant.
fn pack_numbers(numbers: &[CardNumber]) -> (r: u64)
    requires
        numbers@.len() <= 5,
    ensures
        r == pack(numbers@),
{
    let mut result: u64 = 0;
    let mut i: usize = 0;
    proof {
        reveal_with_fuel(pow15, 6);
    }
    while i < numbers.len()
        invariant
            i <= numbers@.len() <= 5,
            result == pack(numbers@.subrange(0, i as int)),
            pow15(5) == 759375,
        decreases numbers@.len() - i,
    {
        proof {
            lemma_pack_bound(numbers@.subrange(0, i as int));
            assert(pow15(i as nat) <= 759375) by {
                reveal_with_fuel(pow15, 6);
            }
            assert(numbers@.subrange(0, i + 1).drop_last() =~= numbers@.subrange(0, i as int));
        }
        result = result * 13 + numbers[i].as_u8() as u64;
        i += 1;
    }
    assert(numbers@.subrange(0, i as int) =~= numbers@);
    result
}

impl PartialEq for HandRank {
    fn eq(&self, other: &HandRank) -> (r: bool)
        ensures
            r == (*self == *other),
    {
        match *self {
            HandRank::HighCard(a) => match *other {
                HandRank::HighCard(b) => cards_equal(&a, &b),
                _ => false,
            },
            HandRank::OnePair(n, a) => match *other {
                HandRank::OnePair(m, b) => n == m && cards_equal(&a, &b),
                _ => false,
            },
            HandRank::TwoPairs(h1, l1, k1) => match *other {
                HandRank::TwoPairs(h2, l2, k2) => h1 == h2 && l1 == l2 && k1 == k2,
                _ => false,
            },
            HandRank::Triple(n, a) => match *other {
                HandRank::Triple(m, b) => n == m && cards_equal(&a, &b),
                _ => false,
            },
            HandRank::Straight(a) => match *other {
                HandRank::Straight(b) => a == b,
                _ => false,
            },
            HandRank::Flush(s, a) => match *other {
                HandRank::Flush(t, b) => s == t && numbers_equal(&a, &b),
                _ => false,
            },
            HandRank::FullHouse(three_a, pair_a) => match *other {
                HandRank::FullHouse(three_b, pair_b) => three_a == three_b && pair_a == pair_b,
                _ => false,
            },
            HandRank::Quads(n, a) => match *other {
                HandRank::Quads(m, b) => n == m && a == b,
                _ => false,
            },
            HandRank::StraightFlush(a) => match *other {
                HandRank::StraightFlush(b) => a == b,
                _ => false,
            },
        }
    }
}

/// Whether two arrays of cards hold the same cards at the same places.
fn cards_equal<const N: usize>(a: &[Card; N], b: &[Card; N]) -> (r: bool)
    ensures
        r == (*a == *b),
{
    let mut i: usize = 0;
    while i < N
        invariant
            i <= N,
            a@.len() == N,
            b@.len() == N,
            forall|k: int| 0 <= k < i ==> a@[k] == b@[k],
        decreases N - i,
    {
        if a[i] != b[i] {
            return false;
        }
        i += 1;
    }
    proof {
        lemma_array_ext(*a, *b);
    }
    true
}

/// Whether two arrays of numbers hold the same numbers at the same places.
fn numbers_equal(a: &[CardNumber; 5], b: &[CardNumber; 5]) -> (r: bool)
    ensures
        r == (*a == *b),
{
    let mut i: usize = 0;
    while i < 5
        invariant
            i <= 5,
            forall|k: int| 0 <= k < i ==> a@[k] == b@[k],
        decreases 5 - i,
    {
        if a[i] != b[i] {
            return false;
        }
        i += 1;
    }
    proof {
        lemma_array_ext(*a, *b);
    }
    true
}

/// Arrays with the same elements are equal.
proof fn lemma_array_ext<T, const N: usize>(a: [T; N], b: [T; N])
    requires
        forall|k: int| 0 <= k < N ==> a@[k] == b@[k],
    ensures
        a == b,
{
    assert(a@ =~= b@);
}

impl vstd::std_specs::cmp::PartialEqSpecImpl for HandRank {
    open spec fn obeys_eq_spec() -> bool {
        true
    }

    open spec fn eq_spec(&self, other: &HandRank) -> bool {
        *self == *other
    }
}

/// The order of hand ranks: by category, then by the packed tie-breakers.
pub open spec fn rank_order(a: HandRank, b: HandRank) -> std::cmp::Ordering {
    if a.ranks_below(b) {
        std::cmp::Ordering::Less
    } else if a.ties_with(b) {
        std::cmp::Ordering::Equal
    } else {
        std::cmp::Ordering::Greater
    }
}

/// Hands that tie compare `Equal` even when `==` tells their cards apart by shape.
impl PartialOrd for HandRank {
    fn partial_cmp(&self, other: &HandRank) -> (r: Option<std::cmp::Ordering>)
        ensures
            r == Some(rank_order(*self, *other)),
    {
        Some(self.compare(other))
    }
}

impl vstd::std_specs::cmp::PartialOrdSpecImpl for HandRank {
    open spec fn obeys_partial_cmp_spec() -> bool {
        true
    }

    open spec fn partial_cmp_spec(&self, other: &HandRank) -> Option<std::cmp::Ordering> {
        Some(rank_order(*self, *other))
    }
}

impl Eq for HandRank {

}

impl HandRank {
    /// Numerize the hand for easy comparison: its category, and its tie-breakers
    /// packed into one integer.
    pub fn numerize(&self) -> (r: (u8, u64))
        ensures
            r.0 == self.category(),
            r.1 == self.packed(),
    {
        match self {
            HandRank::HighCard(c) => {
                let ns = [c[0].number, c[1].number, c[2].number, c[3].number, c[4].number];
                assert(ns@ =~= self.tie_breakers());
                (0, pack_numbers(&ns))
            },
            HandRank::OnePair(n, c) => {
                let ns = [*n, c[0].number, c[1].number, c[2].number];
                assert(ns@ =~= self.tie_breakers());
                (1, pack_numbers(&ns))
            },
            HandRank::TwoPairs(high, low, kicker) => {
                let ns = [*high, *low, kicker.number];
                assert(ns@ =~= self.tie_breakers());
                (2, pack_numbers(&ns))
            },
            HandRank::Triple(n, c) => {
                let ns = [*n, c[0].number, c[1].number];
                assert(ns@ =~= self.tie_breakers());
                (3, pack_numbers(&ns))
            },
            HandRank::Straight(high) => {
                let ns = [*high];
                assert(ns@ =~= self.tie_breakers());
                (4, pack_numbers(&ns))
            },
            HandRank::Flush(_, numbers) => {
                let ns = [numbers[0], numbers[1], numbers[2], numbers[3], numbers[4]];
                assert(ns@ =~= self.tie_breakers());
                (5, pack_numbers(&ns))
            },
            HandRank::FullHouse(three, pair) => {
                let ns = [*three, *pair];
                assert(ns@ =~= self.tie_breakers());
                (6, pack_numbers(&ns))
            },
            HandRank::Quads(n, kicker) => {
                let ns = [*n, kicker.number];
                assert(ns@ =~= self.tie_breakers());
                (7, pack_numbers(&ns))
            },
            HandRank::StraightFlush(c) => {
                let ns = [c.number];
                assert(ns@ =~= self.tie_breakers());
                (8, pack_numbers(&ns))
            },
        }
    }

    /// One integer that orders hands as their category and tie-breakers do.
    pub fn strength_value(&self) -> (r: u64)
        ensures
            r == self.strength(),
    {
        let (category, packed) = self.numerize();
        proof {
            lemma_packed_bound(*self);
        }
        category as u64 * 1_000_000 + packed
    }

    /// Compare two hands by category, then by their packed tie-breakers.
    pub fn compare(&self, other: &HandRank) -> (r: std::cmp::Ordering)
        ensures
            r == std::cmp::Ordering::Less <==> self.ranks_below(*other),
            r == std::cmp::Ordering::Equal <==> self.ties_with(*other),
            r == std::cmp::Ordering::Greater <==> other.ranks_below(*self),
    {
        let (category_a, packed_a) = self.numerize();
        let (category_b, packed_b) = other.numerize();
        if category_a < category_b || (category_a == category_b && packed_a < packed_b) {
            std::cmp::Ordering::Less
        } else if category_a == category_b && packed_a == packed_b {
            std::cmp::Ordering::Equal
        } else {
            std::cmp::Ordering::Greater
        }
    }

    /// Sort the given cards from the highest to the lowest, by number and then by shape.
    pub fn sort_decreasing(cards: &mut [Card])
        ensures
            final(cards)@.len() == old(cards)@.len(),
            sorted_by(final(cards)@, card_order()),
            final(cards)@.to_multiset() == old(cards)@.to_multiset(),
    {
        let n = cards.len();
        let mut i: usize = 1;
        while i < n
            invariant
                n == cards@.len(),
                1 <= i || n == 0,
                i <= n || n == 0,
                forall|a: int, b: int|
                    0 <= a < b < i && b < n ==> #[trigger] card_order()(cards@[a], cards@[b]),
                cards@.to_multiset() == old(cards)@.to_multiset(),
            decreases n - i,
        {
            let mut j: usize = i;
            while j > 0 && cards[j - 1].number.as_u8() as u64 * 4 + shape_index(cards[j - 1].shape)
                < cards[j].number.as_u8() as u64 * 4 + shape_index(cards[j].shape)
                invariant
                    n == cards@.len(),
                    1 <= i < n,
                    j <= i,
                    forall|a: int, b: int|
                        0 <= a < b <= i && a != j && b != j ==> #[trigger] card_order()(
                            cards@[a],
                            cards@[b],
                        ),
                    forall|b: int| j < b <= i ==> #[trigger] card_order()(cards@[j as int], cards@[b]),
                    cards@.to_multiset() == old(cards)@.to_multiset(),
                decreases j,
            {
                let upper = cards[j - 1];
                let lower = cards[j];
                proof {
                    lemma_swap_multiset(cards@, j - 1, j as int);
                }
                cards[j - 1] = lower;
                cards[j] = upper;
                j -= 1;
            }
            proof {
                assert forall|a: int, b: int| 0 <= a < b <= i implies #[trigger] card_order()(
                    cards@[a],
                    cards@[b],
                ) by {
                    if b == j && a < j {
                        assert(card_order()(cards@[a], cards@[j - 1]) || a == j - 1);
                    }
                }
            }
            i += 1;
        }
    }

    /// Check if the given 5 card numbers, sorted in decreasing order, form a straight.
    /// If so, return the highest number of the straight (Five for A-5-4-3-2).
    fn is_straight(numbers: [CardNumber; 5]) -> (r: Option<CardNumber>)
        requires
            numbers@[0].value() >= numbers@[1].value() >= numbers@[2].value()
                >= numbers@[3].value() >= numbers@[4].value(),
        ensures
            r == straight_high(spade_cards(numbers@)),
    {
        // Check from the biggest and from the second biggest number (A5432 is also a straight).
        let mut start: usize = 0;
        while start < 2
            invariant
                start <= 2,
                numbers@[0].value() >= numbers@[1].value() >= numbers@[2].value()
                    >= numbers@[3].value() >= numbers@[4].value(),
                start >= 1 ==> !chain_from(numbers@, 0),
                start >= 2 ==> !chain_from(numbers@, 1),
            decreases 2 - start,
        {
            let mut valid = true;
            let mut offset: usize = 0;
            while offset < 4
                invariant
                    start < 2,
                    offset <= 4,
                    valid <==> forall|o: int|
                        0 <= o < offset ==> #[trigger] follows_at(numbers@, start as int, o),
                decreases 4 - offset,
            {
                let next = numbers[(start + offset) % 5].is_next_in_cycle(
                    &numbers[(start + offset + 1) % 5],
                );
                assert(next == follows_at(numbers@, start as int, offset as int));
                if !next {
                    valid = false;
                }
                offset += 1;
            }
            assert(valid <==> chain_from(numbers@, start as int));
            if valid {
                proof {
                    lemma_chain_straight(numbers@);
                }
                return Some(numbers[start]);
            }
            start += 1;
        }
        proof {
            lemma_chain_straight(numbers@);
        }
        None
    }
}

impl HandRank {
    /// Evaluate the rank of the given 5 cards.
    pub fn new(cards: [Card; 5]) -> (r: HandRank)
        ensures
            r == hand_rank_of(cards@),
    {
        let mut sorted = cards;
        Self::sort_decreasing(&mut sorted);
        proof {
            lemma_is_hand_sorted(cards@, sorted@);
        }
        Self::classify_sorted(&sorted)
    }

    /// The rank of five cards given from the highest to the lowest.
    fn classify_sorted(s: &[Card; 5]) -> (r: HandRank)
        requires
            sorted_by(s@, card_order()),
        ensures
            r == classify(s@),
    {
        assert(card_order()(s@[0], s@[1]));
        assert(card_order()(s@[1], s@[2]));
        assert(card_order()(s@[2], s@[3]));
        assert(card_order()(s@[3], s@[4]));
        let numbers = [s[0].number, s[1].number, s[2].number, s[3].number, s[4].number];
        let flush = s[1].shape == s[0].shape && s[2].shape == s[0].shape && s[3].shape
            == s[0].shape && s[4].shape == s[0].shape;
        let straight = Self::is_straight(numbers);
        assert(straight_high(spade_cards(numbers@)) == straight_high(s@));
        let n0 = numbers[0];
        let n1 = numbers[1];
        let n2 = numbers[2];
        let n3 = numbers[3];
        let n4 = numbers[4];
        match straight {
            Some(high) => {
                if flush {
                    HandRank::StraightFlush(Card { shape: s[0].shape, number: high })
                } else {
                    HandRank::Straight(high)
                }
            },
            None => {
                if flush {
                    proof {
                        lemma_array_ext(numbers, [n0, n1, n2, n3, n4]);
                    }
                    HandRank::Flush(s[0].shape, numbers)
                } else if n0 == n3 {
                    HandRank::Quads(n0, s[4])
                } else if n1 == n4 {
                    HandRank::Quads(n1, s[0])
                } else if n0 == n2 && n3 == n4 {
                    HandRank::FullHouse(n0, n3)
                } else if n0 == n1 && n2 == n4 {
                    HandRank::FullHouse(n2, n0)
                } else if n0 == n2 {
                    HandRank::Triple(n0, [s[3], s[4]])
                } else if n1 == n3 {
                    HandRank::Triple(n1, [s[0], s[4]])
                } else if n2 == n4 {
                    HandRank::Triple(n2, [s[0], s[1]])
                } else if n0 == n1 && n2 == n3 {
                    HandRank::TwoPairs(n0, n2, s[4])
                } else if n0 == n1 && n3 == n4 {
                    HandRank::TwoPairs(n0, n3, s[2])
                } else if n1 == n2 && n3 == n4 {
                    HandRank::TwoPairs(n1, n3, s[0])
                } else if n0 == n1 {
                    HandRank::OnePair(n0, [s[2], s[3], s[4]])
                } else if n1 == n2 {
                    HandRank::OnePair(n1, [s[0], s[3], s[4]])
                } else if n2 == n3 {
                    HandRank::OnePair(n2, [s[0], s[1], s[4]])
                } else if n3 == n4 {
                    HandRank::OnePair(n3, [s[0], s[1], s[2]])
                } else {
                    proof {
                        lemma_array_ext(*s, [s@[0], s@[1], s@[2], s@[3], s@[4]]);
                    }
                    HandRank::HighCard(*s)
                }
            },
        }
    }

    /// Find the best hand among the 21 ways to choose five of the seven cards.
    pub fn find_best5(cards: [Card; 7]) -> (r: ([Card; 5], HandRank))
        ensures
            r.1 == hand_rank_of(r.0@),
            exists|i: int, j: int| 0 <= i < j < 7 && r.0@ == five_without(cards@, i, j),
            forall|i: int, j: int|
                0 <= i < j < 7 ==> #[trigger] hand_rank_of(five_without(cards@, i, j)).strength()
                    <= r.1.strength(),
    {
        let first = Self::five_without_exec(&cards, 0, 1);
        let mut best_cards = first;
        let mut best = Self::new(first);
        let mut best_value = best.strength_value();
        let mut i: usize = 0;
        while i < 6
            invariant
                i <= 6,
                best == hand_rank_of(best_cards@),
                best_value == best.strength(),
                exists|a: int, b: int| 0 <= a < b < 7 && best_cards@ == five_without(cards@, a, b),
                forall|a: int, b: int|
                    0 <= a < i && a < b < 7 ==> #[trigger] hand_rank_of(
                        five_without(cards@, a, b),
                    ).strength() <= best.strength(),
            decreases 6 - i,
        {
            let mut j: usize = i + 1;
            while j < 7
                invariant
                    i < 6,
                    i < j <= 7,
                    best == hand_rank_of(best_cards@),
                    best_value == best.strength(),
                    exists|a: int, b: int|
                        0 <= a < b < 7 && best_cards@ == five_without(cards@, a, b),
                    forall|a: int, b: int|
                        0 <= a < i && a < b < 7 ==> #[trigger] hand_rank_of(
                            five_without(cards@, a, b),
                        ).strength() <= best.strength(),
                    forall|b: int|
                        i < b < j ==> #[trigger] hand_rank_of(
                            five_without(cards@, i as int, b),
                        ).strength() <= best.strength(),
                decreases 7 - j,
            {
                let candidate_cards = Self::five_without_exec(&cards, i, j);
                let candidate = Self::new(candidate_cards);
                let value = candidate.strength_value();
                if value > best_value {
                    best_cards = candidate_cards;
                    best = candidate;
                    best_value = value;
                }
                j += 1;
            }
            i += 1;
        }
        (best_cards, best)
    }

    /// The five cards left when positions `i` and `j` are taken out of seven.
    fn five_without_exec(cards: &[Card; 7], i: usize, j: usize) -> (r: [Card; 5])
        requires
            i < j < 7,
        ensures
            r@ == five_without(cards@, i as int, j as int),
    {
        let mut out = [cards[0];5];
        let mut m: usize = 0;
        while m < 5
            invariant
                i < j < 7,
                m <= 5,
                forall|k: int| 0 <= k < m ==> out@[k] == cards@[kept_index(k, i as int, j as int)],
            decreases 5 - m,
        {
            let index = if m < i {
                m
            } else if m + 1 < j {
                m + 1
            } else {
                m + 2
            };
            out[m] = cards[index];
            m += 1;
        }
        assert(out@ =~= five_without(cards@, i as int, j as int));
        out
    }
}

/// Position in seven cards of the `m`-th card kept when positions `i < j` are left out.
pub open spec fn kept_index(m: int, i: int, j: int) -> int {
    if m < i {
        m
    } else if m + 1 < j {
        m + 1
    } else {
        m + 2
    }
}

/// The five cards left when positions `i < j` are taken out of seven.
pub open spec fn five_without(c: Seq<Card>, i: int, j: int) -> Seq<Card> {
    Seq::new(5, |m: int| c[kept_index(m, i, j)])
}

/// Whether `v` is the strength of the best five of the seven cards `c`.
pub open spec fn is_best_strength(c: Seq<Card>, v: int) -> bool {
    &&& exists|i: int, j: int|
        0 <= i < j < 7 && #[trigger] hand_rank_of(five_without(c, i, j)).strength() == v
    &&& forall|i: int, j: int|
        0 <= i < j < 7 ==> #[trigger] hand_rank_of(five_without(c, i, j)).strength() <= v
}

/// Strength of the best five of seven cards.
pub open spec fn best_strength(c: Seq<Card>) -> int {
    choose|v: int| is_best_strength(c, v)
}

/// The best hand that `find_best5` picks has the best strength.
pub proof fn lemma_best_strength(c: Seq<Card>, v: int)
    requires
        is_best_strength(c, v),
    ensures
        best_strength(c) == v,
{
    let w = best_strength(c);
    assert(is_best_strength(c, w));
    let (i, j) = choose|i: int, j: int|
        0 <= i < j < 7 && #[trigger] hand_rank_of(five_without(c, i, j)).strength() == v;
    let (k, l) = choose|k: int, l: int|
        0 <= k < l < 7 && #[trigger] hand_rank_of(five_without(c, k, l)).strength() == w;
    assert(hand_rank_of(five_without(c, i, j)).strength() <= w);
    assert(hand_rank_of(five_without(c, k, l)).strength() <= v);
}

/// Ace, Five, Four, Three and Two of the given shapes.
pub open spec fn wheel_cards(
    s0: CardShape,
    s1: CardShape,
    s2: CardShape,
    s3: CardShape,
    s4: CardShape,
) -> Seq<Card> {
    seq![
        Card { shape: s0, number: CardNumber::Ace },
        Card { shape: s1, number: CardNumber::Five },
        Card { shape: s2, number: CardNumber::Four },
        Card { shape: s3, number: CardNumber::Three },
        Card { shape: s4, number: CardNumber::Two },
    ]
}

/// Ace, Five, Four, Three and Two, in any order, form the lowest straight, with Five high,
/// whatever their shapes; it is a straight flush exactly when the shapes agree.
pub proof fn lemma_wheel_straight(
    cards: Seq<Card>,
    s0: CardShape,
    s1: CardShape,
    s2: CardShape,
    s3: CardShape,
    s4: CardShape,
)
    requires
        cards.to_multiset() == wheel_cards(s0, s1, s2, s3, s4).to_multiset(),
    ensures
        hand_rank_of(cards) == if s0 == s1 && s0 == s2 && s0 == s3 && s0 == s4 {
            HandRank::StraightFlush(Card { shape: s0, number: CardNumber::Five })
        } else {
            HandRank::Straight(CardNumber::Five)
        },
{
    let c = wheel_cards(s0, s1, s2, s3, s4);
    assert(sorted_by(c, card_order()));
    lemma_is_hand_sorted(c, c);
    lemma_rank_permutation_invariant(cards, c);
}

/// Number of the cards whose number is `n`.
pub open spec fn rank_count(cards: Seq<Card>, n: CardNumber) -> int
    decreases cards.len(),
{
    if cards.len() == 0 {
        0
    } else {
        rank_count(cards.drop_last(), n) + if cards.last().number == n {
            1int
        } else {
            0int
        }
    }
}

/// The category that the multiplicities of numbers give a hand that is neither a straight nor
/// a flush: four of a kind (7), three and a pair (6), three (3), two pairs (2), one pair (1),
/// nothing (0).
pub open spec fn category_by_counts(cards: Seq<Card>) -> int {
    if exists|n: CardNumber| #[trigger] rank_count(cards, n) >= 4 {
        7
    } else if (exists|n: CardNumber| #[trigger] rank_count(cards, n) == 3) && (exists|
        m: CardNumber,
    | #[trigger] rank_count(cards, m) == 2) {
        6
    } else if exists|n: CardNumber| #[trigger] rank_count(cards, n) == 3 {
        3
    } else if exists|n: CardNumber, m: CardNumber|
        n != m && #[trigger] rank_count(cards, n) == 2 && #[trigger] rank_count(cards, m) == 2 {
        2
    } else if exists|n: CardNumber| #[trigger] rank_count(cards, n) == 2 {
        1
    } else {
        0
    }
}

proof fn lemma_rank_count_remove(s: Seq<Card>, i: int, n: CardNumber)
    requires
        0 <= i < s.len(),
    ensures
        rank_count(s, n) == rank_count(s.remove(i), n) + if s[i].number == n {
            1int
        } else {
            0int
        },
    decreases s.len(),
{
    if i == s.len() - 1 {
        assert(s.remove(i) =~= s.drop_last());
    } else {
        lemma_rank_count_remove(s.drop_last(), i, n);
        assert(s.remove(i).drop_last() =~= s.drop_last().remove(i));
        assert(s.remove(i).last() == s.last());
    }
}

/// Hands that hold the same cards have the same multiplicities.
proof fn lemma_rank_count_permutation(a: Seq<Card>, b: Seq<Card>, n: CardNumber)
    requires
        a.to_multiset() == b.to_multiset(),
    ensures
        rank_count(a, n) == rank_count(b, n),
    decreases a.len(),
{
    broadcast use group_to_multiset_ensures;

    assert(a.len() == a.to_multiset().len());
    assert(b.len() == b.to_multiset().len());
    if a.len() > 0 {
        let x = a.last();
        assert(a.contains(x));
        assert(a.to_multiset().count(x) > 0);
        assert(b.contains(x));
        let j = choose|j: int| 0 <= j < b.len() && b[j] == x;
        assert(a.remove(a.len() - 1) =~= a.drop_last());
        assert(a.drop_last().to_multiset() == a.to_multiset().remove(x));
        assert(b.remove(j).to_multiset() == b.to_multiset().remove(x));
        lemma_rank_count_permutation(a.drop_last(), b.remove(j), n);
        lemma_rank_count_remove(b, j, n);
    }
}

/// The multiplicity of a number in five cards, position by position.
proof fn lemma_rank_count_five(s: Seq<Card>, n: CardNumber)
    requires
        s.len() == 5,
    ensures
        rank_count(s, n) == (if s[0].number == n {
            1int
        } else {
            0int
        }) + (if s[1].number == n {
            1int
        } else {
            0int
        }) + (if s[2].number == n {
            1int
        } else {
            0int
        }) + (if s[3].number == n {
            1int
        } else {
            0int
        }) + (if s[4].number == n {
            1int
        } else {
            0int
        }),
{
    assert(s.take(5) =~= s);
    assert(s.take(5).drop_last() =~= s.take(4));
    assert(s.take(4).drop_last() =~= s.take(3));
    assert(s.take(3).drop_last() =~= s.take(2));
    assert(s.take(2).drop_last() =~= s.take(1));
    assert(s.take(1).drop_last() =~= s.take(0));
    assert(rank_count(s.take(0), n) == 0);
    assert(rank_count(s.take(1), n) == rank_count(s.take(0), n) + if s[0].number == n {
        1int
    } else {
        0int
    });
    assert(rank_count(s.take(2), n) == rank_count(s.take(1), n) + if s[1].number == n {
        1int
    } else {
        0int
    });
    assert(rank_count(s.take(3), n) == rank_count(s.take(2), n) + if s[2].number == n {
        1int
    } else {
        0int
    });
    assert(rank_count(s.take(4), n) == rank_count(s.take(3), n) + if s[3].number == n {
        1int
    } else {
        0int
    });
}

/// Multiplicity of number `n` among the five cards of `s`, position by position.
spec fn count_in_five(s: Seq<Card>, n: CardNumber) -> int {
    (if s[0].number == n {
        1int
    } else {
        0int
    }) + (if s[1].number == n {
        1int
    } else {
        0int
    }) + (if s[2].number == n {
        1int
    } else {
        0int
    }) + (if s[3].number == n {
        1int
    } else {
        0int
    }) + (if s[4].number == n {
        1int
    } else {
        0int
    })
}

/// On five cards sorted by number, a number that occurs two, three or four times fills
/// neighbouring positions.
proof fn lemma_count_neighbours(s: Seq<Card>, n: CardNumber)
    requires
        s.len() == 5,
        s[0].number.value() >= s[1].number.value() >= s[2].number.value() >= s[3].number.value()
            >= s[4].number.value(),
    ensures
        count_in_five(s, n) <= 1 || (s[0].number == n && s[1].number == n) || (s[1].number == n
            && s[2].number == n) || (s[2].number == n && s[3].number == n) || (s[3].number == n
            && s[4].number == n),
        count_in_five(s, n) <= 2 || (s[0].number == n && s[2].number == n) || (s[1].number == n
            && s[3].number == n) || (s[2].number == n && s[4].number == n),
        count_in_five(s, n) <= 3 || (s[0].number == n && s[3].number == n) || (s[1].number == n
            && s[4].number == n),
{
}

/// The multiplicity rule on five sorted cards that form neither a straight nor a flush.
#[verifier::rlimit(50)]
proof fn lemma_classify_by_counts(s: Seq<Card>)
    requires
        s.len() == 5,
        s[0].number.value() >= s[1].number.value() >= s[2].number.value() >= s[3].number.value()
            >= s[4].number.value(),
        straight_high(s) is None,
        !is_flush(s),
    ensures
        (exists|n: CardNumber| #[trigger] count_in_five(s, n) >= 4) <==> classify(s) is Quads,
        (exists|n: CardNumber| #[trigger] count_in_five(s, n) == 3) <==> (classify(s) is FullHouse
            || classify(s) is Triple),
        (exists|n: CardNumber| #[trigger] count_in_five(s, n) == 2) <==> (classify(s) is FullHouse
            || classify(s) is TwoPairs || classify(s) is OnePair),
        (exists|n: CardNumber, m: CardNumber|
            n != m && #[trigger] count_in_five(s, n) == 2 && #[trigger] count_in_five(s, m) == 2)
            <==> classify(s) is TwoPairs,
        classify(s) matches HandRank::Quads(q, _) ==> count_in_five(s, q) >= 4,
        classify(s) matches HandRank::FullHouse(t, p) ==> count_in_five(s, t) == 3
            && count_in_five(s, p) == 2,
        classify(s) matches HandRank::Triple(t, _) ==> count_in_five(s, t) == 3,
        classify(s) matches HandRank::TwoPairs(h, l, _) ==> count_in_five(s, h) == 2
            && count_in_five(s, l) == 2 && h.value() > l.value(),
        classify(s) matches HandRank::OnePair(p, _) ==> count_in_five(s, p) == 2,
{
    let (n0, n1, n2, n3, n4) = (s[0].number, s[1].number, s[2].number, s[3].number, s[4].number);
    assert(count_in_five(s, n0) >= 1 && count_in_five(s, n1) >= 1 && count_in_five(s, n2) >= 1
        && count_in_five(s, n3) >= 1 && count_in_five(s, n4) >= 1);
    assert forall|n: CardNumber| #[trigger] count_in_five(s, n) >= 0 by {
        lemma_count_neighbours(s, n);
    }
    assert forall|n: CardNumber| count_in_five(s, n) >= 2 implies n == n0 || n == n1 || n == n2
        || n == n3 by {
        lemma_count_neighbours(s, n);
    }
}

/// On a hand that is neither a straight nor a flush, the category follows the multiplicities
/// of its numbers, and the numbers that the rank names have the multiplicities it says.
pub proof fn lemma_rank_by_multiplicity(cards: Seq<Card>)
    requires
        cards.len() == 5,
        straight_high(hand_sorted(cards)) is None,
        !is_flush(hand_sorted(cards)),
    ensures
        hand_rank_of(cards).category() == category_by_counts(cards),
        hand_rank_of(cards) matches HandRank::Quads(q, _) ==> rank_count(cards, q) >= 4,
        hand_rank_of(cards) matches HandRank::FullHouse(t, p) ==> rank_count(cards, t) == 3
            && rank_count(cards, p) == 2,
        hand_rank_of(cards) matches HandRank::Triple(t, _) ==> rank_count(cards, t) == 3,
        hand_rank_of(cards) matches HandRank::TwoPairs(h, l, _) ==> rank_count(cards, h) == 2
            && rank_count(cards, l) == 2 && h.value() > l.value(),
        hand_rank_of(cards) matches HandRank::OnePair(p, _) ==> rank_count(cards, p) == 2,
{
    broadcast use group_to_multiset_ensures;

    let s = hand_sorted(cards);
    lemma_card_order_total();
    cards.lemma_sort_by_ensures(card_order());
    assert(s.len() == s.to_multiset().len());
    assert(cards.len() == cards.to_multiset().len());
    assert(card_order()(s[0], s[1]));
    assert(card_order()(s[1], s[2]));
    assert(card_order()(s[2], s[3]));
    assert(card_order()(s[3], s[4]));
    assert forall|n: CardNumber|
        #![trigger rank_count(cards, n)]
        #![trigger count_in_five(s, n)]
        rank_count(cards, n) == count_in_five(s, n) by {
        lemma_rank_count_permutation(cards, s, n);
        lemma_rank_count_five(s, n);
    }
    lemma_classify_by_counts(s);
    assert((exists|n: CardNumber| #[trigger] rank_count(cards, n) >= 4) == (exists|n: CardNumber|
        #[trigger] count_in_five(s, n) >= 4));
    assert((exists|n: CardNumber| #[trigger] rank_count(cards, n) == 3) == (exists|n: CardNumber|
        #[trigger] count_in_five(s, n) == 3));
    assert((exists|n: CardNumber| #[trigger] rank_count(cards, n) == 2) == (exists|n: CardNumber|
        #[trigger] count_in_five(s, n) == 2));
    assert((exists|n: CardNumber, m: CardNumber|
        n != m && #[trigger] rank_count(cards, n) == 2 && #[trigger] rank_count(cards, m) == 2) == (
    exists|n: CardNumber, m: CardNumber|
        n != m && #[trigger] count_in_five(s, n) == 2 && #[trigger] count_in_five(s, m) == 2));
}

/// Cards of the given numbers; the shape does not matter to straights.
pub open spec fn spade_cards(ns: Seq<CardNumber>) -> Seq<Card> {
    seq![
        Card { shape: CardShape::Spade, number: ns[0] },
        Card { shape: CardShape::Spade, number: ns[1] },
        Card { shape: CardShape::Spade, number: ns[2] },
        Card { shape: CardShape::Spade, number: ns[3] },
        Card { shape: CardShape::Spade, number: ns[4] },
    ]
}

/// Whether the number at cyclic position `start + o` follows the one after it.
pub open spec fn follows_at(ns: Seq<CardNumber>, start: int, o: int) -> bool {
    ns[(start + o) % 5].follows(ns[(start + o + 1) % 5])
}

/// Whether the five numbers, read cyclically from `start`, step down one at a time.
pub open spec fn chain_from(ns: Seq<CardNumber>, start: int) -> bool {
    forall|o: int| 0 <= o < 4 ==> #[trigger] follows_at(ns, start, o)
}

/// On sorted numbers, a chain from the first is a run of consecutive numbers,
/// and a chain from the second is A-5-4-3-2.
proof fn lemma_chain_straight(ns: Seq<CardNumber>)
    requires
        ns.len() == 5,
        ns[0].value() >= ns[1].value() >= ns[2].value() >= ns[3].value() >= ns[4].value(),
    ensures
        chain_from(ns, 0) ==> straight_high(spade_cards(ns)) == Some(ns[0]),
        !chain_from(ns, 0) && chain_from(ns, 1) ==> straight_high(spade_cards(ns)) == Some(ns[1]),
        !chain_from(ns, 0) && !chain_from(ns, 1) ==> straight_high(spade_cards(ns)) is None,
{
    let s = spade_cards(ns);
    assert(follows_at(ns, 0, 0) == ns[0].follows(ns[1]));
    assert(follows_at(ns, 0, 1) == ns[1].follows(ns[2]));
    assert(follows_at(ns, 0, 2) == ns[2].follows(ns[3]));
    assert(follows_at(ns, 0, 3) == ns[3].follows(ns[4]));
    assert(follows_at(ns, 1, 0) == ns[1].follows(ns[2]));
    assert(follows_at(ns, 1, 1) == ns[2].follows(ns[3]));
    assert(follows_at(ns, 1, 2) == ns[3].follows(ns[4]));
    assert(follows_at(ns, 1, 3) == ns[4].follows(ns[0]));
    let consecutive = ns[0].value() == ns[1].value() + 1 && ns[1].value() == ns[2].value() + 1
        && ns[2].value() == ns[3].value() + 1 && ns[3].value() == ns[4].value() + 1;
    assert(chain_from(ns, 0) <==> consecutive);
    if chain_from(ns, 1) && !consecutive {
        assert(ns[4] == CardNumber::Two);
        assert(ns[0] == CardNumber::Ace);
    }
}

/// Shape position as an integer of the executable code.
fn shape_index(shape: CardShape) -> (r: u64)
    ensures
        r == shape.index(),
{
    match shape {
        CardShape::Spade => 0,
        CardShape::Heart => 1,
        CardShape::Diamond => 2,
        CardShape::Club => 3,
    }
}

} // verus!
