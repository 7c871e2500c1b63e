use core::cmp::Ordering;
use vstd::prelude::*;

verus! {

/// Quantities are fixed-point integers: one unit is this many ticks (a resolution of 1e-8).
pub const TICKS_PER_UNIT: u64 = 100_000_000;

/// The sum of the default instance of the problem: 8 units.
pub const DEFAULT_SUM: u64 = 800_000_000;

/// The largest sum whose scores (cubes of ticks) fit in a `u128`: 2^42 ticks, about 43980 units.
pub const MAX_SUM: u64 = 4_398_046_511_104;

/// Scores closer than 1e-10 are the same value for convergence; scores are in cubic ticks,
/// so this is 1e-10 * 1e24.
pub const MINIMUM_PRECISION: u128 = 100_000_000_000_000;

/// What a pairing stands for: the free number `first` and the fixed `sum`.
pub ghost struct PairModel {
    pub first: int,
    pub sum: int,
}

pub open spec fn abs(x: int) -> int {
    if x < 0 {
        -x
    } else {
        x
    }
}

/// A requested number reflected to its absolute value, then capped at `sum`.
pub open spec fn clamped(requested: int, sum: int) -> int {
    if abs(requested) > sum {
        sum
    } else {
        abs(requested)
    }
}

/// The pairing built from a requested number for a given sum.
pub open spec fn pairing_of(requested: int, sum: int) -> PairModel {
    PairModel { first: clamped(requested, sum), sum }
}

impl PairModel {
    pub open spec fn second(self) -> int {
        self.sum - self.first
    }

    pub open spec fn product(self) -> int {
        self.first * self.second()
    }

    pub open spec fn difference(self) -> int {
        abs(self.first - self.second())
    }

    pub open spec fn score(self) -> int {
        self.product() * self.difference()
    }

    /// Two pairings split the same sum into the same two numbers, in either order.
    pub open spec fn same_split(self, other: PairModel) -> bool {
        self.sum == other.sum && (self.first == other.first || self.first == other.second())
    }

    /// The scores of two pairings differ by less than the minimum precision.
    pub open spec fn equivalent(self, other: PairModel) -> bool {
        abs(self.score() - other.score()) < MINIMUM_PRECISION
    }

    pub open spec fn is_valid(self) -> bool {
        0 <= self.first <= self.sum <= MAX_SUM
    }

    /// The order of pairings: by score alone.
    pub open spec fn order(self, other: PairModel) -> Ordering {
        if self.score() > other.score() {
            Ordering::Greater
        } else if self.score() < other.score() {
            Ordering::Less
        } else {
            Ordering::Equal
        }
    }
}

/// Products and scores of valid pairings fit in a `u128`.
pub proof fn lemma_score_bounds(p: PairModel)
    requires
        p.is_valid(),
    ensures
        0 <= p.product() <= (MAX_SUM as int) * (MAX_SUM as int),
        0 <= p.difference() <= MAX_SUM,
        0 <= p.score() <= (MAX_SUM as int) * (MAX_SUM as int) * (MAX_SUM as int),
{
    let a = p.first;
    let b = p.second();
    let d = p.difference();
    let m = MAX_SUM as int;
    assert(0 <= a * b <= m * m) by (nonlinear_arith)
        requires
            0 <= a <= m,
            0 <= b <= m,
    ;
    assert(0 <= (a * b) * d <= (m * m) * m) by (nonlinear_arith)
        requires
            0 <= a * b <= m * m,
            0 <= d <= m,
    ;
}

/// Pairings that split a sum the same way have the same score.
pub proof fn lemma_same_split_same_score(p: PairModel, q: PairModel)
    requires
        p.same_split(q),
    ensures
        p.score() == q.score(),
        q.same_split(p),
{
    if p.first != q.first {
        let a = q.first;
        let b = q.second();
        assert(a * b == b * a) by (nonlinear_arith);
    }
}

/// For every sum and every requested number, the pairing keeps its first number between zero
/// and the sum, and its second number is the sum less the first.
pub proof fn lemma_pairing_in_range(requested: int, sum: int)
    requires
        0 <= sum,
    ensures
        pairing_of(requested, sum).second() == sum - pairing_of(requested, sum).first,
        0 <= pairing_of(requested, sum).first <= sum,
{
}

/// Building a pairing again from a pairing's first number leaves that number as it is.
pub proof fn lemma_clamp_idempotent(requested: int, sum: int)
    requires
        0 <= sum,
    ensures
        pairing_of(pairing_of(requested, sum).first, sum).first == pairing_of(requested, sum).first,
{
}

/// The pairings of `a` and of `b` with the sum `a + b` are equal: equality does not care
/// which of the two numbers is stored.
pub proof fn lemma_swapped_pairings_equal(a: int, b: int)
    requires
        0 <= a,
        0 <= b,
    ensures
        pairing_of(a, a + b).same_split(pairing_of(b, a + b)),
{
}

/// Pairings of one sum are ordered as their scores are: one is less than another exactly when
/// its score is smaller.
pub proof fn lemma_order_by_score(p: PairModel, q: PairModel)
    requires
        p.sum == q.sum,
    ensures
        (p.order(q) == Ordering::Less) <==> p.score() < q.score(),
        (p.order(q) == Ordering::Greater) <==> p.score() > q.score(),
{
}

/// A candidate split of a fixed sum into `first` and `second == sum - first`.
#[derive(Clone, Copy, Hash)]
pub struct NumberPairing {
    one_number: u64,
    sum: u64,
}

impl View for NumberPairing {
    type V = PairModel;

    closed spec fn view(&self) -> PairModel {
        PairModel { first: self.one_number as int, sum: self.sum as int }
    }
}

impl NumberPairing {
    #[verifier::type_invariant]
    spec fn inv(&self) -> bool {
        self.one_number <= self.sum && self.sum <= MAX_SUM
    }

    pub fn first(&self) -> (r: u64)
        ensures
            r == self@.first,
            self@.is_valid(),
    {
        proof {
            use_type_invariant(self);
        }
        self.one_number
    }

    pub fn set_first(&mut self, requested_number: i64)
        ensures
            final(self)@ == pairing_of(requested_number as int, old(self)@.sum),
    {
        proof {
            use_type_invariant(&*self);
        }
        self.one_number = self.validate_and_correct(requested_number);
    }

    pub fn second(&self) -> (r: u64)
        ensures
            r == self@.second(),
    {
        proof {
            use_type_invariant(self);
        }
        self.sum - self.one_number
    }

    pub fn set_second(&mut self, requested_number: i64)
        ensures
            final(self)@ == (PairModel {
                first: old(self)@.sum - clamped(requested_number as int, old(self)@.sum),
                sum: old(self)@.sum,
            }),
    {
        proof {
            use_type_invariant(&*self);
        }
        let corrected = self.validate_and_correct(requested_number);
        self.one_number = self.sum - corrected;
    }

    pub fn sum(&self) -> (r: u64)
        ensures
            r == self@.sum,
    {
        self.sum
    }

    pub fn product(&self) -> (r: u128)
        ensures
            r == self@.product(),
    {
        proof {
            use_type_invariant(self);
            lemma_score_bounds(self@);
        }
        (self.one_number as u128) * (self.second() as u128)
    }

    pub fn difference(&self) -> (r: u64)
        ensures
            r == self@.difference(),
    {
        let second = self.second();
        if self.one_number >= second {
            self.one_number - second
        } else {
            second - self.one_number
        }
    }

    /// The score of the pairing: its product times its difference.
    pub fn result(&self) -> (r: u128)
        ensures
            r == self@.score(),
    {
        proof {
            use_type_invariant(self);
            lemma_score_bounds(self@);
        }
        self.product() * (self.difference() as u128)
    }

    pub fn new(requested_number: i64, sum: u64) -> (r: Self)
        requires
            sum <= MAX_SUM,
        ensures
            r@ == pairing_of(requested_number as int, sum as int),
    {
        NumberPairing { one_number: Self::validate_and_correct_input(requested_number, sum), sum }
    }

    /// A pairing of the default sum.
    pub fn default(requested_number: i64) -> (r: Self)
        ensures
            r@ == pairing_of(requested_number as int, DEFAULT_SUM as int),
    {
        let sum = Self::default_sum();
        NumberPairing { one_number: Self::validate_and_correct_input(requested_number, sum), sum }
    }

    /// How far apart the scores of two pairings are.
    pub fn difference_from(&self, other: &Self) -> (r: u128)
        ensures
            r == abs(self@.score() - other@.score()),
    {
        let mine = self.result();
        let theirs = other.result();
        if mine >= theirs {
            mine - theirs
        } else {
            theirs - mine
        }
    }

    /// Whether two scores are close enough to count as the same value; the pairings
    /// themselves may still differ.
    pub fn is_equivalent_to(&self, other: &Self) -> (r: bool)
        ensures
            r == self@.equivalent(other@),
    {
        self.difference_from(other) < Self::minimum_precision()
    }

    fn validate_and_correct(&self, requested_number: i64) -> (r: u64)
        ensures
            r == clamped(requested_number as int, self@.sum),
    {
        Self::validate_and_correct_input(requested_number, self.sum)
    }

    fn validate_and_correct_input(requested_number: i64, sum: u64) -> (r: u64)
        ensures
            r == clamped(requested_number as int, sum as int),
    {
        let non_negative: u64 = if requested_number >= 0 {
            requested_number as u64
        } else {
            (-(requested_number as i128)) as u64
        };
        if non_negative > sum {
            sum
        } else {
            non_negative
        }
    }

    pub fn default_sum() -> (r: u64)
        ensures
            r == DEFAULT_SUM,
    {
        DEFAULT_SUM
    }

    fn minimum_precision() -> (r: u128)
        ensures
            r == MINIMUM_PRECISION,
    {
        MINIMUM_PRECISION
    }
}

impl PartialEq for NumberPairing {
    fn eq(&self, other: &Self) -> (r: bool) {
        let sums_are_equal = self.sum == other.sum;
        let stored_are_equal = self.first() == other.first();
        let stored_is_equal_to_inverse = self.first() == other.second();
        sums_are_equal && (stored_are_equal || stored_is_equal_to_inverse)
    }
}

impl vstd::std_specs::cmp::PartialEqSpecImpl for NumberPairing {
    open spec fn obeys_eq_spec() -> bool {
        true
    }

    open spec fn eq_spec(&self, other: &NumberPairing) -> bool {
        self@.same_split(other@)
    }
}

impl PartialOrd for NumberPairing {
    fn partial_cmp(&self, other: &Self) -> (r: Option<Ordering>) {
        let l_result = self.result();
        let r_result = other.result();
        if l_result > r_result {
            Some(Ordering::Greater)
        } else if l_result < r_result {
            Some(Ordering::Less)
        } else {
            Some(Ordering::Equal)
        }
    }
}

impl vstd::std_specs::cmp::PartialOrdSpecImpl for NumberPairing {
    open spec fn obeys_partial_cmp_spec() -> bool {
        true
    }

    open spec fn partial_cmp_spec(&self, other: &NumberPairing) -> Option<Ordering> {
        Some(self@.order(other@))
    }
}

} // verus!
