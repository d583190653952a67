//! Snowball metrics: how fast generations grow.

use vstd::arithmetic::power2::*;
use vstd::prelude::*;

use crate::accuracy;
use crate::binary64::{Binary64, Value};
use crate::bootstrap;
use crate::bootstrap::GrowthCheckView;
use crate::metrics::SessionMetrics;
use crate::order;
use crate::rounding;

verus! {

/// Growth rate between consecutive generations.
#[derive(Debug, Clone, Copy)]
pub struct GrowthRate {
    pub from_gen: u32,
    pub to_gen: u32,
    /// Ratio: two means doubled.
    pub loc_rate: Binary64,
    pub test_rate: Binary64,
    pub feature_rate: Binary64,
    /// Absolute change.
    pub surprise_delta: Binary64,
}

/// What a growth rate says.
pub struct GrowthRateView {
    pub from_gen: u32,
    pub to_gen: u32,
    pub loc_rate: Value,
    pub test_rate: Value,
    pub feature_rate: Value,
    pub surprise_delta: Value,
}

impl View for GrowthRate {
    type V = GrowthRateView;

    open spec fn view(&self) -> GrowthRateView {
        GrowthRateView {
            from_gen: self.from_gen,
            to_gen: self.to_gen,
            loc_rate: self.loc_rate@,
            test_rate: self.test_rate@,
            feature_rate: self.feature_rate@,
            surprise_delta: self.surprise_delta@,
        }
    }
}

/// What a count is multiplied with from one generation to the next; one
/// where there was nothing before.
pub open spec fn rate(before: usize, after: usize) -> Value {
    if before > 0 {
        Value::natural(after as nat).over(Value::natural(before as nat))
    } else {
        Value::ratio(1, 1)
    }
}

impl GrowthRateView {
    /// The growth from one generation to the next.
    pub open spec fn between(before: SessionMetrics, after: SessionMetrics) -> GrowthRateView {
        GrowthRateView {
            from_gen: before.generation,
            to_gen: after.generation,
            loc_rate: rate(before.total_loc, after.total_loc),
            test_rate: rate(before.total_tests, after.total_tests),
            feature_rate: rate(before.total_features, after.total_features),
            surprise_delta: after.avg_surprise@.minus(before.avg_surprise@),
        }
    }

    /// Whether no lines, tests or features were lost. Surprise is measured,
    /// and decides nothing.
    pub open spec fn grows(self) -> bool {
        &&& self.loc_rate.at_least(Value::ratio(1, 1))
        &&& self.test_rate.at_least(Value::ratio(1, 1))
        &&& self.feature_rate.at_least(Value::ratio(1, 1))
    }

    /// The mean of the three rates.
    pub open spec fn mean(self) -> Value {
        self.loc_rate.plus(self.test_rate).plus(self.feature_rate).over(Value::ratio(3, 1))
    }
}

/// What the growth rates of a list say.
pub open spec fn growths(list: Seq<GrowthRate>) -> Seq<GrowthRateView> {
    list.map_values(|g: GrowthRate| g@)
}

/// The means of the rates, added up in order.
pub open spec fn sum_of_means(list: Seq<GrowthRateView>) -> Value
    decreases list.len(),
{
    if list.len() == 0 {
        Value::Finite { negative: true, units: 0 }
    } else {
        sum_of_means(list.drop_last()).plus(list.last().mean())
    }
}

/// The mean over all steps; zero where there is none.
pub open spec fn average_of_means(list: Seq<GrowthRateView>) -> Value {
    if list.len() == 0 {
        Value::Finite { negative: false, units: 0 }
    } else {
        sum_of_means(list).over(Value::natural(list.len()))
    }
}

/// Snowball growth tracker: tracks metrics across generations.
#[derive(Debug, Clone)]
pub struct SnowballTracker {
    pub generations: Vec<SessionMetrics>,
    pub growth_rates: Vec<GrowthRate>,
}

/// Whether a tracker has one generation more than before: its metrics, and
/// the growth from the generation before it where there is one.
pub open spec fn recorded(
    before: SnowballTracker,
    metrics: SessionMetrics,
    after: SnowballTracker,
) -> bool {
    &&& after.generations@ == before.generations@.push(metrics)
    &&& growths(after.growth_rates@) == (if before.generations@.len() == 0 {
        growths(before.growth_rates@)
    } else {
        growths(before.growth_rates@).push(
            GrowthRateView::between(before.generations@.last(), metrics),
        )
    })
}

fn rate_between(before: usize, after: usize) -> (r: Binary64)
    ensures
        r@ == rate(before, after),
{
    if before > 0 {
        Binary64::from_u64(after as u64).div(Binary64::from_u64(before as u64))
    } else {
        Binary64::ratio(1, 1)
    }
}

impl SnowballTracker {
    /// Whether the rates are those between the recorded generations.
    pub open spec fn consistent(self) -> bool {
        &&& self.growth_rates@.len() == (if self.generations@.len() == 0 {
            0
        } else {
            self.generations@.len() - 1
        })
        &&& forall|i: int|
            0 <= i < self.growth_rates@.len() ==> (#[trigger] self.growth_rates@[i])@
                == GrowthRateView::between(self.generations@[i], self.generations@[i + 1])
    }

    /// Whether every step grows.
    pub open spec fn growing(self) -> bool {
        forall|i: int|
            0 <= i < self.growth_rates@.len() ==> (#[trigger] self.growth_rates@[i])@.grows()
    }

    pub fn new() -> (t: SnowballTracker)
        ensures
            t.generations@ == Seq::<SessionMetrics>::empty(),
            t.growth_rates@ == Seq::<GrowthRate>::empty(),
            t.consistent(),
    {
        SnowballTracker { generations: Vec::new(), growth_rates: Vec::new() }
    }

    /// Records a generation's metrics.
    pub fn record(&mut self, metrics: SessionMetrics)
        ensures
            recorded(*old(self), metrics, *final(self)),
            old(self).consistent() ==> final(self).consistent(),
    {
        let n: usize = self.generations.len();
        if n > 0 {
            let prev: SessionMetrics = self.generations[n - 1];
            let growth = GrowthRate {
                from_gen: prev.generation,
                to_gen: metrics.generation,
                loc_rate: rate_between(prev.total_loc, metrics.total_loc),
                test_rate: rate_between(prev.total_tests, metrics.total_tests),
                feature_rate: rate_between(prev.total_features, metrics.total_features),
                surprise_delta: metrics.avg_surprise.sub(prev.avg_surprise),
            };
            self.growth_rates.push(growth);
            assert(growths(self.growth_rates@) =~= growths(old(self).growth_rates@).push(growth@));
        }
        self.generations.push(metrics);
    }

    /// Is the snowball growing? Each generation should have no less output
    /// than the previous one: no fewer lines, tests and features. The change
    /// of surprise decides nothing.
    pub fn is_growing(&self) -> (r: bool)
        ensures
            r == self.growing(),
    {
        let one: Binary64 = Binary64::ratio(1, 1);
        let mut i: usize = 0;
        while i < self.growth_rates.len()
            invariant
                i <= self.growth_rates@.len(),
                one@ == Value::ratio(1, 1),
                forall|k: int| 0 <= k < i ==> (#[trigger] self.growth_rates@[k])@.grows(),
            decreases self.growth_rates@.len() - i,
        {
            let g: &GrowthRate = &self.growth_rates[i];
            if !(g.loc_rate.ge(one) && g.test_rate.ge(one) && g.feature_rate.ge(one)) {
                assert(!self.growth_rates@[i as int]@.grows());
                return false;
            }
            i = i + 1;
        }
        true
    }

    /// Average growth rate across all generations.
    pub fn avg_growth_rate(&self) -> (r: Binary64)
        ensures
            r@ == average_of_means(growths(self.growth_rates@)),
    {
        let n: usize = self.growth_rates.len();
        if n == 0 {
            return Binary64::zero();
        }
        let ghost all = growths(self.growth_rates@);
        let mut sum: Binary64 = Binary64::zero().neg();
        let mut i: usize = 0;
        assert(all.take(0) =~= Seq::empty());
        while i < n
            invariant
                i <= n == self.growth_rates@.len(),
                all == growths(self.growth_rates@),
                sum@ == sum_of_means(all.take(i as int)),
            decreases n - i,
        {
            let g: &GrowthRate = &self.growth_rates[i];
            let mean: Binary64 = g.loc_rate.add(g.test_rate).add(g.feature_rate).div(
                Binary64::ratio(3, 1),
            );
            sum = sum.add(mean);
            proof {
                assert(all.take(i + 1).drop_last() =~= all.take(i as int));
                assert(all.take(i + 1).last() == g@);
            }
            i = i + 1;
        }
        assert(all.take(n as int) =~= all);
        sum.div(Binary64::from_u64(n as u64))
    }
}

/// A growth rate says growth just where no lines, tests or features, each
/// taken to the nearest number, became fewer.
pub proof fn rates_tell_the_order(before: SessionMetrics, after: SessionMetrics)
    ensures
        GrowthRateView::between(before, after).grows() <==> {
            &&& order::natural_units(before.total_loc as nat) <= order::natural_units(
                after.total_loc as nat,
            )
            &&& order::natural_units(before.total_tests as nat) <= order::natural_units(
                after.total_tests as nat,
            )
            &&& order::natural_units(before.total_features as nat) <= order::natural_units(
                after.total_features as nat,
            )
        },
{
    lemma_rate_tells_the_order(before.total_loc, after.total_loc);
    lemma_rate_tells_the_order(before.total_tests, after.total_tests);
    lemma_rate_tells_the_order(before.total_features, after.total_features);
}

proof fn lemma_rate_tells_the_order(before: usize, after: usize)
    ensures
        rate(before, after).at_least(Value::ratio(1, 1)) <==> order::natural_units(before as nat)
            <= order::natural_units(after as nat),
{
    if before > 0 {
        order::quotients_tell_the_order(before as nat, after as nat);
    } else {
        order::naturals_are_finite(0);
        order::small_naturals_are_exact(1);
    }
}

/// The growth check of the bootstrap verifier and the growth rates of the
/// tracker never disagree on whether a chain of generations is growing.
pub proof fn growth_check_and_tracker_agree(t: SnowballTracker)
    requires
        t.consistent(),
    ensures
        GrowthCheckView::of(t.generations@).growing <==> (forall|i: int|
            0 <= i < t.growth_rates@.len() ==> (#[trigger] t.growth_rates@[i])@.grows()),
{
    let chain = t.generations@;
    assert forall|i: int| 0 <= i < t.growth_rates@.len() implies (
    #[trigger] t.growth_rates@[i])@.grows() == GrowthCheckView::grows_at(chain, i) by {
        rates_tell_the_order(chain[i], chain[i + 1]);
        bootstrap::lemma_grows_at(chain, i);
    }
    if GrowthCheckView::of(chain).growing {
        assert forall|i: int| 0 <= i < t.growth_rates@.len() implies (
        #[trigger] t.growth_rates@[i])@.grows() by {
            assert(GrowthCheckView::grows_at(chain, i));
        }
    }
    if forall|i: int|
        0 <= i < t.growth_rates@.len() ==> (#[trigger] t.growth_rates@[i])@.grows() {
        assert forall|i: int| 0 <= i < GrowthCheckView::steps(
            chain,
        ) implies #[trigger] GrowthCheckView::grows_at(chain, i) by {
            assert(t.growth_rates@[i]@.grows());
        }
    }
}

/// A count that is multiplied has just that rate, as long as it stays within
/// 2 to the power of 53.
pub proof fn multiples_have_their_factor_as_rate(before: usize, factor: nat, after: usize)
    requires
        before > 0,
        after == factor * before,
        after <= rounding::SIGNIFICAND_LIMIT,
        before <= rounding::SIGNIFICAND_LIMIT,
    ensures
        rate(before, after) == Value::natural(factor),
{
    let b = before as nat;
    let unit = pow2(1074);
    assert(factor <= rounding::SIGNIFICAND_LIMIT) by (nonlinear_arith)
        requires
            factor * b <= rounding::SIGNIFICAND_LIMIT,
            b >= 1,
    ;
    order::small_naturals_are_exact(b);
    order::small_naturals_are_exact(after as nat);
    lemma_pow2_pos(1074);
    assert(b * unit > 0) by (nonlinear_arith)
        requires
            b > 0,
            unit > 0,
    ;
    assert((factor * b * unit * unit) * 1 == (factor * unit) * (b * unit)) by (nonlinear_arith);
    order::rounding_goes_by_the_fraction(factor * b * unit * unit, b * unit, factor * unit, 1);
}

proof fn lemma_mean_of_growth(g: GrowthRateView)
    requires
        g.grows(),
    ensures
        g.mean().at_least(Value::ratio(1, 1)),
{
    let one = Value::ratio(1, 1);
    let three = Value::ratio(3, 1);
    order::small_naturals_are_exact(1);
    order::small_naturals_are_exact(2);
    order::small_naturals_are_exact(3);
    order::small_naturals_add_up(1, 1);
    order::small_naturals_add_up(2, 1);
    order::small_naturals_cancel(3);
    lemma_pow2_pos(1074);
    order::sums_keep_order(one, g.loc_rate, one, g.test_rate);
    let two_rates = g.loc_rate.plus(g.test_rate);
    order::sums_keep_order(Value::natural(2), two_rates, one, g.feature_rate);
    order::quotients_keep_order(three, two_rates.plus(g.feature_rate), three);
}

proof fn lemma_sum_of_growth(list: Seq<GrowthRateView>)
    requires
        list.len() <= rounding::SIGNIFICAND_LIMIT,
        forall|i: int| 0 <= i < list.len() ==> (#[trigger] list[i]).grows(),
    ensures
        sum_of_means(list).at_least(Value::natural(list.len())),
    decreases list.len(),
{
    order::small_naturals_are_exact(list.len());
    if list.len() > 0 {
        let front = list.drop_last();
        let last = list.last();
        assert(last == list[list.len() - 1]);
        lemma_sum_of_growth(front);
        lemma_mean_of_growth(last);
        order::small_naturals_are_exact(1);
        order::small_naturals_are_exact(front.len());
        order::small_naturals_add_up(front.len(), 1);
        order::sums_keep_order(
            Value::natural(front.len()),
            sum_of_means(front),
            Value::natural(1),
            last.mean(),
        );
    }
}

/// Where every step grows, the average growth rate is not below one, as long
/// as there are at most 2 to the power of 53 steps.
pub proof fn growth_everywhere_is_growth_on_average(list: Seq<GrowthRateView>)
    requires
        0 < list.len() <= rounding::SIGNIFICAND_LIMIT,
        forall|i: int| 0 <= i < list.len() ==> (#[trigger] list[i]).grows(),
    ensures
        average_of_means(list).at_least(Value::ratio(1, 1)),
{
    let n = list.len();
    lemma_sum_of_growth(list);
    order::small_naturals_are_exact(n);
    order::small_naturals_cancel(n);
    lemma_pow2_pos(1074);
    assert(n * pow2(1074) > 0) by (nonlinear_arith)
        requires
            n > 0,
            pow2(1074) > 0,
    ;
    order::quotients_keep_order(Value::natural(n), sum_of_means(list), Value::natural(n));
}

/// Whether a rate is that between two counts: one where there was nothing
/// before, and else their quotient, up to rounding.
pub open spec fn fits_rate(rate: Value, before: usize, after: usize) -> bool {
    let quotient = if before == 0 {
        1real
    } else {
        after as real / before as real
    };
    &&& rate is Finite
    &&& accuracy::size(accuracy::exact(rate) - quotient) <= 4real * (accuracy::grain() * quotient)
        + accuracy::speck()
    &&& before == 0 ==> accuracy::exact(rate) == 1real
}

proof fn lemma_rate_fits(before: usize, after: usize)
    ensures
        fits_rate(rate(before, after), before, after),
{
    accuracy::lemma_speck_is_small();
    if before > 0 {
        accuracy::rates_are_close(after as nat, before as nat);
    } else {
        order::small_naturals_are_exact(1);
        accuracy::naturals_are_close(1);
    }
}

/// The growth from one generation to the next goes by the counts of both: each
/// rate is the later count divided by the earlier one, and surprise changes by
/// the difference, up to rounding.
pub proof fn growth_goes_by_the_counts(before: SessionMetrics, after: SessionMetrics)
    ensures
        ({
            let g = GrowthRateView::between(before, after);
            &&& g.from_gen == before.generation
            &&& g.to_gen == after.generation
            &&& fits_rate(g.loc_rate, before.total_loc, after.total_loc)
            &&& fits_rate(g.test_rate, before.total_tests, after.total_tests)
            &&& fits_rate(g.feature_rate, before.total_features, after.total_features)
            &&& before.avg_surprise@ is Finite && after.avg_surprise@ is Finite ==> {
                let change = accuracy::exact(after.avg_surprise@) - accuracy::exact(
                    before.avg_surprise@,
                );
                accuracy::size(change) <= accuracy::huge() ==> g.surprise_delta is Finite
                    && accuracy::size(accuracy::exact(g.surprise_delta) - change)
                    <= accuracy::grain() * accuracy::size(change)
            }
        }),
{
    lemma_rate_fits(before.total_loc, after.total_loc);
    lemma_rate_fits(before.total_tests, after.total_tests);
    lemma_rate_fits(before.total_features, after.total_features);
    let a = after.avg_surprise@;
    let b = before.avg_surprise@;
    if a is Finite && b is Finite && accuracy::size(accuracy::exact(a) - accuracy::exact(b))
        <= accuracy::huge() {
        accuracy::differences_are_close(a, b);
    }
}

/// Whether the three rates of a step are finite.
pub open spec fn finite_rates(g: GrowthRateView) -> bool {
    g.loc_rate is Finite && g.test_rate is Finite && g.feature_rate is Finite
}

/// The exact sum of the three rates of a step.
pub open spec fn rates_sum(g: GrowthRateView) -> real {
    accuracy::exact(g.loc_rate) + accuracy::exact(g.test_rate) + accuracy::exact(g.feature_rate)
}

/// The exact sum of the sizes of the three rates of a step.
pub open spec fn rates_size(g: GrowthRateView) -> real {
    accuracy::size(accuracy::exact(g.loc_rate)) + accuracy::size(accuracy::exact(g.test_rate))
        + accuracy::size(accuracy::exact(g.feature_rate))
}

/// The mean of the rates of a step is a third of their sum, up to rounding.
pub proof fn means_of_rates_are_close(g: GrowthRateView)
    requires
        finite_rates(g),
        rates_size(g) * 1000real <= accuracy::huge(),
    ensures
        g.mean() is Finite,
        accuracy::size(accuracy::exact(g.mean()) - rates_sum(g) / 3real) <= 2real * (
        accuracy::grain() * rates_size(g)) + accuracy::speck(),
{
    lemma_mean_of_three(g.loc_rate, g.test_rate, g.feature_rate);
}

/// The sum of three numbers.
proof fn lemma_sum_of_three(a: Value, b: Value, c: Value)
    requires
        a is Finite,
        b is Finite,
        c is Finite,
        (accuracy::size(accuracy::exact(a)) + accuracy::size(accuracy::exact(b)) + accuracy::size(
            accuracy::exact(c),
        )) * 1000real <= accuracy::huge(),
    ensures
        a.plus(b).plus(c) is Finite,
        ({
            let x = accuracy::exact(a);
            let y = accuracy::exact(b);
            let z = accuracy::exact(c);
            let q = accuracy::exact(a.plus(b).plus(c));
            let m = accuracy::size(x) + accuracy::size(y) + accuracy::size(z);
            let em = accuracy::grain() * m;
            &&& accuracy::size(q / 3real) <= (1real / 2real) * m
            &&& accuracy::grain() * accuracy::size(q / 3real) <= (1real / 2real) * em
            &&& accuracy::size(q / 3real - (x + y + z) / 3real) <= (7real / 10real) * em
            &&& em >= 0real
        }),
{
    let x = accuracy::exact(a);
    let y = accuracy::exact(b);
    let z = accuracy::exact(c);
    let p = a.plus(b);
    accuracy::sums_are_close(a, b);
    lemma_two_sums(x, y, z, accuracy::exact(p));
    accuracy::sums_are_close(p, c);
    lemma_third(x, y, z, accuracy::exact(p), accuracy::exact(p.plus(c)));
}

/// A third of the sum of three numbers.
proof fn lemma_mean_of_three(a: Value, b: Value, c: Value)
    requires
        a is Finite,
        b is Finite,
        c is Finite,
        (accuracy::size(accuracy::exact(a)) + accuracy::size(accuracy::exact(b)) + accuracy::size(
            accuracy::exact(c),
        )) * 1000real <= accuracy::huge(),
    ensures
        a.plus(b).plus(c).over(Value::ratio(3, 1)) is Finite,
        accuracy::size(
            accuracy::exact(a.plus(b).plus(c).over(Value::ratio(3, 1))) - (accuracy::exact(a)
                + accuracy::exact(b) + accuracy::exact(c)) / 3real,
        ) <= 2real * (accuracy::grain() * (accuracy::size(accuracy::exact(a)) + accuracy::size(
            accuracy::exact(b),
        ) + accuracy::size(accuracy::exact(c)))) + accuracy::speck(),
{
    let x = accuracy::exact(a);
    let y = accuracy::exact(b);
    let z = accuracy::exact(c);
    let q = a.plus(b).plus(c);
    lemma_sum_of_three(a, b, c);
    accuracy::thirds_are_close(q);
    lemma_last_step(
        accuracy::exact(q.over(Value::ratio(3, 1))),
        accuracy::exact(q) / 3real,
        (x + y + z) / 3real,
        accuracy::grain() * (accuracy::size(x) + accuracy::size(y) + accuracy::size(z)),
    );
}

proof fn lemma_last_step(w: real, t: real, target: real, em: real)
    requires
        accuracy::size(w - t) <= accuracy::grain() * accuracy::size(t) + accuracy::speck(),
        accuracy::grain() * accuracy::size(t) <= (1real / 2real) * em,
        accuracy::size(t - target) <= (7real / 10real) * em,
        em >= 0real,
    ensures
        accuracy::size(w - target) <= 2real * em + accuracy::speck(),
{
}

proof fn lemma_two_sums(x: real, y: real, z: real, p: real)
    requires
        accuracy::size(p - (x + y)) <= accuracy::grain() * accuracy::size(x + y),
    ensures
        ({
            let m = accuracy::size(x) + accuracy::size(y) + accuracy::size(z);
            &&& accuracy::size(p - (x + y)) <= accuracy::grain() * m
            &&& accuracy::size(p + z) <= (11real / 10real) * m
        }),
{
    let e = accuracy::grain();
    let m = accuracy::size(x) + accuracy::size(y) + accuracy::size(z);
    accuracy::lemma_speck_is_small();
    accuracy::lemma_scaled(accuracy::size(x + y), m, e);
    accuracy::lemma_scaled(e, 1real / 1000real, m);
}

proof fn lemma_third(x: real, y: real, z: real, p: real, q: real)
    requires
        accuracy::size(p - (x + y)) <= accuracy::grain() * (accuracy::size(x) + accuracy::size(y)
            + accuracy::size(z)),
        accuracy::size(p + z) <= (11real / 10real) * (accuracy::size(x) + accuracy::size(y)
            + accuracy::size(z)),
        accuracy::size(q - (p + z)) <= accuracy::grain() * accuracy::size(p + z),
    ensures
        ({
            let m = accuracy::size(x) + accuracy::size(y) + accuracy::size(z);
            let em = accuracy::grain() * m;
            &&& accuracy::size(q / 3real) <= (1real / 2real) * m
            &&& accuracy::grain() * accuracy::size(q / 3real) <= (1real / 2real) * em
            &&& accuracy::size(q / 3real - (x + y + z) / 3real) <= (7real / 10real) * em
            &&& em >= 0real
        }),
{
    let e = accuracy::grain();
    let m = accuracy::size(x) + accuracy::size(y) + accuracy::size(z);
    let em = e * m;
    let t = accuracy::size(p + z);
    accuracy::lemma_speck_is_small();
    accuracy::lemma_scaled(0real, m, e);
    accuracy::lemma_scaled(e, 1real / 1000real, m);
    accuracy::lemma_scaled(t, (11real / 10real) * m, e);
    assert(e * ((11real / 10real) * m) == (11real / 10real) * em) by (nonlinear_arith)
        requires
            em == e * m,
    ;
    let r = accuracy::size(q / 3real);
    assert(r <= (1real / 2real) * m);
    accuracy::lemma_scaled(r, (1real / 2real) * m, e);
    assert(e * ((1real / 2real) * m) == (1real / 2real) * em) by (nonlinear_arith)
        requires
            em == e * m,
    ;
}

/// The exact sum of all rates of all steps.
pub open spec fn all_rates_sum(list: Seq<GrowthRateView>) -> real
    decreases list.len(),
{
    if list.len() == 0 {
        0real
    } else {
        all_rates_sum(list.drop_last()) + rates_sum(list.last())
    }
}

/// The exact sum of the sizes of all rates of all steps.
pub open spec fn all_rates_size(list: Seq<GrowthRateView>) -> real
    decreases list.len(),
{
    if list.len() == 0 {
        0real
    } else {
        all_rates_size(list.drop_last()) + rates_size(list.last())
    }
}

spec fn means(list: Seq<GrowthRateView>) -> Seq<Value> {
    list.map_values(|g: GrowthRateView| g.mean())
}

proof fn lemma_means_are_added(list: Seq<GrowthRateView>)
    ensures
        sum_of_means(list) == accuracy::added(
            Value::Finite { negative: true, units: 0 },
            means(list),
        ),
    decreases list.len(),
{
    if list.len() > 0 {
        lemma_means_are_added(list.drop_last());
        assert(means(list).drop_last() =~= means(list.drop_last()));
    }
}

/// How the exact sums change with one mean more.
proof fn lemma_one_mean_more(
    sum: real,
    rates: real,
    sizes: real,
    total: real,
    n: real,
    mean: real,
    g: GrowthRateView,
)
    requires
        accuracy::size(sum - rates / 3real) <= 2real * (accuracy::grain() * sizes) + n
            * accuracy::speck(),
        total <= sizes + n * accuracy::speck(),
        rates_size(g) >= 0real,
        accuracy::size(mean - rates_sum(g) / 3real) <= 2real * (accuracy::grain() * rates_size(g))
            + accuracy::speck(),
    ensures
        accuracy::size((sum + mean) - (rates + rates_sum(g)) / 3real) <= 2real * (accuracy::grain()
            * (sizes + rates_size(g))) + (n + 1real) * accuracy::speck(),
        total + accuracy::size(mean) <= (sizes + rates_size(g)) + (n + 1real) * accuracy::speck(),
{
    let e = accuracy::grain();
    let h = accuracy::speck();
    let m = rates_size(g);
    accuracy::lemma_speck_is_small();
    accuracy::lemma_scaled(e, 1real / 1000real, m);
    assert((n + 1real) * h == n * h + h) by (nonlinear_arith);
    assert(e * (sizes + m) == e * sizes + e * m) by (nonlinear_arith);
    assert(accuracy::size(rates_sum(g)) <= m);
}

proof fn lemma_means(list: Seq<GrowthRateView>)
    requires
        forall|i: int| 0 <= i < list.len() ==> finite_rates(#[trigger] list[i]),
        all_rates_size(list) * 1000real <= accuracy::huge(),
    ensures
        accuracy::all_finite(means(list)),
        accuracy::size(accuracy::exact_sum(means(list)) - all_rates_sum(list) / 3real) <= 2real * (
        accuracy::grain() * all_rates_size(list)) + list.len() as real * accuracy::speck(),
        accuracy::exact_size(means(list)) <= all_rates_size(list) + list.len() as real
            * accuracy::speck(),
    decreases list.len(),
{
    let all = means(list);
    if list.len() > 0 {
        let front = list.drop_last();
        let g = list.last();
        assert(g == list[list.len() - 1]);
        lemma_rates_sizes(front);
        assert forall|i: int| 0 <= i < front.len() implies finite_rates(#[trigger] front[i]) by {
            assert(front[i] == list[i]);
        }
        lemma_means(front);
        means_of_rates_are_close(g);
        assert(all.drop_last() =~= means(front));
        assert(all.last() == g.mean());
        assert forall|i: int| 0 <= i < all.len() implies (#[trigger] all[i]) is Finite by {
            if i < front.len() {
                assert(all[i] == means(front)[i]);
            }
        }
        assert(list.len() as real == front.len() as real + 1real);
        lemma_one_mean_more(
            accuracy::exact_sum(means(front)),
            all_rates_sum(front),
            all_rates_size(front),
            accuracy::exact_size(means(front)),
            front.len() as real,
            accuracy::exact(g.mean()),
            g,
        );
    } else {
        assert(accuracy::grain() * 0real == 0real && 0real * accuracy::speck() == 0real);
        assert(all_rates_sum(list) / 3real == 0real);
    }
}

proof fn lemma_rates_sizes(list: Seq<GrowthRateView>)
    ensures
        all_rates_size(list) >= 0real,
    decreases list.len(),
{
    if list.len() > 0 {
        lemma_rates_sizes(list.drop_last());
    }
}

/// The average growth rate is the mean of all rates of all steps, up to
/// rounding.
pub proof fn average_growth_is_the_mean_of_all_rates(list: Seq<GrowthRateView>)
    requires
        0 < list.len() <= 0x1_0000_0000_0000,
        forall|i: int| 0 <= i < list.len() ==> finite_rates(#[trigger] list[i]),
        all_rates_size(list) * 2000real <= accuracy::huge(),
    ensures
        average_of_means(list) is Finite,
        accuracy::size(
            accuracy::exact(average_of_means(list)) - all_rates_sum(list) / (3real
                * list.len() as real),
        ) <= 8real * (accuracy::grain() * all_rates_size(list)) + 4real * accuracy::speck(),
{
    let e = accuracy::grain();
    let h = accuracy::speck();
    let n = list.len() as real;
    let s = all_rates_size(list);
    let es = e * s;
    accuracy::lemma_speck_is_small();
    accuracy::lemma_unit_is_positive();
    lemma_rates_sizes(list);
    lemma_means(list);
    lemma_means_are_added(list);
    accuracy::lemma_scaled(0real, e, s);
    let m = accuracy::exact_size(means(list));
    // The specks stay far below one grain.
    assert(n * h <= 1real / 1000real) by {
        accuracy::lemma_scaled(n, 281474976710656real, h);
        assert(281474976710656real * h <= 281474976710656real * (accuracy::grain() / 1000000real));
    }
    assert(m * 1000real <= accuracy::huge()) by {
        lemma_pow2_strictly_increases(20, 900);
        lemma2_to64();
    }
    accuracy::means_are_close(means(list));
    let em = e * m;
    accuracy::lemma_scaled(m, s + n * h, e);
    assert(e * (s + n * h) == es + (e * n) * h) by (nonlinear_arith)
        requires
            es == e * s,
    ;
    assert((e * n) * h <= h / 10real) by {
        accuracy::lemma_scaled(n, 281474976710656real, e);
        accuracy::lemma_scaled(e * n, 1real / 10real, h);
    }
    let d = accuracy::exact_sum(means(list)) - all_rates_sum(list) / 3real;
    assert(accuracy::size(d) <= n * (2real * es + h)) by {
        accuracy::lemma_scaled(1real, n, 2real * es);
        assert(n * (2real * es + h) == n * (2real * es) + n * h) by (nonlinear_arith);
    }
    accuracy::lemma_shared_out(d, n, 2real * es + h);
    let x = accuracy::exact_sum(means(list)) / n;
    let y = all_rates_sum(list) / (3real * n);
    accuracy::lemma_divided_twice(all_rates_sum(list), 3real, n);
    accuracy::lemma_common_denominator(
        accuracy::exact_sum(means(list)),
        all_rates_sum(list) / 3real,
        n,
    );
    assert(average_of_means(list) == accuracy::added(
        Value::Finite { negative: true, units: 0 },
        means(list),
    ).over(Value::natural(means(list).len())));
}

/// The tracker says that a chain of generations is growing just where the
/// growth check does.
pub proof fn trackers_grow_as_their_chains_do(t: SnowballTracker)
    requires
        t.consistent(),
    ensures
        t.growing() <==> GrowthCheckView::of(t.generations@).growing,
{
    growth_check_and_tracker_agree(t);
}

/// A tracker with one step more is growing just where it was before and none
/// of the three rates of the step is below one.
pub proof fn one_step_more_must_grow_too(
    before: SnowballTracker,
    after: SnowballTracker,
    step: GrowthRate,
)
    requires
        after.growth_rates@ == before.growth_rates@.push(step),
    ensures
        after.growing() <==> {
            &&& before.growing()
            &&& step.loc_rate@.at_least(Value::ratio(1, 1))
            &&& step.test_rate@.at_least(Value::ratio(1, 1))
            &&& step.feature_rate@.at_least(Value::ratio(1, 1))
        },
        before.growth_rates@.len() == 0 ==> before.growing(),
{
    let n = before.growth_rates@.len();
    if after.growing() {
        assert forall|i: int| 0 <= i < n implies (#[trigger] before.growth_rates@[i])@.grows() by {
            assert(after.growth_rates@[i]@.grows());
        }
        assert(after.growth_rates@[n as int]@.grows());
    }
    if before.growing() && step@.grows() {
        assert forall|i: int| 0 <= i < n + 1 implies (#[trigger] after.growth_rates@[i])@.grows() by {
            if i < n {
                assert(before.growth_rates@[i]@.grows());
            }
        }
    }
}

/// Recording a generation adds its metrics at the end. From the second one on
/// it adds one step, measured against the generation recorded just before.
/// Earlier generations and steps stay.
pub proof fn records_compare_with_the_generation_before(
    before: SnowballTracker,
    metrics: SessionMetrics,
    after: SnowballTracker,
)
    requires
        recorded(before, metrics, after),
    ensures
        after.generations@.len() == before.generations@.len() + 1,
        after.generations@.last() == metrics,
        after.generations@.drop_last() == before.generations@,
        before.generations@.len() == 0 ==> growths(after.growth_rates@) == growths(
            before.growth_rates@,
        ),
        before.generations@.len() > 0 ==> {
            let prev = before.generations@.last();
            let step = growths(after.growth_rates@).last();
            &&& after.growth_rates@.len() == before.growth_rates@.len() + 1
            &&& growths(after.growth_rates@).drop_last() == growths(before.growth_rates@)
            &&& step.from_gen == prev.generation
            &&& step.to_gen == metrics.generation
            &&& fits_rate(step.loc_rate, prev.total_loc, metrics.total_loc)
            &&& fits_rate(step.test_rate, prev.total_tests, metrics.total_tests)
            &&& fits_rate(step.feature_rate, prev.total_features, metrics.total_features)
        },
{
    assert(before.generations@.push(metrics).drop_last() =~= before.generations@);
    if before.generations@.len() > 0 {
        let prev = before.generations@.last();
        growth_goes_by_the_counts(prev, metrics);
        let list = growths(before.growth_rates@);
        let step = GrowthRateView::between(prev, metrics);
        assert(list.push(step).drop_last() =~= list);
        assert(growths(after.growth_rates@).len() == list.len() + 1);
    }
}

} // verus!
