//! The bootstrap verifier: checks what a generation produced, and that
//! generations grow.

use vstd::arithmetic::power2::*;
use vstd::prelude::*;

use crate::accuracy;
use crate::binary64::{Binary64, Value};
use crate::metrics::SessionMetrics;
use crate::order;
use crate::rounding;
use crate::text;

verus! {

/// Result of verifying a bootstrap generation.
#[derive(Debug)]
pub struct VerifyResult {
    pub generation: u32,
    pub compiles: bool,
    pub tests_pass: bool,
    pub test_count: usize,
    pub test_failures: Vec<String>,
    pub warnings: Vec<String>,
}

/// What a verification found.
#[verifier::ext_equal]
pub struct Verdict {
    pub generation: u32,
    pub compiles: bool,
    pub tests_pass: bool,
    pub test_count: usize,
    pub test_failures: Seq<Seq<char>>,
    pub warnings: Seq<Seq<char>>,
}

impl View for VerifyResult {
    type V = Verdict;

    open spec fn view(&self) -> Verdict {
        Verdict {
            generation: self.generation,
            compiles: self.compiles,
            tests_pass: self.tests_pass,
            test_count: self.test_count,
            test_failures: text::texts(self.test_failures@),
            warnings: text::texts(self.warnings@),
        }
    }
}

impl Verdict {
    pub open spec fn success(generation: u32, test_count: usize) -> Verdict {
        Verdict {
            generation,
            compiles: true,
            tests_pass: true,
            test_count,
            test_failures: Seq::empty(),
            warnings: Seq::empty(),
        }
    }

    pub open spec fn failure(generation: u32, failures: Seq<Seq<char>>) -> Verdict {
        Verdict {
            generation,
            compiles: true,
            tests_pass: false,
            test_count: 0,
            test_failures: failures,
            warnings: Seq::empty(),
        }
    }

    pub open spec fn compile_failure(generation: u32, warnings: Seq<Seq<char>>) -> Verdict {
        Verdict {
            generation,
            compiles: false,
            tests_pass: false,
            test_count: 0,
            test_failures: Seq::empty(),
            warnings,
        }
    }

    pub open spec fn is_ok(self) -> bool {
        self.compiles && self.tests_pass
    }

    /// The verdict on a generation: it must have rounds, lines and tests, and
    /// fails on the first of these that it lacks.
    pub open spec fn on(metrics: SessionMetrics) -> Verdict {
        if metrics.total_rounds == 0 {
            Verdict::failure(metrics.generation, seq!["No rounds generated"@])
        } else if metrics.total_loc == 0 {
            Verdict::failure(metrics.generation, seq!["No LOC produced"@])
        } else if metrics.total_tests == 0 {
            Verdict::failure(metrics.generation, seq!["No tests produced"@])
        } else {
            Verdict::success(metrics.generation, metrics.total_tests)
        }
    }

    /// The verdict on generation `i` of a chain: what holds of it alone, and
    /// then that it has no less output than the generation before it.
    pub open spec fn in_chain(chain: Seq<SessionMetrics>, i: int) -> Verdict {
        let alone = Verdict::on(chain[i]);
        if alone.is_ok() && i > 0 && shrinks(chain[i - 1], chain[i]) {
            Verdict::failure(chain[i].generation, seq!["Less output than the generation before"@])
        } else {
            alone
        }
    }
}

/// Whether there are fewer lines, tests or features than before.
pub open spec fn shrinks(before: SessionMetrics, after: SessionMetrics) -> bool {
    ||| after.total_loc < before.total_loc
    ||| after.total_tests < before.total_tests
    ||| after.total_features < before.total_features
}

impl Clone for VerifyResult {
    fn clone(&self) -> (r: VerifyResult)
        ensures
            r@ == self@,
    {
        VerifyResult {
            generation: self.generation,
            compiles: self.compiles,
            tests_pass: self.tests_pass,
            test_count: self.test_count,
            test_failures: text::copied(&self.test_failures),
            warnings: text::copied(&self.warnings),
        }
    }
}

impl VerifyResult {
    pub fn success(generation: u32, test_count: usize) -> (r: VerifyResult)
        ensures
            r@ == Verdict::success(generation, test_count),
    {
        let r = VerifyResult {
            generation,
            compiles: true,
            tests_pass: true,
            test_count,
            test_failures: Vec::new(),
            warnings: Vec::new(),
        };
        assert(r@ =~= Verdict::success(generation, test_count));
        r
    }

    pub fn failure(generation: u32, failures: Vec<String>) -> (r: VerifyResult)
        ensures
            r@ == Verdict::failure(generation, text::texts(failures@)),
            r.test_failures == failures,
    {
        let r = VerifyResult {
            generation,
            compiles: true,
            tests_pass: false,
            test_count: 0,
            test_failures: failures,
            warnings: Vec::new(),
        };
        assert(r@ =~= Verdict::failure(generation, text::texts(failures@)));
        r
    }

    pub fn compile_failure(generation: u32, warnings: Vec<String>) -> (r: VerifyResult)
        ensures
            r@ == Verdict::compile_failure(generation, text::texts(warnings@)),
            r.warnings == warnings,
    {
        let r = VerifyResult {
            generation,
            compiles: false,
            tests_pass: false,
            test_count: 0,
            test_failures: Vec::new(),
            warnings,
        };
        assert(r@ =~= Verdict::compile_failure(generation, text::texts(warnings@)));
        r
    }

    pub fn is_ok(&self) -> (r: bool)
        ensures
            r == self@.is_ok(),
    {
        self.compiles && self.tests_pass
    }
}

/// Growth check result across generations.
#[derive(Debug, Clone)]
pub struct GrowthCheck {
    pub growing: bool,
    pub loc_deltas: Vec<Binary64>,
    pub test_deltas: Vec<Binary64>,
    pub feature_deltas: Vec<Binary64>,
    pub surprise_deltas: Vec<Binary64>,
}

/// What a growth check found.
#[verifier::ext_equal]
pub struct GrowthCheckView {
    pub growing: bool,
    pub loc_deltas: Seq<Value>,
    pub test_deltas: Seq<Value>,
    pub feature_deltas: Seq<Value>,
    pub surprise_deltas: Seq<Value>,
}

/// The numbers of a list.
pub open spec fn numbers(list: Seq<Binary64>) -> Seq<Value> {
    list.map_values(|x: Binary64| x@)
}

proof fn lemma_next_number(list: Seq<Binary64>, expected: Seq<Value>, x: Binary64)
    requires
        list.len() < expected.len(),
        numbers(list) == expected.take(list.len() as int),
        expected[list.len() as int] == x@,
    ensures
        numbers(list.push(x)) == expected.take((list.len() + 1) as int),
{
    assert(numbers(list.push(x)) =~= numbers(list).push(x@));
    assert(expected.take((list.len() + 1) as int) =~= expected.take(list.len() as int).push(x@));
}

impl View for GrowthCheck {
    type V = GrowthCheckView;

    open spec fn view(&self) -> GrowthCheckView {
        GrowthCheckView {
            growing: self.growing,
            loc_deltas: numbers(self.loc_deltas@),
            test_deltas: numbers(self.test_deltas@),
            feature_deltas: numbers(self.feature_deltas@),
            surprise_deltas: numbers(self.surprise_deltas@),
        }
    }
}

/// The difference between two counts, each taken to the nearest number first.
pub open spec fn count_delta(before: usize, after: usize) -> Value {
    Value::natural(after as nat).minus(Value::natural(before as nat))
}

impl GrowthCheckView {
    /// The number of steps from one generation to the next.
    pub open spec fn steps(chain: Seq<SessionMetrics>) -> nat {
        if chain.len() < 2 {
            0
        } else {
            (chain.len() - 1) as nat
        }
    }

    /// Whether no lines, tests or features were lost at step `i`. Surprise is
    /// measured, and decides nothing.
    pub open spec fn grows_at(chain: Seq<SessionMetrics>, i: int) -> bool {
        let zero = Value::Finite { negative: false, units: 0 };
        &&& count_delta(chain[i].total_loc, chain[i + 1].total_loc).at_least(zero)
        &&& count_delta(chain[i].total_tests, chain[i + 1].total_tests).at_least(zero)
        &&& count_delta(chain[i].total_features, chain[i + 1].total_features).at_least(zero)
    }

    /// The growth of a chain of generations, step by step.
    pub open spec fn of(chain: Seq<SessionMetrics>) -> GrowthCheckView {
        let steps = GrowthCheckView::steps(chain);
        GrowthCheckView {
            growing: forall|i: int| 0 <= i < steps ==> #[trigger] GrowthCheckView::grows_at(chain, i),
            loc_deltas: Seq::new(
                steps,
                |i: int| count_delta(chain[i].total_loc, chain[i + 1].total_loc),
            ),
            test_deltas: Seq::new(
                steps,
                |i: int| count_delta(chain[i].total_tests, chain[i + 1].total_tests),
            ),
            feature_deltas: Seq::new(
                steps,
                |i: int| count_delta(chain[i].total_features, chain[i + 1].total_features),
            ),
            surprise_deltas: Seq::new(
                steps,
                |i: int| chain[i + 1].avg_surprise@.minus(chain[i].avg_surprise@),
            ),
        }
    }
}

/// The bootstrap verifier. It checks in memory that what a generation
/// produced is consistent, and keeps every verdict.
#[derive(Debug, Clone)]
pub struct BootstrapVerifier {
    pub verified_generations: Vec<VerifyResult>,
}

/// The verdicts of a list.
pub open spec fn verdicts(list: Seq<VerifyResult>) -> Seq<Verdict> {
    list.map_values(|r: VerifyResult| r@)
}

fn delta(before: usize, after: usize) -> (d: Binary64)
    ensures
        d@ == count_delta(before, after),
{
    Binary64::from_u64(after as u64).sub(Binary64::from_u64(before as u64))
}

impl BootstrapVerifier {
    pub fn new() -> (v: BootstrapVerifier)
        ensures
            v.verified_generations@ == Seq::<VerifyResult>::empty(),
    {
        BootstrapVerifier { verified_generations: Vec::new() }
    }

    /// Keeps a verdict.
    fn keep(&mut self, result: VerifyResult) -> (r: VerifyResult)
        ensures
            r == result,
            verdicts(final(self).verified_generations@) == verdicts(
                old(self).verified_generations@,
            ).push(result@),
    {
        self.verified_generations.push(result.clone());
        assert(verdicts(self.verified_generations@) =~= verdicts(
            old(self).verified_generations@,
        ).push(result@));
        result
    }

    /// Judges a generation by its own output.
    fn judge(metrics: &SessionMetrics) -> (result: VerifyResult)
        ensures
            result@ == Verdict::on(*metrics),
    {
        let generation: u32 = metrics.generation;
        if metrics.total_rounds == 0 {
            let failures: Vec<String> = vec!["No rounds generated".to_owned()];
            assert(text::texts(failures@) =~= seq!["No rounds generated"@]);
            return VerifyResult::failure(generation, failures);
        }
        if metrics.total_loc == 0 {
            let failures: Vec<String> = vec!["No LOC produced".to_owned()];
            assert(text::texts(failures@) =~= seq!["No LOC produced"@]);
            return VerifyResult::failure(generation, failures);
        }
        if metrics.total_tests == 0 {
            let failures: Vec<String> = vec!["No tests produced".to_owned()];
            assert(text::texts(failures@) =~= seq!["No tests produced"@]);
            return VerifyResult::failure(generation, failures);
        }
        VerifyResult::success(generation, metrics.total_tests)
    }

    /// Judges a generation by its own output and by that of the one before.
    fn judge_in_chain(chain: &[SessionMetrics], i: usize) -> (result: VerifyResult)
        requires
            i < chain@.len(),
        ensures
            result@ == Verdict::in_chain(chain@, i as int),
    {
        let metrics: &SessionMetrics = &chain[i];
        let alone: VerifyResult = BootstrapVerifier::judge(metrics);
        if i > 0 && alone.is_ok() {
            let before: &SessionMetrics = &chain[i - 1];
            if metrics.total_loc < before.total_loc || metrics.total_tests < before.total_tests
                || metrics.total_features < before.total_features {
                let failures: Vec<String> = vec![
                    "Less output than the generation before".to_owned(),
                ];
                assert(text::texts(failures@) =~= seq!["Less output than the generation before"@]);
                return VerifyResult::failure(metrics.generation, failures);
            }
        }
        alone
    }

    /// Verifies a generation's output against basic consistency checks.
    pub fn verify(&mut self, metrics: &SessionMetrics) -> (result: VerifyResult)
        ensures
            result@ == Verdict::on(*metrics),
            verdicts(final(self).verified_generations@) == verdicts(
                old(self).verified_generations@,
            ).push(Verdict::on(*metrics)),
    {
        self.keep(BootstrapVerifier::judge(metrics))
    }

    /// Verifies a full bootstrap chain: each generation must pass by itself,
    /// and must improve on the output of the previous one or maintain it. One
    /// that fails does not stop the chain; the next is held against it.
    pub fn verify_chain(&mut self, chain: &[SessionMetrics]) -> (results: Vec<VerifyResult>)
        ensures
            verdicts(results@) == Seq::new(
                chain@.len(),
                |i: int| Verdict::in_chain(chain@, i),
            ),
            verdicts(final(self).verified_generations@) == verdicts(
                old(self).verified_generations@,
            ) + verdicts(results@),
    {
        let mut results: Vec<VerifyResult> = Vec::new();
        let mut i: usize = 0;
        let ghost expected = Seq::new(chain@.len(), |i: int| Verdict::in_chain(chain@, i));
        assert(verdicts(results@) =~= expected.take(0));
        assert(verdicts(self.verified_generations@) =~= verdicts(self.verified_generations@)
            + expected.take(0));
        while i < chain.len()
            invariant
                i <= chain@.len(),
                expected == Seq::new(chain@.len(), |i: int| Verdict::in_chain(chain@, i)),
                verdicts(results@) == expected.take(i as int),
                verdicts(self.verified_generations@) == verdicts(old(self).verified_generations@)
                    + expected.take(i as int),
            decreases chain@.len() - i,
        {
            let ghost before = results@;
            let result: VerifyResult = self.keep(BootstrapVerifier::judge_in_chain(chain, i));
            results.push(result);
            proof {
                assert(expected.take(i + 1) =~= expected.take(i as int).push(expected[i as int]));
                assert(verdicts(results@) =~= verdicts(before).push(result@));
                assert(verdicts(self.verified_generations@) =~= verdicts(
                    old(self).verified_generations@,
                ) + expected.take(i + 1));
            }
            i = i + 1;
        }
        assert(expected.take(i as int) =~= expected);
        results
    }

    /// Checks growth: each generation should have no fewer lines, tests and
    /// features than the previous one. The change of surprise is reported,
    /// and decides nothing.
    pub fn check_growth(chain: &[SessionMetrics]) -> (check: GrowthCheck)
        ensures
            check@ == GrowthCheckView::of(chain@),
    {
        let ghost expected = GrowthCheckView::of(chain@);
        let n: usize = chain.len();
        let zero: Binary64 = Binary64::zero();
        let mut growing: bool = true;
        let mut loc_deltas: Vec<Binary64> = Vec::new();
        let mut test_deltas: Vec<Binary64> = Vec::new();
        let mut feature_deltas: Vec<Binary64> = Vec::new();
        let mut surprise_deltas: Vec<Binary64> = Vec::new();
        let mut i: usize = 1;
        while i < n
            invariant
                n == chain@.len(),
                1 <= i,
                n > 0 ==> i <= n,
                n == 0 ==> i == 1,
                loc_deltas@.len() == i - 1,
                test_deltas@.len() == i - 1,
                feature_deltas@.len() == i - 1,
                surprise_deltas@.len() == i - 1,
                zero@ == (Value::Finite { negative: false, units: 0 }),
                expected == GrowthCheckView::of(chain@),
                numbers(loc_deltas@) == expected.loc_deltas.take(i - 1),
                numbers(test_deltas@) == expected.test_deltas.take(i - 1),
                numbers(feature_deltas@) == expected.feature_deltas.take(i - 1),
                numbers(surprise_deltas@) == expected.surprise_deltas.take(i - 1),
                growing == (forall|k: int|
                    0 <= k < i - 1 ==> #[trigger] GrowthCheckView::grows_at(chain@, k)),
            decreases n - i,
        {
            let before: &SessionMetrics = &chain[i - 1];
            let after: &SessionMetrics = &chain[i];
            let loc: Binary64 = delta(before.total_loc, after.total_loc);
            let tests: Binary64 = delta(before.total_tests, after.total_tests);
            let features: Binary64 = delta(before.total_features, after.total_features);
            let surprise: Binary64 = after.avg_surprise.sub(before.avg_surprise);
            let grows: bool = loc.ge(zero) && tests.ge(zero) && features.ge(zero);
            proof {
                let k = i - 1;
                assert(grows == GrowthCheckView::grows_at(chain@, k));
                lemma_next_number(loc_deltas@, expected.loc_deltas, loc);
                lemma_next_number(test_deltas@, expected.test_deltas, tests);
                lemma_next_number(feature_deltas@, expected.feature_deltas, features);
                lemma_next_number(surprise_deltas@, expected.surprise_deltas, surprise);
            }
            loc_deltas.push(loc);
            test_deltas.push(tests);
            feature_deltas.push(features);
            surprise_deltas.push(surprise);
            growing = growing && grows;
            i = i + 1;
        }
        let check = GrowthCheck {
            growing,
            loc_deltas,
            test_deltas,
            feature_deltas,
            surprise_deltas,
        };
        proof {
            let steps = GrowthCheckView::steps(chain@) as int;
            assert(i - 1 == steps);
            assert(expected.loc_deltas.take(steps) =~= expected.loc_deltas);
            assert(expected.test_deltas.take(steps) =~= expected.test_deltas);
            assert(expected.feature_deltas.take(steps) =~= expected.feature_deltas);
            assert(expected.surprise_deltas.take(steps) =~= expected.surprise_deltas);
        }
        check
    }
}

/// A generation is accepted just where it has rounds, lines and tests.
pub proof fn accepted_with_something_of_each(metrics: SessionMetrics)
    ensures
        Verdict::on(metrics).is_ok() <==> metrics.total_rounds > 0 && metrics.total_loc > 0
            && metrics.total_tests > 0,
        Verdict::on(metrics).is_ok() ==> Verdict::on(metrics).test_count == metrics.total_tests
            && Verdict::on(metrics).test_failures.len() == 0,
        !Verdict::on(metrics).is_ok() ==> Verdict::on(metrics).test_failures.len() == 1,
{
}

/// A generation of a chain is accepted just where it is accepted by itself
/// and has no less output than the one before it.
pub proof fn accepted_where_nothing_shrinks(chain: Seq<SessionMetrics>, i: int)
    requires
        0 <= i < chain.len(),
    ensures
        Verdict::in_chain(chain, i).is_ok() <==> Verdict::on(chain[i]).is_ok() && (i > 0
            ==> !shrinks(chain[i - 1], chain[i])),
        Verdict::in_chain(chain, i).generation == chain[i].generation,
        Verdict::in_chain(chain, i).is_ok() ==> Verdict::in_chain(chain, i).test_count
            == chain[i].total_tests,
        !Verdict::in_chain(chain, i).is_ok() ==> Verdict::in_chain(chain, i).test_failures.len()
            == 1,
{
}

/// A step grows just where no lines, tests or features, each taken to the
/// nearest number, became fewer.
pub proof fn lemma_grows_at(chain: Seq<SessionMetrics>, i: int)
    ensures
        GrowthCheckView::grows_at(chain, i) <==> {
            &&& order::natural_units(chain[i].total_loc as nat) <= order::natural_units(
                chain[i + 1].total_loc as nat,
            )
            &&& order::natural_units(chain[i].total_tests as nat) <= order::natural_units(
                chain[i + 1].total_tests as nat,
            )
            &&& order::natural_units(chain[i].total_features as nat) <= order::natural_units(
                chain[i + 1].total_features as nat,
            )
        },
{
    order::differences_tell_the_order(
        chain[i].total_loc as nat,
        chain[i + 1].total_loc as nat,
    );
    order::differences_tell_the_order(
        chain[i].total_tests as nat,
        chain[i + 1].total_tests as nat,
    );
    order::differences_tell_the_order(
        chain[i].total_features as nat,
        chain[i + 1].total_features as nat,
    );
}

/// Whether no lines, tests or features are lost anywhere in a chain.
pub open spec fn never_shrinks(chain: Seq<SessionMetrics>) -> bool {
    forall|i: int|
        0 <= i < GrowthCheckView::steps(chain) ==> !shrinks(#[trigger] chain[i], chain[i + 1])
}

/// A chain in which no lines, tests or features are lost is growing.
pub proof fn chains_that_never_shrink_are_growing(chain: Seq<SessionMetrics>)
    requires
        never_shrinks(chain),
    ensures
        GrowthCheckView::of(chain).growing,
{
    assert forall|i: int| 0 <= i < GrowthCheckView::steps(
        chain,
    ) implies #[trigger] GrowthCheckView::grows_at(chain, i) by {
        assert(!shrinks(chain[i], chain[i + 1]));
        lemma_grows_at(chain, i);
        order::naturals_keep_order(chain[i].total_loc as nat, chain[i + 1].total_loc as nat);
        order::naturals_keep_order(chain[i].total_tests as nat, chain[i + 1].total_tests as nat);
        order::naturals_keep_order(
            chain[i].total_features as nat,
            chain[i + 1].total_features as nat,
        );
    }
}

/// Whether the counts that growth goes by stay within 2 to the power of 53.
pub open spec fn counts_are_small(metrics: SessionMetrics) -> bool {
    &&& metrics.total_loc <= rounding::SIGNIFICAND_LIMIT
    &&& metrics.total_tests <= rounding::SIGNIFICAND_LIMIT
    &&& metrics.total_features <= rounding::SIGNIFICAND_LIMIT
}

/// A growing chain nowhere has fewer lines, tests or features than before, as
/// long as the counts stay within 2 to the power of 53.
pub proof fn growing_chains_never_shrink(chain: Seq<SessionMetrics>)
    requires
        GrowthCheckView::of(chain).growing,
        forall|i: int| 0 <= i < chain.len() ==> counts_are_small(#[trigger] chain[i]),
    ensures
        never_shrinks(chain),
{
    assert forall|i: int| 0 <= i < GrowthCheckView::steps(chain) implies !shrinks(
        #[trigger] chain[i],
        chain[i + 1],
    ) by {
        assert(GrowthCheckView::grows_at(chain, i));
        assert(counts_are_small(chain[i + 1]));
        lemma_grows_at(chain, i);
        order::small_naturals_keep_strict_order(
            chain[i].total_loc as nat,
            chain[i + 1].total_loc as nat,
        );
        order::small_naturals_keep_strict_order(
            chain[i].total_tests as nat,
            chain[i + 1].total_tests as nat,
        );
        order::small_naturals_keep_strict_order(
            chain[i].total_features as nat,
            chain[i + 1].total_features as nat,
        );
    }
}

/// A chain whose generations are all accepted is growing.
pub proof fn accepted_chains_are_growing(chain: Seq<SessionMetrics>)
    requires
        forall|i: int| 0 <= i < chain.len() ==> (#[trigger] Verdict::in_chain(chain, i)).is_ok(),
    ensures
        GrowthCheckView::of(chain).growing,
{
    assert forall|i: int| 0 <= i < GrowthCheckView::steps(chain) implies !shrinks(
        #[trigger] chain[i],
        chain[i + 1],
    ) by {
        assert(Verdict::in_chain(chain, i + 1).is_ok());
    }
    chains_that_never_shrink_are_growing(chain);
}

/// The difference of two counts within 2 to the power of 53 is exact.
proof fn lemma_count_delta(before: usize, after: usize)
    requires
        before <= rounding::SIGNIFICAND_LIMIT,
        after <= rounding::SIGNIFICAND_LIMIT,
    ensures
        count_delta(before, after) is Finite,
        accuracy::exact(count_delta(before, after)) == after as real - before as real,
        count_delta(before, after).less(Value::Finite { negative: false, units: 0 }) <==> after
            < before,
{
    let zero = Value::Finite { negative: false, units: 0 };
    order::small_naturals_are_exact(before as nat);
    order::small_naturals_are_exact(after as nat);
    accuracy::naturals_are_close(before as nat);
    accuracy::naturals_are_close(after as nat);
    let unit = pow2(1074);
    let d = count_delta(before, after);
    accuracy::lemma_unit_is_positive();
    if before == after {
        assert(d == zero);
        accuracy::lemma_units_give_size(zero);
    } else if before < after {
        let n = (after - before) as nat;
        assert(after * unit - before * unit == n * unit) by (nonlinear_arith)
            requires
                n == after - before,
        ;
        assert(n * unit > 0) by (nonlinear_arith)
            requires
                n > 0,
                unit > 0,
        ;
        order::small_naturals_are_exact(n);
        accuracy::naturals_are_close(n);
        assert(d == Value::natural(n));
    } else {
        let n = (before - after) as nat;
        assert(before * unit - after * unit == n * unit) by (nonlinear_arith)
            requires
                n == before - after,
        ;
        assert(n * unit > 0) by (nonlinear_arith)
            requires
                n > 0,
                unit > 0,
        ;
        order::small_naturals_are_exact(n);
        accuracy::naturals_are_close(n);
        assert(d == Value::natural(n).negated());
        accuracy::lemma_units_give_size(d);
        accuracy::lemma_units_give_size(Value::natural(n));
    }
    accuracy::less_means_less(d, zero);
    accuracy::lemma_units_give_size(zero);
}

/// There is one delta for each step from one generation to the next. Counts
/// within 2 to the power of 53 and their deltas add up exactly: what a
/// generation has and the delta behind it make what the next one has.
pub proof fn deltas_lead_to_the_next_generation(chain: Seq<SessionMetrics>, i: int)
    requires
        0 <= i < chain.len() - 1,
        counts_are_small(chain[i]),
        counts_are_small(chain[i + 1]),
    ensures
        ({
            let check = GrowthCheckView::of(chain);
            &&& check.loc_deltas.len() == chain.len() - 1
            &&& check.test_deltas.len() == chain.len() - 1
            &&& check.feature_deltas.len() == chain.len() - 1
            &&& check.surprise_deltas.len() == chain.len() - 1
            &&& check.loc_deltas[i] is Finite
            &&& check.test_deltas[i] is Finite
            &&& check.feature_deltas[i] is Finite
            &&& chain[i].total_loc as real + accuracy::exact(check.loc_deltas[i]) == chain[i
                + 1].total_loc as real
            &&& chain[i].total_tests as real + accuracy::exact(check.test_deltas[i]) == chain[i
                + 1].total_tests as real
            &&& chain[i].total_features as real + accuracy::exact(check.feature_deltas[i])
                == chain[i + 1].total_features as real
        }),
{
    lemma_count_delta(chain[i].total_loc, chain[i + 1].total_loc);
    lemma_count_delta(chain[i].total_tests, chain[i + 1].total_tests);
    lemma_count_delta(chain[i].total_features, chain[i + 1].total_features);
}

/// Counts within 2 to the power of 53: the deltas of a chain add up to what
/// the last generation has more than the first.
pub proof fn deltas_add_up(chain: Seq<SessionMetrics>)
    requires
        chain.len() > 0,
        forall|i: int| 0 <= i < chain.len() ==> counts_are_small(#[trigger] chain[i]),
    ensures
        ({
            let check = GrowthCheckView::of(chain);
            &&& chain[0].total_loc as real + accuracy::exact_sum(check.loc_deltas)
                == chain.last().total_loc as real
            &&& chain[0].total_tests as real + accuracy::exact_sum(check.test_deltas)
                == chain.last().total_tests as real
            &&& chain[0].total_features as real + accuracy::exact_sum(check.feature_deltas)
                == chain.last().total_features as real
        }),
    decreases chain.len(),
{
    let check = GrowthCheckView::of(chain);
    if chain.len() > 1 {
        let front = chain.drop_last();
        let n = chain.len() - 2;
        assert forall|i: int| 0 <= i < front.len() implies counts_are_small(
            #[trigger] front[i],
        ) by {
            assert(front[i] == chain[i]);
        }
        deltas_add_up(front);
        let earlier = GrowthCheckView::of(front);
        assert(counts_are_small(chain[n]) && counts_are_small(chain[n + 1]));
        deltas_lead_to_the_next_generation(chain, n);
        assert(check.loc_deltas.drop_last() =~= earlier.loc_deltas);
        assert(check.test_deltas.drop_last() =~= earlier.test_deltas);
        assert(check.feature_deltas.drop_last() =~= earlier.feature_deltas);
    } else {
        assert(check.loc_deltas.len() == 0);
        assert(check.test_deltas.len() == 0);
        assert(check.feature_deltas.len() == 0);
    }
}

/// The deltas of any counts are close to the exact ones.
pub proof fn deltas_are_close(chain: Seq<SessionMetrics>, i: int)
    requires
        0 <= i < chain.len() - 1,
    ensures
        ({
            let check = GrowthCheckView::of(chain);
            let off = |delta: Value, before: usize, after: usize|
                accuracy::size(accuracy::exact(delta) - (after as real - before as real)) <= 4real
                    * (accuracy::grain() * (after as real + before as real));
            &&& off(check.loc_deltas[i], chain[i].total_loc, chain[i + 1].total_loc)
            &&& off(check.test_deltas[i], chain[i].total_tests, chain[i + 1].total_tests)
            &&& off(check.feature_deltas[i], chain[i].total_features, chain[i + 1].total_features)
        }),
{
    lemma_delta_is_close(chain[i].total_loc, chain[i + 1].total_loc);
    lemma_delta_is_close(chain[i].total_tests, chain[i + 1].total_tests);
    lemma_delta_is_close(chain[i].total_features, chain[i + 1].total_features);
}

proof fn lemma_delta_is_close(before: usize, after: usize)
    ensures
        accuracy::size(
            accuracy::exact(count_delta(before, after)) - (after as real - before as real),
        ) <= 4real * (accuracy::grain() * (after as real + before as real)),
{
    let e = accuracy::grain();
    let m = before as real;
    let n = after as real;
    let a = accuracy::exact(Value::natural(after as nat));
    let b = accuracy::exact(Value::natural(before as nat));
    accuracy::lemma_speck_is_small();
    accuracy::naturals_are_close(before as nat);
    accuracy::naturals_are_close(after as nat);
    lemma_pow2_strictly_increases(66, 900);
    lemma_pow2_adds(64, 2);
    lemma2_to64();
    accuracy::lemma_scaled(e, 1real / 1000real, m);
    accuracy::lemma_scaled(e, 1real / 1000real, n);
    accuracy::lemma_scaled(0real, e, m);
    accuracy::lemma_scaled(0real, e, n);
    assert(accuracy::size(a - b) <= 2real * (n + m));
    accuracy::differences_are_close(Value::natural(after as nat), Value::natural(before as nat));
    accuracy::lemma_scaled(accuracy::size(a - b), 2real * (n + m), e);
    assert(e * (2real * (n + m)) == 2real * (e * (n + m)) && e * (n + m) == e * n + e * m)
        by (nonlinear_arith);
}

/// Whether no number of a list is below zero, or no number at all.
pub open spec fn none_below_zero(list: Seq<Value>) -> bool {
    forall|i: int|
        0 <= i < list.len() ==> (#[trigger] list[i]).at_least(
            Value::Finite { negative: false, units: 0 },
        )
}

/// A chain is growing just where no delta of lines, tests and features is
/// below zero.
pub proof fn growing_means_no_delta_below_zero(chain: Seq<SessionMetrics>)
    ensures
        ({
            let check = GrowthCheckView::of(chain);
            check.growing <==> none_below_zero(check.loc_deltas) && none_below_zero(
                check.test_deltas,
            ) && none_below_zero(check.feature_deltas)
        }),
{
    let check = GrowthCheckView::of(chain);
    let steps = GrowthCheckView::steps(chain);
    let zero = Value::Finite { negative: false, units: 0 };
    if check.growing {
        assert forall|i: int| 0 <= i < steps implies (#[trigger] check.loc_deltas[i]).at_least(
            zero,
        ) by {
            assert(GrowthCheckView::grows_at(chain, i));
        }
        assert forall|i: int| 0 <= i < steps implies (#[trigger] check.test_deltas[i]).at_least(
            zero,
        ) by {
            assert(GrowthCheckView::grows_at(chain, i));
        }
        assert forall|i: int| 0 <= i < steps implies (#[trigger] check.feature_deltas[i]).at_least(
            zero,
        ) by {
            assert(GrowthCheckView::grows_at(chain, i));
        }
    }
    if none_below_zero(check.loc_deltas) && none_below_zero(check.test_deltas) && none_below_zero(
        check.feature_deltas,
    ) {
        assert forall|i: int| 0 <= i < steps implies #[trigger] GrowthCheckView::grows_at(
            chain,
            i,
        ) by {
            assert(check.loc_deltas[i].at_least(zero));
            assert(check.test_deltas[i].at_least(zero));
            assert(check.feature_deltas[i].at_least(zero));
        }
    }
}

/// The change of surprise at a step is the exact one, up to one grain of it.
pub proof fn surprise_deltas_are_close(chain: Seq<SessionMetrics>, i: int)
    requires
        0 <= i < chain.len() - 1,
        chain[i].avg_surprise@ is Finite,
        chain[i + 1].avg_surprise@ is Finite,
        accuracy::size(
            accuracy::exact(chain[i + 1].avg_surprise@) - accuracy::exact(chain[i].avg_surprise@),
        ) <= accuracy::huge(),
    ensures
        ({
            let delta = GrowthCheckView::of(chain).surprise_deltas[i];
            let change = accuracy::exact(chain[i + 1].avg_surprise@) - accuracy::exact(
                chain[i].avg_surprise@,
            );
            &&& delta is Finite
            &&& accuracy::size(accuracy::exact(delta) - change) <= accuracy::grain()
                * accuracy::size(change)
        }),
{
    accuracy::differences_are_close(chain[i + 1].avg_surprise@, chain[i].avg_surprise@);
}

/// A generation of a chain is accepted just where it has rounds, lines and
/// tests, and no fewer lines, tests and features than the one before it. An
/// accepted one reports its tests; a rejected one gives one reason.
pub proof fn acceptance_in_counts(chain: Seq<SessionMetrics>, i: int)
    requires
        0 <= i < chain.len(),
    ensures
        ({
            let verdict = Verdict::in_chain(chain, i);
            &&& verdict.is_ok() <==> {
                &&& chain[i].total_rounds > 0
                &&& chain[i].total_loc > 0
                &&& chain[i].total_tests > 0
                &&& i > 0 ==> chain[i].total_loc >= chain[i - 1].total_loc
                &&& i > 0 ==> chain[i].total_tests >= chain[i - 1].total_tests
                &&& i > 0 ==> chain[i].total_features >= chain[i - 1].total_features
            }
            &&& verdict.compiles
            &&& verdict.generation == chain[i].generation
            &&& verdict.warnings.len() == 0
            &&& verdict.is_ok() ==> verdict.test_count == chain[i].total_tests
                && verdict.test_failures.len() == 0
            &&& !verdict.is_ok() ==> verdict.test_count == 0 && verdict.test_failures.len() == 1
        }),
{
}

/// Two rejected generations give the same reason just where they lack the
/// same thing first: rounds, then lines, then tests.
pub proof fn reasons_tell_what_is_missing(a: SessionMetrics, b: SessionMetrics)
    requires
        !Verdict::on(a).is_ok(),
        !Verdict::on(b).is_ok(),
    ensures
        Verdict::on(a).test_failures == Verdict::on(b).test_failures <==> {
            ||| a.total_rounds == 0 && b.total_rounds == 0
            ||| a.total_rounds > 0 && b.total_rounds > 0 && a.total_loc == 0 && b.total_loc == 0
            ||| a.total_rounds > 0 && b.total_rounds > 0 && a.total_loc > 0 && b.total_loc > 0
        },
{
    reveal_strlit("No rounds generated");
    reveal_strlit("No LOC produced");
    reveal_strlit("No tests produced");
    let x = Verdict::on(a).test_failures;
    let y = Verdict::on(b).test_failures;
    assert("No rounds generated"@.len() == 19 && "No LOC produced"@.len() == 15
        && "No tests produced"@.len() == 17);
    if x == y {
        assert(x[0].len() == y[0].len());
    }
}

/// Verdicts made by hand: a success is accepted with its tests, a failure and
/// a failure to compile are not, and each keeps what it is given.
pub proof fn verdicts_keep_what_they_are_given(
    generation: u32,
    tests: usize,
    texts: Seq<Seq<char>>,
)
    ensures
        ({
            let good = Verdict::success(generation, tests);
            let bad = Verdict::failure(generation, texts);
            let broken = Verdict::compile_failure(generation, texts);
            &&& good.is_ok() && !bad.is_ok() && !broken.is_ok()
            &&& bad.compiles && !broken.compiles
            &&& good.generation == generation && bad.generation == generation
                && broken.generation == generation
            &&& good.test_count == tests && bad.test_count == 0 && broken.test_count == 0
            &&& good.test_failures.len() == 0 && good.warnings.len() == 0
            &&& bad.test_failures == texts && bad.warnings.len() == 0
            &&& broken.warnings == texts && broken.test_failures.len() == 0
        }),
{
}

} // verus!
