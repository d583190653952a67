//! Riffs, the rounds they are played in, and how an agent answers them.

use vstd::arithmetic::power2::*;
use vstd::prelude::*;

use crate::accuracy;
use crate::binary64::{Binary64, Value};
use crate::order;
use crate::rounding;
use crate::text;

verus! {

/// Quality of a riff output. Its number is [`Quality::to_i8`]; a cast gives its
/// place in this list.
#[derive(Debug, Clone, Copy, PartialEq, Eq, Hash, Structural)]
pub enum Quality {
    Weak,
    Okay,
    Strong,
}

impl Quality {
    /// The quality as a number: the greater, the better.
    pub open spec fn rank(self) -> int {
        match self {
            Quality::Weak => -1,
            Quality::Okay => 0,
            Quality::Strong => 1,
        }
    }

    /// What the quality weighs in a riff's productivity: a half, one or two.
    pub open spec fn weight(self) -> Value {
        match self {
            Quality::Weak => Value::ratio(1, 2),
            Quality::Okay => Value::ratio(1, 1),
            Quality::Strong => Value::ratio(2, 1),
        }
    }

    pub fn to_i8(self) -> (v: i8)
        ensures
            v == self.rank(),
    {
        match self {
            Quality::Weak => -1,
            Quality::Okay => 0,
            Quality::Strong => 1,
        }
    }
}

/// Response mode: how an agent responds to the previous riff.
#[derive(Debug, Clone, Copy, PartialEq, Eq, Hash, Structural)]
pub enum ResponseMode {
    Escalate,
    Pivot,
    Invert,
    Provoked,
}

impl View for ResponseMode {
    type V = ResponseMode;

    open spec fn view(&self) -> ResponseMode {
        *self
    }
}

impl ResponseMode {
    /// The mode that answers a surprise: a streak of more than five rounds
    /// asks for a pivot; otherwise little surprise provokes, much surprise
    /// escalates, and what lies between is inverted.
    pub open spec fn answer(surprise: Value, streak: u32) -> ResponseMode {
        if streak > 5 {
            ResponseMode::Pivot
        } else if surprise.less(Value::ratio(2, 10)) {
            ResponseMode::Provoked
        } else if Value::ratio(7, 10).less(surprise) {
            ResponseMode::Escalate
        } else {
            ResponseMode::Invert
        }
    }

    /// Picks the mode for the next round. The number of the round decides
    /// nothing: late and early rounds are inverted alike.
    pub fn auto(surprise: Binary64, streak: u32, _round: u32) -> (mode: ResponseMode)
        ensures
            mode == ResponseMode::answer(surprise@, streak),
    {
        if streak > 5 {
            ResponseMode::Pivot
        } else if surprise.lt(Binary64::ratio(2, 10)) {
            ResponseMode::Provoked
        } else if Binary64::ratio(7, 10).lt(surprise) {
            ResponseMode::Escalate
        } else {
            ResponseMode::Invert
        }
    }
}

/// A single riff output.
#[derive(Debug, Clone)]
pub struct Riff {
    pub agent_id: u32,
    pub round: u32,
    pub quality: Quality,
    pub surprise: Binary64,
    pub loc: usize,
    pub tests: usize,
    pub features: Vec<String>,
    /// The spec that this riff targets.
    pub spec_id: Option<String>,
}

/// What a riff holds.
#[verifier::ext_equal]
pub struct RiffView {
    pub agent_id: u32,
    pub round: u32,
    pub quality: Quality,
    pub surprise: Value,
    pub loc: usize,
    pub tests: usize,
    pub features: Seq<Seq<char>>,
    pub spec_id: Option<Seq<char>>,
}

impl View for Riff {
    type V = RiffView;

    open spec fn view(&self) -> RiffView {
        RiffView {
            agent_id: self.agent_id,
            round: self.round,
            quality: self.quality,
            surprise: self.surprise@,
            loc: self.loc,
            tests: self.tests,
            features: text::texts(self.features@),
            spec_id: text::optional(self.spec_id),
        }
    }
}

impl RiffView {
    /// A riff without output, for no spec.
    pub open spec fn bare(agent_id: u32, round: u32, quality: Quality, surprise: Value) -> RiffView {
        RiffView {
            agent_id,
            round,
            quality,
            surprise,
            loc: 0,
            tests: 0,
            features: Seq::empty(),
            spec_id: None,
        }
    }

    /// The riff with the given output.
    pub open spec fn with_output(
        self,
        loc: usize,
        tests: usize,
        features: Seq<Seq<char>>,
    ) -> RiffView {
        RiffView { loc, tests, features, ..self }
    }

    /// The riff, for the given spec.
    pub open spec fn targeting(self, id: Seq<char>) -> RiffView {
        RiffView { spec_id: Some(id), ..self }
    }

    /// The lines times the tests, weighed by quality and surprise.
    pub open spec fn productivity(self) -> Value {
        Value::natural(self.loc as nat).times(Value::natural(self.tests as nat)).times(
            self.quality.weight(),
        ).times(Value::ratio(1, 2).plus(self.surprise))
    }
}

impl Riff {
    pub fn new(agent_id: u32, round: u32, quality: Quality, surprise: Binary64) -> (riff: Riff)
        ensures
            riff@ == RiffView::bare(agent_id, round, quality, surprise@),
            riff.surprise == surprise,
    {
        let riff = Riff {
            agent_id,
            round,
            quality,
            surprise,
            loc: 0,
            tests: 0,
            features: Vec::new(),
            spec_id: None,
        };
        assert(riff@.features =~= Seq::empty());
        riff
    }

    pub fn with_output(&mut self, loc: usize, tests: usize, features: Vec<&str>)
        ensures
            final(self)@ == old(self)@.with_output(loc, tests, text::slices(features@)),
            final(self).surprise == old(self).surprise,
    {
        self.loc = loc;
        self.tests = tests;
        self.features = text::owned(&features);
    }

    pub fn productivity(&self) -> (p: Binary64)
        ensures
            p@ == self@.productivity(),
    {
        let q: Binary64 = match self.quality {
            Quality::Weak => Binary64::ratio(1, 2),
            Quality::Okay => Binary64::ratio(1, 1),
            Quality::Strong => Binary64::ratio(2, 1),
        };
        Binary64::from_u64(self.loc as u64).mul(Binary64::from_u64(self.tests as u64)).mul(q).mul(
            Binary64::ratio(1, 2).add(self.surprise),
        )
    }
}

/// A round of the riff session.
#[derive(Debug, Clone)]
pub struct Round {
    pub number: u32,
    pub riffs: Vec<Riff>,
    pub best_agent: u32,
    pub quality_gap: i8,
    pub surprise_sum: Binary64,
}

/// What a round holds.
#[verifier::ext_equal]
pub struct RoundView {
    pub number: u32,
    pub riffs: Seq<RiffView>,
    pub best_agent: u32,
    pub quality_gap: int,
    pub surprise_sum: Value,
}

impl View for Round {
    type V = RoundView;

    open spec fn view(&self) -> RoundView {
        RoundView {
            number: self.number,
            riffs: self.riffs@.map_values(|r: Riff| r@),
            best_agent: self.best_agent,
            quality_gap: self.quality_gap as int,
            surprise_sum: self.surprise_sum@,
        }
    }
}

impl RoundView {
    /// Whether riff `i` leads: none is better, and no later one is as good.
    pub open spec fn leads(riffs: Seq<RiffView>, i: int) -> bool {
        &&& 0 <= i < riffs.len()
        &&& forall|j: int|
            0 <= j < riffs.len() ==> (#[trigger] riffs[j]).quality.rank() <= riffs[i].quality.rank()
        &&& forall|j: int|
            i < j < riffs.len() ==> (#[trigger] riffs[j]).quality.rank() < riffs[i].quality.rank()
    }

    /// Whether riff `i` trails: none is worse.
    pub open spec fn trails(riffs: Seq<RiffView>, i: int) -> bool {
        &&& 0 <= i < riffs.len()
        &&& forall|j: int|
            0 <= j < riffs.len() ==> riffs[i].quality.rank() <= (#[trigger] riffs[j]).quality.rank()
    }

    /// Whether the round's best agent and quality gap are those of its riffs:
    /// the agent of the leading riff, and the ranks between best and worst.
    /// A round without riffs has agent zero and no gap.
    pub open spec fn settled(self) -> bool {
        if self.riffs.len() == 0 {
            self.best_agent == 0 && self.quality_gap == 0
        } else {
            exists|i: int, j: int|
                {
                    &&& #[trigger] RoundView::leads(self.riffs, i)
                    &&& #[trigger] RoundView::trails(self.riffs, j)
                    &&& self.best_agent == self.riffs[i].agent_id
                    &&& self.quality_gap == self.riffs[i].quality.rank()
                        - self.riffs[j].quality.rank()
                }
        }
    }

    /// The surprise of the riffs, added up in the order in which they came.
    pub open spec fn surprise_of(riffs: Seq<RiffView>) -> Value
        decreases riffs.len(),
    {
        if riffs.len() == 0 {
            Value::Finite { negative: false, units: 0 }
        } else {
            RoundView::surprise_of(riffs.drop_last()).plus(riffs.last().surprise)
        }
    }

    /// Whether everything that the round keeps about its riffs is up to date.
    pub open spec fn consistent(self) -> bool {
        &&& self.settled()
        &&& self.surprise_sum == RoundView::surprise_of(self.riffs)
    }

    /// Surprise above three tenths, or riffs of different quality.
    pub open spec fn productive(self) -> bool {
        Value::ratio(3, 10).less(self.surprise_sum) || self.quality_gap > 0
    }

    /// A round without riffs.
    pub open spec fn fresh(number: u32) -> RoundView {
        RoundView {
            number,
            riffs: Seq::empty(),
            best_agent: 0,
            quality_gap: 0,
            surprise_sum: Value::Finite { negative: false, units: 0 },
        }
    }

    /// The round with one more riff.
    pub open spec fn extended(self, riff: RiffView, next: RoundView) -> bool {
        &&& next.number == self.number
        &&& next.riffs == self.riffs.push(riff)
        &&& next.surprise_sum == self.surprise_sum.plus(riff.surprise)
        &&& next.settled()
    }
}

impl Round {
    pub(crate) fn new(number: u32) -> (round: Round)
        ensures
            round@ == RoundView::fresh(number),
            round@.consistent(),
    {
        let round = Round {
            number,
            riffs: Vec::new(),
            best_agent: 0,
            quality_gap: 0,
            surprise_sum: Binary64::zero(),
        };
        assert(round@.riffs =~= Seq::empty());
        round
    }

    pub(crate) fn add(&mut self, riff: Riff)
        ensures
            old(self)@.extended(riff@, final(self)@),
            final(self).riffs@ == old(self).riffs@.push(riff),
            old(self)@.consistent() ==> final(self)@.consistent(),
    {
        self.surprise_sum = self.surprise_sum.add(riff.surprise);
        self.riffs.push(riff);
        proof {
            assert(self@.riffs =~= old(self)@.riffs.push(riff@));
            assert(self@.riffs.drop_last() =~= old(self)@.riffs);
        }
        self.recalc();
    }

    fn recalc(&mut self)
        ensures
            final(self).riffs@ == old(self).riffs@,
            final(self)@.number == old(self)@.number,
            final(self)@.surprise_sum == old(self)@.surprise_sum,
            old(self).riffs@.len() == 0 ==> *final(self) == *old(self),
            old(self).riffs@.len() > 0 ==> final(self)@.settled(),
    {
        let n: usize = self.riffs.len();
        if n == 0 {
            return;
        }
        let ghost riffs = self@.riffs;
        let mut best: usize = 0;
        let mut worst: usize = 0;
        let mut i: usize = 1;
        while i < n
            invariant
                *self == *old(self),
                riffs == self@.riffs,
                n == self.riffs@.len(),
                1 <= i <= n,
                best < i,
                worst < i,
                forall|j: int|
                    0 <= j < i ==> (#[trigger] riffs[j]).quality.rank()
                        <= riffs[best as int].quality.rank(),
                forall|j: int|
                    best < j < i ==> (#[trigger] riffs[j]).quality.rank()
                        < riffs[best as int].quality.rank(),
                forall|j: int|
                    0 <= j < i ==> riffs[worst as int].quality.rank() <= (
                    #[trigger] riffs[j]).quality.rank(),
            decreases n - i,
        {
            assert(riffs[i as int] == self.riffs@[i as int]@);
            assert(riffs[best as int] == self.riffs@[best as int]@);
            assert(riffs[worst as int] == self.riffs@[worst as int]@);
            if self.riffs[i].quality.to_i8() >= self.riffs[best].quality.to_i8() {
                best = i;
            }
            if self.riffs[i].quality.to_i8() < self.riffs[worst].quality.to_i8() {
                worst = i;
            }
            i = i + 1;
        }
        assert(riffs[best as int] == self.riffs@[best as int]@);
        assert(riffs[worst as int] == self.riffs@[worst as int]@);
        self.best_agent = self.riffs[best].agent_id;
        self.quality_gap = self.riffs[best].quality.to_i8() - self.riffs[worst].quality.to_i8();
        assert(self@.riffs == riffs);
        assert(RoundView::leads(riffs, best as int));
        assert(RoundView::trails(riffs, worst as int));
    }

    pub fn was_productive(&self) -> (r: bool)
        ensures
            r == self@.productive(),
    {
        Binary64::ratio(3, 10).lt(self.surprise_sum) || self.quality_gap > 0
    }
}

/// The riffs of a round leave no choice of its best agent and its gap.
pub proof fn riffs_determine_the_standing(a: RoundView, b: RoundView)
    requires
        a.riffs == b.riffs,
        a.settled(),
        b.settled(),
    ensures
        a.best_agent == b.best_agent,
        a.quality_gap == b.quality_gap,
{
}

/// The quality gap of a round lies between zero and two.
pub proof fn quality_gap_is_at_most_two(round: RoundView)
    requires
        round.settled(),
    ensures
        0 <= round.quality_gap <= 2,
{
    if round.riffs.len() > 0 {
        let (i, j) = choose|i: int, j: int|
            {
                &&& #[trigger] RoundView::leads(round.riffs, i)
                &&& #[trigger] RoundView::trails(round.riffs, j)
                &&& round.best_agent == round.riffs[i].agent_id
                &&& round.quality_gap == round.riffs[i].quality.rank()
                    - round.riffs[j].quality.rank()
            };
        assert(round.riffs[j].quality.rank() <= round.riffs[i].quality.rank());
    }
}

/// A round of riffs of one quality has no gap, and its last agent leads.
pub proof fn equal_riffs_leave_no_gap(round: RoundView)
    requires
        round.settled(),
        round.riffs.len() > 0,
        forall|i: int|
            0 <= i < round.riffs.len() ==> (#[trigger] round.riffs[i]).quality
                == round.riffs[0].quality,
    ensures
        round.quality_gap == 0,
        round.best_agent == round.riffs.last().agent_id,
{
    assert(RoundView::leads(round.riffs, round.riffs.len() - 1));
    assert(round.riffs.last().quality == round.riffs[0].quality);
}

/// A round that was not productive asks for no escalation.
pub proof fn dull_rounds_do_not_escalate(round: RoundView)
    requires
        !round.productive(),
    ensures
        ResponseMode::answer(round.surprise_sum, 0) == ResponseMode::Provoked
            || ResponseMode::answer(round.surprise_sum, 0) == ResponseMode::Invert,
{
    order::ratios_keep_order(3, 7, 10);
}

/// A round in which two riffs differ in quality is productive, however small
/// the difference and the surprise.
pub proof fn different_qualities_are_productive(round: RoundView, i: int, j: int)
    requires
        round.settled(),
        0 <= i < round.riffs.len(),
        0 <= j < round.riffs.len(),
        round.riffs[i].quality != round.riffs[j].quality,
    ensures
        round.productive(),
{
    let (a, b) = choose|a: int, b: int|
        {
            &&& #[trigger] RoundView::leads(round.riffs, a)
            &&& #[trigger] RoundView::trails(round.riffs, b)
            &&& round.best_agent == round.riffs[a].agent_id
            &&& round.quality_gap == round.riffs[a].quality.rank()
                - round.riffs[b].quality.rank()
        };
    assert(round.riffs[i].quality.rank() <= round.riffs[a].quality.rank());
    assert(round.riffs[j].quality.rank() <= round.riffs[a].quality.rank());
    assert(round.riffs[b].quality.rank() <= round.riffs[i].quality.rank());
    assert(round.riffs[b].quality.rank() <= round.riffs[j].quality.rank());
}

/// A round of riffs of one quality, or without riffs, is productive just where
/// its surprise is greater than three tenths.
pub proof fn equal_qualities_need_surprise(round: RoundView)
    requires
        round.settled(),
        forall|i: int, j: int|
            0 <= i < round.riffs.len() && 0 <= j < round.riffs.len() ==> (
            #[trigger] round.riffs[i]).quality == (#[trigger] round.riffs[j]).quality,
    ensures
        round.productive() <==> Value::ratio(3, 10).less(round.surprise_sum),
{
    if round.riffs.len() > 0 {
        equal_riffs_leave_no_gap(round);
    }
}

/// The gap of a round is two where it has strong and weak riffs, one where it
/// has two neighbouring qualities, and zero where it has one.
pub proof fn the_gap_counts_the_ranks_between(round: RoundView)
    requires
        round.settled(),
    ensures
        ({
            let has = |q: Quality|
                exists|i: int| 0 <= i < round.riffs.len() && (#[trigger] round.riffs[i]).quality == q;
            &&& round.quality_gap == 2 <==> has(Quality::Strong) && has(Quality::Weak)
            &&& round.quality_gap == 1 <==> has(Quality::Okay) && (has(Quality::Strong) != has(
                Quality::Weak,
            ))
        }),
{
    let riffs = round.riffs;
    if riffs.len() > 0 {
        let (a, b) = choose|a: int, b: int|
            {
                &&& #[trigger] RoundView::leads(riffs, a)
                &&& #[trigger] RoundView::trails(riffs, b)
                &&& round.best_agent == riffs[a].agent_id
                &&& round.quality_gap == riffs[a].quality.rank() - riffs[b].quality.rank()
            };
        assert(riffs[b].quality.rank() <= riffs[a].quality.rank());
        let strong = exists|i: int|
            0 <= i < riffs.len() && (#[trigger] riffs[i]).quality == Quality::Strong;
        let okay = exists|i: int|
            0 <= i < riffs.len() && (#[trigger] riffs[i]).quality == Quality::Okay;
        let weak = exists|i: int|
            0 <= i < riffs.len() && (#[trigger] riffs[i]).quality == Quality::Weak;
        if strong {
            let i = choose|i: int|
                0 <= i < riffs.len() && (#[trigger] riffs[i]).quality == Quality::Strong;
            assert(riffs[i].quality.rank() <= riffs[a].quality.rank());
        }
        if weak {
            let i = choose|i: int|
                0 <= i < riffs.len() && (#[trigger] riffs[i]).quality == Quality::Weak;
            assert(riffs[b].quality.rank() <= riffs[i].quality.rank());
        }
        if okay {
            let i = choose|i: int|
                0 <= i < riffs.len() && (#[trigger] riffs[i]).quality == Quality::Okay;
            assert(riffs[i].quality.rank() <= riffs[a].quality.rank());
            assert(riffs[b].quality.rank() <= riffs[i].quality.rank());
        }
    }
}

/// The best agent played a riff that no riff of the round beats, and that no
/// later one equals.
pub proof fn the_best_agent_played_the_last_of_the_best(round: RoundView)
    requires
        round.settled(),
        round.riffs.len() > 0,
    ensures
        exists|i: int|
            {
                &&& 0 <= i < round.riffs.len()
                &&& (#[trigger] round.riffs[i]).agent_id == round.best_agent
                &&& forall|j: int|
                    0 <= j < round.riffs.len() ==> {
                        let q = (#[trigger] round.riffs[j]).quality;
                        let best = round.riffs[i].quality;
                        &&& best == Quality::Weak ==> q == Quality::Weak
                        &&& best == Quality::Okay ==> q != Quality::Strong
                        &&& j > i ==> q != best
                    }
            },
{
    let (a, b) = choose|a: int, b: int|
        {
            &&& #[trigger] RoundView::leads(round.riffs, a)
            &&& #[trigger] RoundView::trails(round.riffs, b)
            &&& round.best_agent == round.riffs[a].agent_id
            &&& round.quality_gap == round.riffs[a].quality.rank()
                - round.riffs[b].quality.rank()
        };
    assert(round.riffs[a].agent_id == round.best_agent);
}

/// After more than five productive rounds in a row the answer is a pivot,
/// whatever the surprise; before that it never is, and the streak decides
/// nothing.
pub proof fn streaks_end_in_a_pivot(surprise: Value, streak: u32)
    ensures
        streak >= 6 ==> ResponseMode::answer(surprise, streak) == ResponseMode::Pivot,
        streak <= 5 ==> ResponseMode::answer(surprise, streak) != ResponseMode::Pivot,
        streak <= 5 ==> ResponseMode::answer(surprise, streak) == ResponseMode::answer(surprise, 0),
{
}

/// Without a long streak, a surprise below the literal 0.2 provokes and one
/// above the literal 0.7 escalates. What lies between, and what is no number,
/// is inverted.
pub proof fn modes_go_by_the_bits(bits: u64)
    ensures
        ({
            let mode = ResponseMode::answer(Value::of_bits(bits), 0);
            let sign = 0x8000_0000_0000_0000u64;
            &&& bits <= rounding::INFINITY ==> {
                &&& mode == ResponseMode::Provoked <==> bits < 0x3FC9_9999_9999_999A
                &&& mode == ResponseMode::Escalate <==> bits > 0x3FE6_6666_6666_6666
                &&& mode == ResponseMode::Invert <==> 0x3FC9_9999_9999_999A <= bits
                    <= 0x3FE6_6666_6666_6666
            }
            &&& sign <= bits <= sign + rounding::INFINITY ==> mode == ResponseMode::Provoked
            &&& rounding::INFINITY < bits < sign || sign + rounding::INFINITY < bits ==> mode
                == ResponseMode::Invert
        }),
{
    let low = 0x3FC9_9999_9999_999Au64;
    let high = 0x3FE6_6666_6666_6666u64;
    order::tenths_have_their_bits(2);
    order::tenths_have_their_bits(7);
    if bits <= rounding::INFINITY {
        if bits < low {
            order::greater_bits_are_greater(bits, low);
        } else if low < bits {
            order::greater_bits_are_greater(low, bits);
        }
        if bits < high {
            order::greater_bits_are_greater(bits, high);
        } else if high < bits {
            order::greater_bits_are_greater(high, bits);
        }
    }
    order::tenths_are_positive(2);
}

/// A bare riff keeps what it is given, and has neither output nor spec.
pub proof fn bare_riffs_have_no_output(agent_id: u32, round: u32, quality: Quality, surprise: Value)
    ensures
        ({
            let riff = RiffView::bare(agent_id, round, quality, surprise);
            &&& riff.agent_id == agent_id
            &&& riff.round == round
            &&& riff.quality == quality
            &&& riff.surprise == surprise
            &&& riff.loc == 0
            &&& riff.tests == 0
            &&& riff.features.len() == 0
            &&& riff.spec_id is None
        }),
{
}

/// The exact weight of a quality.
pub open spec fn exact_weight(quality: Quality) -> real {
    match quality {
        Quality::Weak => 1real / 2real,
        Quality::Okay => 1real,
        Quality::Strong => 2real,
    }
}

proof fn lemma_weight_is_exact(quality: Quality)
    ensures
        quality.weight() is Finite,
        accuracy::exact(quality.weight()) == exact_weight(quality),
{
    order::small_naturals_are_exact(1);
    order::small_naturals_are_exact(2);
    accuracy::naturals_are_close(1);
    accuracy::naturals_are_close(2);
    lemma_half_is_exact();
}

proof fn lemma_half_is_exact()
    ensures
        Value::ratio(1, 2) is Finite,
        accuracy::exact(Value::ratio(1, 2)) == 1real / 2real,
{
    reveal(accuracy::exact);
    order::one_half_is_exact();
    lemma_pow2_unfold(1074);
    lemma_pow2_pos(1073);
    let u = pow2(1074) as real;
    assert(u == 2real * pow2(1073) as real);
    accuracy::lemma_quotient_is(pow2(1073) as real, u, 1real / 2real);
}

/// The exact product of lines, tests, weight, and surprise above minus a half.
pub open spec fn exact_productivity(riff: RiffView) -> real {
    riff.loc as real * riff.tests as real * exact_weight(riff.quality) * (1real / 2real
        + accuracy::exact(riff.surprise))
}

/// The productivity of a riff is the product of its lines, its tests, a half,
/// one or two for its quality, and a half more than its surprise, up to
/// rounding.
pub proof fn productivity_is_a_product(riff: RiffView)
    requires
        riff.surprise is Finite,
        accuracy::size(accuracy::exact(riff.surprise)) <= pow2(600) as real,
    ensures
        riff.productivity() is Finite,
        accuracy::size(accuracy::exact(riff.productivity()) - exact_productivity(riff)) <= 16real * (
        accuracy::grain() * accuracy::size(exact_productivity(riff))) + 32real * (accuracy::speck()
            * (1real + accuracy::size(accuracy::exact(riff.surprise)))),
{
    let e = accuracy::grain();
    let h = accuracy::speck();
    let loc = Value::natural(riff.loc as nat);
    let tests = Value::natural(riff.tests as nat);
    let weight = riff.quality.weight();
    let rest = Value::ratio(1, 2).plus(riff.surprise);
    let l = riff.loc as real;
    let t = riff.tests as real;
    let w = exact_weight(riff.quality);
    let s = accuracy::exact(riff.surprise);
    let r = 1real / 2real + s;
    let b64 = pow2(64) as real;
    accuracy::lemma_speck_is_small();
    lemma_weight_is_exact(riff.quality);
    lemma_half_is_exact();
    accuracy::naturals_are_close(riff.loc as nat);
    accuracy::naturals_are_close(riff.tests as nat);
    lemma2_to64();
    lemma_pow2_adds(64, 64);
    lemma_pow2_adds(128, 10);
    lemma_pow2_adds(138, 602);
    lemma_pow2_adds(600, 2);
    lemma_pow2_strictly_increases(138, 900);
    lemma_pow2_strictly_increases(602, 900);
    lemma_pow2_strictly_increases(740, 900);
    lemma_pow2_pos(600);
    assert(pow2(138) as real == 1024real * (b64 * b64)) by {
        assert((pow2(64) * pow2(64)) as real == b64 * b64) by (nonlinear_arith)
            requires
                b64 == pow2(64) as real,
        ;
    }
    // Sizes.
    accuracy::lemma_scaled(e, 1real, l);
    accuracy::lemma_scaled(e, 1real, t);
    let a = accuracy::exact(loc);
    let b = accuracy::exact(tests);
    assert(accuracy::size(a) <= 2real * b64 && accuracy::size(b) <= 2real * b64);
    let lt = l * t;
    accuracy::lemma_scaled(l, b64, t);
    accuracy::lemma_scaled(t, b64, b64);
    accuracy::lemma_scaled(0real, l, t);
    assert(0real <= lt <= b64 * b64);
    accuracy::lemma_size_of_product(a, b);
    let ab = accuracy::size(a * b);
    assert(ab <= 4real * (b64 * b64)) by {
        accuracy::lemma_scaled(accuracy::size(a), 2real * b64, accuracy::size(b));
        accuracy::lemma_scaled(accuracy::size(b), 2real * b64, 2real * b64);
        assert((2real * b64) * (2real * b64) == 4real * (b64 * b64)) by (nonlinear_arith);
    }
    accuracy::products_are_close(loc, tests);
    let p = accuracy::exact(loc.times(tests));
    accuracy::lemma_product_error(l, a, e, 0real, t, b, e, p);
    assert(2real * (0real * accuracy::size(t)) == 0real) by (nonlinear_arith);
    assert(accuracy::size(p - lt) <= 4real * (e * lt) + h);
    let elt = e * lt;
    accuracy::lemma_scaled(e, 1real, lt);
    accuracy::lemma_scaled(0real, e, lt);
    // Times the weight.
    let c = accuracy::exact(weight);
    let pw = accuracy::size(p * c);
    accuracy::lemma_size_of_product(p, c);
    assert(accuracy::size(p) <= 6real * (b64 * b64));
    accuracy::lemma_scaled(accuracy::size(p), 6real * (b64 * b64), c);
    accuracy::lemma_scaled(c, 2real, 6real * (b64 * b64));
    accuracy::products_are_close(loc.times(tests), weight);
    let q = accuracy::exact(loc.times(tests).times(weight));
    assert((4real * e) * lt == 4real * elt) by (nonlinear_arith)
        requires
            elt == e * lt,
    ;
    assert(accuracy::size(c - w) == 0real && 0real * accuracy::size(w) == 0real);
    accuracy::lemma_product_error(lt, p, 4real * e, h, w, c, 0real, q);
    let ltw = lt * w;
    accuracy::lemma_size_of_product(lt, w);
    accuracy::lemma_scaled(0real, lt, w);
    assert(accuracy::size(ltw) == ltw);
    let eltw = e * ltw;
    assert((4real * e) * ltw == 4real * eltw) by (nonlinear_arith)
        requires
            eltw == e * ltw,
    ;
    assert(0real * ltw == 0real);
    accuracy::lemma_scaled(w, 2real, h);
    assert(accuracy::size(q - ltw) <= 6real * eltw + 5real * h);
    accuracy::lemma_scaled(e, 1real, ltw);
    accuracy::lemma_scaled(0real, e, ltw);
    accuracy::lemma_scaled(w, 2real, lt);
    assert(accuracy::size(q) <= 20real * (b64 * b64));
    // Times the rest.
    assert(accuracy::size(r) <= 4real * pow2(600) as real);
    accuracy::sums_are_close(Value::ratio(1, 2), riff.surprise);
    let d = accuracy::exact(rest);
    let n = accuracy::size(r);
    accuracy::lemma_scaled(e, 1real, n);
    assert(accuracy::size(d) <= 8real * pow2(600) as real);
    accuracy::lemma_size_of_product(q, d);
    let six = pow2(600) as real;
    assert(accuracy::size(q * d) <= 160real * (b64 * b64 * six)) by {
        accuracy::lemma_scaled(accuracy::size(q), 20real * (b64 * b64), accuracy::size(d));
        accuracy::lemma_scaled(accuracy::size(d), 8real * six, 20real * (b64 * b64));
        assert((20real * (b64 * b64)) * (8real * six) == 160real * (b64 * b64 * six))
            by (nonlinear_arith);
    }
    assert(pow2(740) as real == 1024real * (b64 * b64) * (4real * six)) by {
        assert((pow2(138) * pow2(602)) as real == pow2(138) as real * pow2(602) as real)
            by (nonlinear_arith);
    }
    assert(1024real * (b64 * b64) * (4real * six) == 4096real * (b64 * b64 * six))
        by (nonlinear_arith);
    accuracy::lemma_scaled(0real, b64, b64);
    accuracy::lemma_scaled(0real, b64 * b64, six);
    accuracy::products_are_close(loc.times(tests).times(weight), rest);
    let z = accuracy::exact(riff.productivity());
    assert((6real * e) * ltw == 6real * eltw) by (nonlinear_arith)
        requires
            eltw == e * ltw,
    ;
    accuracy::lemma_product_error(ltw, q, 6real * e, 5real * h, r, d, e, z);
    let x = ltw * r;
    let ex = e * accuracy::size(x);
    assert((6real * e) * accuracy::size(x) == 6real * ex) by (nonlinear_arith)
        requires
            ex == e * accuracy::size(x),
    ;
    assert(x == exact_productivity(riff));
    let k = accuracy::size(s);
    accuracy::lemma_scaled(n, 1real + k, 5real * h);
    accuracy::lemma_scaled(0real, k, h);
    accuracy::lemma_scaled(0real, e, accuracy::size(x));
    assert(h * (1real + k) == h + h * k) by (nonlinear_arith);
    assert((5real * h) * (1real + k) == 5real * (h + h * k)) by (nonlinear_arith);
}

/// The surprise of several riffs, one by one.
pub open spec fn surprises(riffs: Seq<RiffView>) -> Seq<Value> {
    riffs.map_values(|r: RiffView| r.surprise)
}

proof fn lemma_surprise_is_added(riffs: Seq<RiffView>)
    ensures
        RoundView::surprise_of(riffs) == accuracy::added(
            Value::Finite { negative: false, units: 0 },
            surprises(riffs),
        ),
    decreases riffs.len(),
{
    if riffs.len() > 0 {
        lemma_surprise_is_added(riffs.drop_last());
        assert(surprises(riffs).drop_last() =~= surprises(riffs.drop_last()));
    }
}

/// The surprise of a round is the sum of the surprise of its riffs, up to
/// rounding.
pub proof fn rounds_sum_up_surprise(round: RoundView)
    requires
        round.consistent(),
        accuracy::all_finite(surprises(round.riffs)),
        round.riffs.len() <= 0x1_0000_0000_0000,
        accuracy::exact_size(surprises(round.riffs)) * 1000real <= accuracy::huge(),
    ensures
        round.surprise_sum is Finite,
        accuracy::size(
            accuracy::exact(round.surprise_sum) - accuracy::exact_sum(surprises(round.riffs)),
        ) <= 2real * round.riffs.len() as real * accuracy::grain() * accuracy::exact_size(
            surprises(round.riffs),
        ),
{
    let zero = Value::Finite { negative: false, units: 0 };
    lemma_surprise_is_added(round.riffs);
    accuracy::lemma_units_give_size(zero);
    accuracy::long_sums_are_close(zero, surprises(round.riffs));
}

/// A riff has just the output that it is given, and keeps the rest.
pub proof fn riffs_have_the_output_they_are_given(
    riff: RiffView,
    loc: usize,
    tests: usize,
    features: Seq<Seq<char>>,
)
    ensures
        ({
            let played = riff.with_output(loc, tests, features);
            &&& played.loc == loc
            &&& played.tests == tests
            &&& played.features == features
            &&& played.agent_id == riff.agent_id
            &&& played.round == riff.round
            &&& played.quality == riff.quality
            &&& played.surprise == riff.surprise
            &&& played.spec_id == riff.spec_id
            &&& played.with_output(riff.loc, riff.tests, riff.features) == riff
        }),
{
}

/// A riff for a spec differs from the riff itself in the spec alone.
pub proof fn riffs_target_the_spec_they_are_given(riff: RiffView, id: Seq<char>)
    ensures
        riff.targeting(id).spec_id == Some(id),
        (RiffView { spec_id: riff.spec_id, ..riff.targeting(id) }) == riff,
        riff.targeting(id).productivity() == riff.productivity(),
{
}

/// A fresh round has its number, no riffs and no surprise, and is up to date
/// but not productive.
pub proof fn fresh_rounds_are_empty(number: u32)
    ensures
        RoundView::fresh(number).number == number,
        RoundView::fresh(number).riffs.len() == 0,
        RoundView::fresh(number).best_agent == 0,
        accuracy::exact(RoundView::fresh(number).surprise_sum) == 0real,
        RoundView::fresh(number).consistent(),
        !RoundView::fresh(number).productive(),
{
    accuracy::lemma_units_give_size(RoundView::fresh(number).surprise_sum);
    order::tenths_are_positive(3);
}

} // verus!
