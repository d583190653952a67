//! Cross-session learning: what works, remembered per agent and mode.

use std::collections::HashMap;

use vstd::arithmetic::power2::*;
use vstd::prelude::*;

use crate::accuracy;
use crate::binary64::{Binary64, Value};
use crate::dictionary::Dictionary;
use crate::metrics::SessionMetrics;
use crate::order;
use crate::riff::{Quality, ResponseMode, Riff, RiffView, Round};

verus! {

broadcast use vstd::std_specs::hash::group_hash_axioms;

/// Accumulated success of an agent in a mode.
#[derive(Debug, Clone, Copy)]
pub struct ModeStats {
    pub total_uses: u32,
    pub total_surprise: Binary64,
    pub strong_count: u32,
    pub weak_count: u32,
}

/// What an agent did in a mode, counted without bound.
pub struct Tally {
    pub total_uses: nat,
    pub total_surprise: Value,
    pub strong_count: nat,
    pub weak_count: nat,
}

impl View for ModeStats {
    type V = Tally;

    open spec fn view(&self) -> Tally {
        Tally {
            total_uses: self.total_uses as nat,
            total_surprise: self.total_surprise@,
            strong_count: self.strong_count as nat,
            weak_count: self.weak_count as nat,
        }
    }
}

impl Tally {
    /// Nothing done yet.
    pub open spec fn blank() -> Tally {
        Tally {
            total_uses: 0,
            total_surprise: Value::Finite { negative: false, units: 0 },
            strong_count: 0,
            weak_count: 0,
        }
    }

    /// One riff more.
    pub open spec fn counting(self, riff: RiffView) -> Tally {
        Tally {
            total_uses: self.total_uses + 1,
            total_surprise: self.total_surprise.plus(riff.surprise),
            strong_count: if riff.quality == Quality::Strong {
                self.strong_count + 1
            } else {
                self.strong_count
            },
            weak_count: if riff.quality == Quality::Weak {
                self.weak_count + 1
            } else {
                self.weak_count
            },
        }
    }

    /// Whether the counts fit their fields.
    pub open spec fn fits(self) -> bool {
        &&& self.total_uses <= u32::MAX
        &&& self.strong_count <= u32::MAX
        &&& self.weak_count <= u32::MAX
    }

    /// Whether no count is less than in `other`.
    pub open spec fn covers(self, other: Tally) -> bool {
        &&& self.total_uses >= other.total_uses
        &&& self.strong_count >= other.strong_count
        &&& self.weak_count >= other.weak_count
    }

    /// Surprise per use; zero before the first.
    pub open spec fn avg_surprise(self) -> Value {
        if self.total_uses == 0 {
            Value::Finite { negative: false, units: 0 }
        } else {
            self.total_surprise.over(Value::natural(self.total_uses))
        }
    }

    /// Strong riffs per use; a half before the first.
    pub open spec fn success_rate(self) -> Value {
        if self.total_uses == 0 {
            Value::ratio(1, 2)
        } else {
            Value::natural(self.strong_count).over(Value::natural(self.total_uses))
        }
    }

    /// The predicted score: six tenths surprise, four tenths success.
    pub open spec fn score(self) -> Value {
        self.avg_surprise().times(Value::ratio(6, 10)).plus(
            self.success_rate().times(Value::ratio(4, 10)),
        )
    }
}

impl Default for ModeStats {
    fn default() -> (s: ModeStats)
        ensures
            s@ == Tally::blank(),
    {
        ModeStats {
            total_uses: 0,
            total_surprise: Binary64::zero(),
            strong_count: 0,
            weak_count: 0,
        }
    }
}

impl ModeStats {
    pub fn avg_surprise(&self) -> (r: Binary64)
        ensures
            r@ == self@.avg_surprise(),
    {
        if self.total_uses == 0 {
            Binary64::zero()
        } else {
            self.total_surprise.div(Binary64::from_u64(self.total_uses as u64))
        }
    }

    pub fn success_rate(&self) -> (r: Binary64)
        ensures
            r@ == self@.success_rate(),
    {
        if self.total_uses == 0 {
            Binary64::ratio(1, 2)
        } else {
            Binary64::from_u64(self.strong_count as u64).div(
                Binary64::from_u64(self.total_uses as u64),
            )
        }
    }

    /// The predicted score.
    fn score(&self) -> (r: Binary64)
        ensures
            r@ == self@.score(),
    {
        self.avg_surprise().mul(Binary64::ratio(6, 10)).add(
            self.success_rate().mul(Binary64::ratio(4, 10)),
        )
    }

    /// Counts one riff more.
    fn count(self, riff: &Riff) -> (r: ModeStats)
        requires
            self@.counting(riff@).fits(),
        ensures
            r@ == self@.counting(riff@),
    {
        ModeStats {
            total_uses: self.total_uses + 1,
            total_surprise: self.total_surprise.add(riff.surprise),
            strong_count: if riff.quality == Quality::Strong {
                self.strong_count + 1
            } else {
                self.strong_count
            },
            weak_count: if riff.quality == Quality::Weak {
                self.weak_count + 1
            } else {
                self.weak_count
            },
        }
    }
}

/// What is remembered of each agent in each mode.
pub type Tallies = Map<(u32, ResponseMode), Tally>;

/// What is remembered of an agent in a mode; nothing if it was never tried.
pub open spec fn tally_at(tallies: Tallies, agent_id: u32, mode: ResponseMode) -> Tally {
    if tallies.contains_key((agent_id, mode)) {
        tallies[(agent_id, mode)]
    } else {
        Tally::blank()
    }
}

/// The tallies after one riff more, which counts for the mode that answers
/// its surprise.
pub open spec fn after_riff(tallies: Tallies, riff: RiffView) -> Tallies {
    let mode = ResponseMode::answer(riff.surprise, 0);
    tallies.insert(
        (riff.agent_id, mode),
        tally_at(tallies, riff.agent_id, mode).counting(riff),
    )
}

/// The tallies after the riffs of a round.
pub open spec fn after_riffs(tallies: Tallies, riffs: Seq<RiffView>) -> Tallies
    decreases riffs.len(),
{
    if riffs.len() == 0 {
        tallies
    } else {
        after_riff(after_riffs(tallies, riffs.drop_last()), riffs.last())
    }
}

/// The tallies after several rounds.
pub open spec fn after_rounds(tallies: Tallies, rounds: Seq<Round>) -> Tallies
    decreases rounds.len(),
{
    if rounds.len() == 0 {
        tallies
    } else {
        after_riffs(after_rounds(tallies, rounds.drop_last()), rounds.last()@.riffs)
    }
}

/// A sum of surprise with that of several rounds added, one after the other.
pub open spec fn surprise_after(sum: Value, rounds: Seq<Round>) -> Value
    decreases rounds.len(),
{
    if rounds.len() == 0 {
        sum
    } else {
        surprise_after(sum, rounds.drop_last()).plus(rounds.last()@.surprise_sum)
    }
}

/// Whether all counts fit their fields.
pub open spec fn all_fit(tallies: Tallies) -> bool {
    forall|k: (u32, ResponseMode)| #[trigger] tallies.contains_key(k) ==> tallies[k].fits()
}

/// Whether `tallies` holds all of `earlier`, with no count less.
pub open spec fn extends_tallies(tallies: Tallies, earlier: Tallies) -> bool {
    forall|k: (u32, ResponseMode)| #[trigger]
        earlier.contains_key(k) ==> tallies.contains_key(k) && tallies[k].covers(earlier[k])
}

proof fn lemma_after_riffs_extends(tallies: Tallies, riffs: Seq<RiffView>, i: int)
    requires
        0 <= i <= riffs.len(),
    ensures
        extends_tallies(after_riffs(tallies, riffs), after_riffs(tallies, riffs.take(i))),
    decreases riffs.len(),
{
    if i == riffs.len() {
        assert(riffs.take(i) =~= riffs);
    } else {
        lemma_after_riffs_extends(tallies, riffs.drop_last(), i);
        assert(riffs.drop_last().take(i) =~= riffs.take(i));
    }
}

proof fn lemma_after_rounds_extends(tallies: Tallies, rounds: Seq<Round>, i: int)
    requires
        0 <= i <= rounds.len(),
    ensures
        extends_tallies(after_rounds(tallies, rounds), after_rounds(tallies, rounds.take(i))),
    decreases rounds.len(),
{
    if i == rounds.len() {
        assert(rounds.take(i) =~= rounds);
    } else {
        lemma_after_rounds_extends(tallies, rounds.drop_last(), i);
        assert(rounds.drop_last().take(i) =~= rounds.take(i));
        let before = after_rounds(tallies, rounds.drop_last());
        lemma_after_riffs_extends(before, rounds.last()@.riffs, 0);
        assert(after_riffs(before, rounds.last()@.riffs.take(0)) == before);
    }
}

/// Cross-session learning: remembers what works across riff sessions.
#[derive(Debug)]
pub struct RiffMemory {
    pub best_modes: HashMap<u32, ResponseMode>,
    pub mode_stats: Dictionary<(u32, ResponseMode), ModeStats>,
    /// Spec domain to average surprise.
    pub spec_patterns: Dictionary<String, Binary64>,
    pub total_rounds: u64,
    pub total_surprise: Binary64,
    pub escalation_success_rate: Binary64,
    pub pivot_success_rate: Binary64,
    pub invert_success_rate: Binary64,
    pub provoked_success_rate: Binary64,
    pub generation_history: Vec<SessionMetrics>,
}

/// What a memory holds.
#[verifier::ext_equal]
pub struct MemoryView {
    pub best_modes: Map<u32, ResponseMode>,
    pub tallies: Tallies,
    pub spec_patterns: Map<Seq<char>, Value>,
    pub total_rounds: nat,
    pub total_surprise: Value,
    pub escalation_success_rate: Value,
    pub pivot_success_rate: Value,
    pub invert_success_rate: Value,
    pub provoked_success_rate: Value,
    pub generation_history: Seq<SessionMetrics>,
}

impl View for RiffMemory {
    type V = MemoryView;

    open spec fn view(&self) -> MemoryView {
        MemoryView {
            best_modes: self.best_modes@,
            tallies: self.mode_stats@.map_values(|s: ModeStats| s@),
            spec_patterns: self.spec_patterns@.map_values(|x: Binary64| x@),
            total_rounds: self.total_rounds as nat,
            total_surprise: self.total_surprise@,
            escalation_success_rate: self.escalation_success_rate@,
            pivot_success_rate: self.pivot_success_rate@,
            invert_success_rate: self.invert_success_rate@,
            provoked_success_rate: self.provoked_success_rate@,
            generation_history: self.generation_history@,
        }
    }
}

impl MemoryView {
    /// A memory of nothing.
    pub open spec fn blank() -> MemoryView {
        let zero = Value::Finite { negative: false, units: 0 };
        MemoryView {
            best_modes: Map::empty(),
            tallies: Map::empty(),
            spec_patterns: Map::empty(),
            total_rounds: 0,
            total_surprise: zero,
            escalation_success_rate: zero,
            pivot_success_rate: zero,
            invert_success_rate: zero,
            provoked_success_rate: zero,
            generation_history: Seq::empty(),
        }
    }

    /// The memory after it has learned from several rounds.
    pub open spec fn learned(self, rounds: Seq<Round>) -> MemoryView {
        MemoryView {
            tallies: after_rounds(self.tallies, rounds),
            total_rounds: self.total_rounds + rounds.len(),
            total_surprise: surprise_after(self.total_surprise, rounds),
            ..self
        }
    }

    /// The memory with a completed session recorded.
    pub open spec fn with_generation(self, metrics: SessionMetrics) -> MemoryView {
        MemoryView { generation_history: self.generation_history.push(metrics), ..self }
    }

    /// The surprise remembered of a domain; a half where none is.
    pub open spec fn domain_score(self, domain: Seq<char>) -> Value {
        if self.spec_patterns.contains_key(domain) {
            self.spec_patterns[domain]
        } else {
            Value::ratio(1, 2)
        }
    }

    /// The best mode known for an agent; escalation where none is known.
    pub open spec fn recommended(self, agent_id: u32) -> ResponseMode {
        if self.best_modes.contains_key(agent_id) {
            self.best_modes[agent_id]
        } else {
            ResponseMode::Escalate
        }
    }

    /// The score predicted for an agent in a mode.
    pub open spec fn score(self, agent_id: u32, mode: ResponseMode) -> Value {
        tally_at(self.tallies, agent_id, mode).score()
    }
}

/// A guess at what an agent and a mode will bring.
pub struct Prediction {
    pub agent_id: u32,
    pub mode: ResponseMode,
    pub score: Value,
}

impl MemoryView {
    /// The mode that is tried at the given place.
    pub open spec fn mode_at(i: int) -> ResponseMode {
        if i == 0 {
            ResponseMode::Escalate
        } else if i == 1 {
            ResponseMode::Pivot
        } else if i == 2 {
            ResponseMode::Invert
        } else {
            ResponseMode::Provoked
        }
    }

    /// What is predicted at place `p` of the list of all agents, each with
    /// its four modes.
    pub open spec fn candidate(self, agents: Seq<u32>, p: int) -> Prediction {
        let agent_id = agents[p / 4];
        let mode = MemoryView::mode_at(p % 4);
        Prediction { agent_id, mode, score: self.score(agent_id, mode) }
    }

    /// Whether place `p` wins among the first `n` places: its score passes
    /// minus one, none is greater, and none before it is as great.
    pub open spec fn wins(self, agents: Seq<u32>, n: int, p: int) -> bool {
        let score = self.candidate(agents, p).score;
        &&& 0 <= p < n
        &&& Value::ratio(1, 1).negated().less(score)
        &&& forall|q: int| 0 <= q < n ==> !score.less(#[trigger] self.candidate(agents, q).score)
        &&& forall|q: int|
            0 <= q < p ==> !(#[trigger] self.candidate(agents, q)).score.at_least(score)
    }

    /// Whether `best` is the prediction among the first `n` places. Where no
    /// score passes minus one, the first agent is to escalate, at that score.
    pub open spec fn predicts(self, agents: Seq<u32>, n: int, best: Prediction) -> bool {
        let floor = Value::ratio(1, 1).negated();
        ||| {
            &&& best == Prediction {
                agent_id: agents[0],
                mode: ResponseMode::Escalate,
                score: floor,
            }
            &&& forall|q: int|
                0 <= q < n ==> !floor.less(#[trigger] self.candidate(agents, q).score)
        }
        ||| exists|p: int| #[trigger]
            self.wins(agents, n, p) && best == self.candidate(agents, p)
    }
}

/// The prediction after one place more.
#[verifier::rlimit(30)]
proof fn lemma_next_candidate(m: MemoryView, agents: Seq<u32>, n: int, best: Prediction)
    requires
        n >= 0,
        m.predicts(agents, n, best),
    ensures
        m.predicts(
            agents,
            n + 1,
            if best.score.less(m.candidate(agents, n).score) {
                m.candidate(agents, n)
            } else {
                best
            },
        ),
{
    let new = m.candidate(agents, n);
    let floor = Value::ratio(1, 1).negated();
    if exists|p: int| #[trigger] m.wins(agents, n, p) && best == m.candidate(agents, p) {
        let p = choose|p: int| #[trigger]
            m.wins(agents, n, p) && best == m.candidate(agents, p);
        if best.score.less(new.score) {
            assert(m.wins(agents, n + 1, n));
        } else {
            assert(m.wins(agents, n + 1, p));
        }
    } else if floor.less(new.score) {
        assert(m.wins(agents, n + 1, n));
    }
}

impl Default for RiffMemory {
    fn default() -> (m: RiffMemory)
        ensures
            m@ == MemoryView::blank(),
            m.mode_stats.distinct(),
            m.spec_patterns.distinct(),
    {
        let m = RiffMemory {
            best_modes: HashMap::new(),
            mode_stats: Dictionary::new(),
            spec_patterns: Dictionary::new(),
            total_rounds: 0,
            total_surprise: Binary64::zero(),
            escalation_success_rate: Binary64::zero(),
            pivot_success_rate: Binary64::zero(),
            invert_success_rate: Binary64::zero(),
            provoked_success_rate: Binary64::zero(),
            generation_history: Vec::new(),
        };
        assert(m@ =~= MemoryView::blank());
        m
    }
}

impl Clone for RiffMemory {
    fn clone(&self) -> (m: RiffMemory)
        ensures
            m@ == self@,
            m.mode_stats.keys() == self.mode_stats.keys(),
            m.spec_patterns.keys() == self.spec_patterns.keys(),
    {
        let m = RiffMemory {
            best_modes: self.best_modes.clone(),
            mode_stats: self.mode_stats.clone(),
            spec_patterns: self.spec_patterns.clone(),
            total_rounds: self.total_rounds,
            total_surprise: self.total_surprise,
            escalation_success_rate: self.escalation_success_rate,
            pivot_success_rate: self.pivot_success_rate,
            invert_success_rate: self.invert_success_rate,
            provoked_success_rate: self.provoked_success_rate,
            generation_history: self.generation_history.clone(),
        };
        proof {
            assert(m.mode_stats@ =~= self.mode_stats@);
            assert(m.spec_patterns@ =~= self.spec_patterns@);
            assert(m.generation_history@ =~= self.generation_history@);
        }
        m
    }
}

impl RiffMemory {
    pub fn new() -> (m: RiffMemory)
        ensures
            m@ == MemoryView::blank(),
            m.mode_stats.distinct(),
            m.spec_patterns.distinct(),
    {
        RiffMemory::default()
    }

    /// Learns from rounds: every riff counts for its agent in the mode that
    /// answers its surprise.
    pub fn learn(&mut self, rounds: &[Round])
        requires
            old(self).total_rounds + rounds@.len() <= u64::MAX,
            all_fit(after_rounds(old(self)@.tallies, rounds@)),
        ensures
            final(self)@ == old(self)@.learned(rounds@),
            final(self).spec_patterns == old(self).spec_patterns,
            old(self).mode_stats.distinct() ==> final(self).mode_stats.distinct(),
    {
        self.total_rounds = self.total_rounds + rounds.len() as u64;
        let ghost start = old(self)@;
        let ghost all = rounds@;
        let mut i: usize = 0;
        assert(all.take(0) =~= Seq::empty());
        while i < rounds.len()
            invariant
                all == rounds@,
                start == old(self)@,
                i <= all.len(),
                all_fit(after_rounds(start.tallies, all)),
                self@ == (MemoryView {
                    tallies: after_rounds(start.tallies, all.take(i as int)),
                    total_rounds: start.total_rounds + all.len(),
                    total_surprise: surprise_after(start.total_surprise, all.take(i as int)),
                    ..start
                }),
                old(self).mode_stats.distinct() ==> self.mode_stats.distinct(),
                self.spec_patterns == old(self).spec_patterns,
            decreases all.len() - i,
        {
            let round: &Round = &rounds[i];
            let ghost before = after_rounds(start.tallies, all.take(i as int));
            let ghost riffs = round@.riffs;
            proof {
                assert(all.take(i + 1).drop_last() =~= all.take(i as int));
                assert(all.take(i + 1).last() == *round);
                lemma_after_rounds_extends(start.tallies, all, i + 1);
                assert(riffs.take(0) =~= Seq::empty());
            }
            self.total_surprise = self.total_surprise.add(round.surprise_sum);
            let mut j: usize = 0;
            while j < round.riffs.len()
                invariant
                    all == rounds@,
                    i < all.len(),
                    *round == all[i as int],
                    riffs == round@.riffs,
                    j <= round.riffs@.len(),
                    all_fit(after_rounds(start.tallies, all)),
                    extends_tallies(
                        after_rounds(start.tallies, all),
                        after_riffs(before, riffs),
                    ),
                    self@ == (MemoryView {
                        tallies: after_riffs(before, riffs.take(j as int)),
                        total_rounds: start.total_rounds + all.len(),
                        total_surprise: surprise_after(start.total_surprise, all.take(i + 1)),
                        ..start
                    }),
                    old(self).mode_stats.distinct() ==> self.mode_stats.distinct(),
                    self.spec_patterns == old(self).spec_patterns,
                decreases round.riffs@.len() - j,
            {
                let riff: &Riff = &round.riffs[j];
                let mode: ResponseMode = ResponseMode::auto(riff.surprise, 0, round.number);
                let key: (u32, ResponseMode) = (riff.agent_id, mode);
                let ghost earlier = self.mode_stats@;
                let ghost tallies = self@.tallies;
                proof {
                    assert(riffs[j as int] == riff@);
                    assert(riffs.take(j + 1).drop_last() =~= riffs.take(j as int));
                    lemma_after_riffs_extends(before, riffs, j + 1);
                    assert(after_riffs(before, riffs.take(j + 1)).contains_key(key));
                    assert(key@ == key);
                }
                let stats: ModeStats = match self.mode_stats.get(&key) {
                    Some(stats) => *stats,
                    None => ModeStats::default(),
                };
                assert(stats@ == tally_at(tallies, riff.agent_id, mode));
                let counted: ModeStats = stats.count(riff);
                self.mode_stats.insert(key, counted);
                proof {
                    assert(self@.tallies =~= after_riff(tallies, riff@));
                }
                j = j + 1;
            }
            assert(riffs.take(j as int) =~= riffs);
            i = i + 1;
        }
        assert(all.take(i as int) =~= all);
    }

    /// Records a completed session's metrics.
    pub fn record_generation(&mut self, metrics: SessionMetrics)
        ensures
            final(self)@ == old(self)@.with_generation(metrics),
            final(self).mode_stats == old(self).mode_stats,
            final(self).spec_patterns == old(self).spec_patterns,
    {
        self.generation_history.push(metrics);
    }

    /// The best mode known for an agent; escalation where none is known.
    pub fn recommend_mode(&self, agent_id: u32) -> (mode: ResponseMode)
        ensures
            mode == self@.recommended(agent_id),
    {
        match self.best_modes.get(&agent_id) {
            Some(mode) => *mode,
            None => ResponseMode::Escalate,
        }
    }

    /// Predicts the score of an agent in a mode.
    pub fn predict_for(&self, agent_id: u32, mode: ResponseMode) -> (score: Binary64)
        ensures
            score@ == self@.score(agent_id, mode),
    {
        let key: (u32, ResponseMode) = (agent_id, mode);
        assert(key@ == key);
        let stats: ModeStats = match self.mode_stats.get(&key) {
            Some(stats) => *stats,
            None => ModeStats::default(),
        };
        stats.score()
    }

    /// Predicts which agent in which mode will produce the best output, and
    /// with which score.
    pub fn predict_best(&self, agents: &[u32]) -> (best: (u32, ResponseMode, Binary64))
        requires
            agents@.len() > 0,
        ensures
            self@.predicts(
                agents@,
                4 * agents@.len() as int,
                Prediction { agent_id: best.0, mode: best.1, score: best.2@ },
            ),
    {
        let all_modes: [ResponseMode; 4] = [
            ResponseMode::Escalate,
            ResponseMode::Pivot,
            ResponseMode::Invert,
            ResponseMode::Provoked,
        ];
        let mut best_agent: u32 = agents[0];
        let mut best_mode: ResponseMode = ResponseMode::Escalate;
        let mut best_score: Binary64 = Binary64::ratio(1, 1).neg();
        let mut i: usize = 0;
        while i < agents.len()
            invariant
                i <= agents@.len(),
                forall|k: int| 0 <= k < 4 ==> all_modes@[k] == MemoryView::mode_at(k),
                self@.predicts(
                    agents@,
                    4 * i,
                    Prediction { agent_id: best_agent, mode: best_mode, score: best_score@ },
                ),
            decreases agents@.len() - i,
        {
            let agent: u32 = agents[i];
            let mut j: usize = 0;
            while j < 4
                invariant
                    i < agents@.len(),
                    agent == agents@[i as int],
                    j <= 4,
                    forall|k: int| 0 <= k < 4 ==> all_modes@[k] == MemoryView::mode_at(k),
                    self@.predicts(
                        agents@,
                        4 * i + j,
                        Prediction { agent_id: best_agent, mode: best_mode, score: best_score@ },
                    ),
                decreases 4 - j,
            {
                let mode: ResponseMode = all_modes[j];
                let score: Binary64 = self.predict_for(agent, mode);
                proof {
                    lemma_next_candidate(
                        self@,
                        agents@,
                        4 * i + j,
                        Prediction { agent_id: best_agent, mode: best_mode, score: best_score@ },
                    );
                }
                if best_score.lt(score) {
                    best_score = score;
                    best_agent = agent;
                    best_mode = mode;
                }
                j = j + 1;
            }
            i = i + 1;
        }
        (best_agent, best_mode, best_score)
    }
}

/// Learning forgets nothing: what was tallied stays, and no count falls.
pub proof fn learning_forgets_nothing(tallies: Tallies, rounds: Seq<Round>)
    ensures
        extends_tallies(after_rounds(tallies, rounds), tallies),
{
    lemma_after_rounds_extends(tallies, rounds, 0);
    assert(rounds.take(0) =~= Seq::empty());
    assert(after_rounds(tallies, rounds.take(0)) == tallies);
}

/// Learning from rounds in two parts is learning from all of them.
pub proof fn learning_goes_in_parts(m: MemoryView, first: Seq<Round>, second: Seq<Round>)
    ensures
        m.learned(first + second) == m.learned(first).learned(second),
    decreases second.len(),
{
    if second.len() == 0 {
        assert(first + second =~= first);
    } else {
        learning_goes_in_parts(m, first, second.drop_last());
        assert((first + second).drop_last() =~= first + second.drop_last());
    }
}

/// All riffs of several rounds, in order.
pub open spec fn riffs_of(rounds: Seq<Round>) -> Seq<RiffView>
    decreases rounds.len(),
{
    if rounds.len() == 0 {
        Seq::empty()
    } else {
        riffs_of(rounds.drop_last()) + rounds.last()@.riffs
    }
}

/// The riffs that count for an agent in a mode, in order.
pub open spec fn matching(riffs: Seq<RiffView>, agent_id: u32, mode: ResponseMode) -> Seq<RiffView>
    decreases riffs.len(),
{
    if riffs.len() == 0 {
        Seq::empty()
    } else {
        let last = riffs.last();
        let rest = matching(riffs.drop_last(), agent_id, mode);
        if last.agent_id == agent_id && ResponseMode::answer(last.surprise, 0) == mode {
            rest.push(last)
        } else {
            rest
        }
    }
}

/// The number of riffs of a quality.
pub open spec fn of_quality(riffs: Seq<RiffView>, quality: Quality) -> nat
    decreases riffs.len(),
{
    if riffs.len() == 0 {
        0
    } else {
        of_quality(riffs.drop_last(), quality) + if riffs.last().quality == quality {
            1nat
        } else {
            0nat
        }
    }
}

/// A sum of surprise with that of several riffs added, one after the other.
pub open spec fn surprise_with(sum: Value, riffs: Seq<RiffView>) -> Value
    decreases riffs.len(),
{
    if riffs.len() == 0 {
        sum
    } else {
        surprise_with(sum, riffs.drop_last()).plus(riffs.last().surprise)
    }
}

impl Tally {
    /// The tally with several riffs counted.
    pub open spec fn with(self, riffs: Seq<RiffView>) -> Tally {
        Tally {
            total_uses: self.total_uses + riffs.len(),
            total_surprise: surprise_with(self.total_surprise, riffs),
            strong_count: self.strong_count + of_quality(riffs, Quality::Strong),
            weak_count: self.weak_count + of_quality(riffs, Quality::Weak),
        }
    }
}

/// Learning from rounds is learning from all of their riffs.
proof fn lemma_rounds_are_their_riffs(tallies: Tallies, rounds: Seq<Round>)
    ensures
        after_rounds(tallies, rounds) == after_riffs(tallies, riffs_of(rounds)),
    decreases rounds.len(),
{
    if rounds.len() > 0 {
        let front = riffs_of(rounds.drop_last());
        lemma_rounds_are_their_riffs(tallies, rounds.drop_last());
        lemma_riffs_go_in_parts(tallies, front, rounds.last()@.riffs);
    }
}

proof fn lemma_riffs_go_in_parts(tallies: Tallies, first: Seq<RiffView>, second: Seq<RiffView>)
    ensures
        after_riffs(tallies, first + second) == after_riffs(after_riffs(tallies, first), second),
    decreases second.len(),
{
    if second.len() == 0 {
        assert(first + second =~= first);
    } else {
        lemma_riffs_go_in_parts(tallies, first, second.drop_last());
        assert((first + second).drop_last() =~= first + second.drop_last());
    }
}

proof fn lemma_riffs_count_once(
    tallies: Tallies,
    riffs: Seq<RiffView>,
    agent_id: u32,
    mode: ResponseMode,
)
    ensures
        tally_at(after_riffs(tallies, riffs), agent_id, mode) == tally_at(
            tallies,
            agent_id,
            mode,
        ).with(matching(riffs, agent_id, mode)),
    decreases riffs.len(),
{
    if riffs.len() > 0 {
        let rest = matching(riffs.drop_last(), agent_id, mode);
        lemma_riffs_count_once(tallies, riffs.drop_last(), agent_id, mode);
        assert(rest.push(riffs.last()).drop_last() =~= rest);
    }
}

/// Every riff of every round counts once, for its agent in the mode that
/// answers it: as a use, with its surprise, and as strong or weak.
pub proof fn every_riff_counts_once(
    tallies: Tallies,
    rounds: Seq<Round>,
    agent_id: u32,
    mode: ResponseMode,
)
    ensures
        tally_at(after_rounds(tallies, rounds), agent_id, mode) == tally_at(
            tallies,
            agent_id,
            mode,
        ).with(matching(riffs_of(rounds), agent_id, mode)),
{
    lemma_rounds_are_their_riffs(tallies, rounds);
    lemma_riffs_count_once(tallies, riffs_of(rounds), agent_id, mode);
}

/// Whether strong and weak riffs are among the uses.
pub open spec fn sound(tallies: Tallies) -> bool {
    forall|k: (u32, ResponseMode)| #[trigger]
        tallies.contains_key(k) ==> tallies[k].strong_count + tallies[k].weak_count
            <= tallies[k].total_uses
}

/// Strong and weak riffs stay among the uses.
pub proof fn learning_stays_sound(tallies: Tallies, rounds: Seq<Round>)
    requires
        sound(tallies),
    ensures
        sound(after_rounds(tallies, rounds)),
    decreases rounds.len(),
{
    if rounds.len() > 0 {
        learning_stays_sound(tallies, rounds.drop_last());
        lemma_riffs_stay_sound(
            after_rounds(tallies, rounds.drop_last()),
            rounds.last()@.riffs,
        );
    }
}

proof fn lemma_riffs_stay_sound(tallies: Tallies, riffs: Seq<RiffView>)
    requires
        sound(tallies),
    ensures
        sound(after_riffs(tallies, riffs)),
    decreases riffs.len(),
{
    if riffs.len() > 0 {
        lemma_riffs_stay_sound(tallies, riffs.drop_last());
        let before = after_riffs(tallies, riffs.drop_last());
        let riff = riffs.last();
        let key = (riff.agent_id, ResponseMode::answer(riff.surprise, 0));
        let tally = tally_at(before, key.0, key.1);
        if before.contains_key(key) {
            assert(tally == before[key]);
        } else {
            assert(tally == Tally::blank());
        }
    }
}

/// Whether every tally was earned: there was a use, and the mode is one that
/// answers a riff without a streak.
pub open spec fn earned(tallies: Tallies) -> bool {
    forall|k: (u32, ResponseMode)| #[trigger]
        tallies.contains_key(k) ==> tallies[k].total_uses > 0 && k.1 != ResponseMode::Pivot
}

/// Learning adds only tallies that were earned.
pub proof fn learning_stays_earned(tallies: Tallies, rounds: Seq<Round>)
    requires
        earned(tallies),
    ensures
        earned(after_rounds(tallies, rounds)),
{
    lemma_rounds_are_their_riffs(tallies, rounds);
    lemma_riffs_stay_earned(tallies, riffs_of(rounds));
}

proof fn lemma_riffs_stay_earned(tallies: Tallies, riffs: Seq<RiffView>)
    requires
        earned(tallies),
    ensures
        earned(after_riffs(tallies, riffs)),
    decreases riffs.len(),
{
    if riffs.len() > 0 {
        lemma_riffs_stay_earned(tallies, riffs.drop_last());
    }
}

/// Where no more riffs were strong than there were uses, the success rate
/// lies between zero and one.
pub proof fn success_lies_between_zero_and_one(t: Tally)
    requires
        t.strong_count <= t.total_uses,
        t.fits(),
    ensures
        t.success_rate().at_least(Value::Finite { negative: false, units: 0 }),
        Value::ratio(1, 1).at_least(t.success_rate()),
{
    let uses = t.total_uses;
    let unit = pow2(1074);
    order::small_naturals_are_exact(1);
    lemma_pow2_pos(1074);
    lemma_pow2_unfold(1074);
    if uses == 0 {
        order::one_half_is_exact();
    } else {
        order::small_naturals_are_exact(uses);
        order::small_naturals_are_exact(t.strong_count);
        order::small_naturals_cancel(uses);
        assert(uses * unit > 0) by (nonlinear_arith)
            requires
                uses > 0,
                unit > 0,
        ;
        assert(t.strong_count * unit <= uses * unit) by (nonlinear_arith)
            requires
                t.strong_count <= uses,
        ;
        order::quotients_keep_order(
            Value::natural(t.strong_count),
            Value::natural(uses),
            Value::natural(uses),
        );
    }
}

/// What learning from nothing leaves was used, is kept for no pivot, and has
/// a success rate between zero and one.
pub proof fn learning_from_nothing(rounds: Seq<Round>, k: (u32, ResponseMode))
    requires
        all_fit(after_rounds(Map::empty(), rounds)),
        after_rounds(Map::empty(), rounds).contains_key(k),
    ensures
        after_rounds(Map::empty(), rounds)[k].total_uses > 0,
        k.1 != ResponseMode::Pivot,
        after_rounds(Map::empty(), rounds)[k].success_rate().at_least(
            Value::Finite { negative: false, units: 0 },
        ),
        Value::ratio(1, 1).at_least(after_rounds(Map::empty(), rounds)[k].success_rate()),
{
    learning_stays_earned(Map::empty(), rounds);
    learning_stays_sound(Map::empty(), rounds);
    success_lies_between_zero_and_one(after_rounds(Map::empty(), rounds)[k]);
}

/// The memory leaves no choice of the prediction.
pub proof fn memory_determines_the_prediction(
    m: MemoryView,
    agents: Seq<u32>,
    a: Prediction,
    b: Prediction,
)
    requires
        m.predicts(agents, 4 * agents.len() as int, a),
        m.predicts(agents, 4 * agents.len() as int, b),
    ensures
        a == b,
{
    let n = 4 * agents.len() as int;
    if exists|p: int| #[trigger] m.wins(agents, n, p) && a == m.candidate(agents, p) {
        let p = choose|p: int| #[trigger] m.wins(agents, n, p) && a == m.candidate(agents, p);
        let q = choose|q: int| #[trigger] m.wins(agents, n, q) && b == m.candidate(agents, q);
        assert(m.wins(agents, n, q));
        if p != q {
            assert(!m.candidate(agents, p).score.less(m.candidate(agents, q).score));
            assert(!m.candidate(agents, q).score.less(m.candidate(agents, p).score));
        }
    }
}

/// The predicted score is at least that of every agent in every mode, where
/// that score is a number.
pub proof fn prediction_is_no_less(
    m: MemoryView,
    agents: Seq<u32>,
    best: Prediction,
    i: int,
    mode: ResponseMode,
)
    requires
        m.predicts(agents, 4 * agents.len() as int, best),
        0 <= i < agents.len(),
    ensures
        !best.score.less(m.score(agents[i], mode)),
{
    let j = match mode {
        ResponseMode::Escalate => 0int,
        ResponseMode::Pivot => 1int,
        ResponseMode::Invert => 2int,
        ResponseMode::Provoked => 3int,
    };
    let p = 4 * i + j;
    assert(p / 4 == i && p % 4 == j);
    assert(m.candidate(agents, p).score == m.score(agents[i], mode));
}

/// Without history all scores are equal, so the first agent is to escalate.
pub proof fn without_history_the_first_agent_escalates(
    m: MemoryView,
    agents: Seq<u32>,
    best: Prediction,
)
    requires
        agents.len() > 0,
        m.tallies == Map::<(u32, ResponseMode), Tally>::empty(),
        m.predicts(agents, 4 * agents.len() as int, best),
    ensures
        best == (Prediction {
            agent_id: agents[0],
            mode: ResponseMode::Escalate,
            score: Tally::blank().score(),
        }),
{
    let n = 4 * agents.len() as int;
    let score = Tally::blank().score();
    assert forall|p: int| 0 <= p < n implies (#[trigger] m.candidate(agents, p)).score
        == score by {
        assert(!m.tallies.contains_key((agents[p / 4], MemoryView::mode_at(p % 4))));
    }
    lemma_blank_score();
    assert(m.wins(agents, n, 0));
    memory_determines_the_prediction(m, agents, best, m.candidate(agents, 0));
}

/// The score before the first use passes minus one.
proof fn lemma_blank_score()
    ensures
        Value::ratio(1, 1).negated().less(Tally::blank().score()),
{
    order::small_naturals_are_exact(1);
    order::one_half_is_exact();
    lemma_pow2_pos(1074);
    assert(1 * pow2(1074) > 0) by (nonlinear_arith)
        requires
            pow2(1074) > 0,
    ;
    let zero = Value::Finite { negative: false, units: 0 };
    let six = Value::ratio(6, 10);
    let four = Value::ratio(4, 10);
    order::tenths_are_positive(6);
    order::tenths_are_positive(4);
    assert(0 * six->units == 0) by (nonlinear_arith);
    crate::binary64::lemma_zero_rounds_to_zero(pow2(1074));
    assert(zero.times(six) == zero);
}

/// A record with no less surprise and no less success per use has no lesser
/// score.
pub proof fn better_records_score_no_less(a: Tally, b: Tally)
    requires
        b.avg_surprise().at_least(a.avg_surprise()),
        b.success_rate().at_least(a.success_rate()),
    ensures
        !b.score().less(a.score()),
{
    let six = Value::ratio(6, 10);
    let four = Value::ratio(4, 10);
    order::tenths_are_positive(6);
    order::tenths_are_positive(4);
    order::products_keep_order(a.avg_surprise(), b.avg_surprise(), six);
    order::products_keep_order(a.success_rate(), b.success_rate(), four);
    order::sums_keep_order(
        a.avg_surprise().times(six),
        b.avg_surprise().times(six),
        a.success_rate().times(four),
        b.success_rate().times(four),
    );
}

/// Whether a record was used, and is neither infinite nor close to it.
pub open spec fn ordinary(t: Tally) -> bool {
    &&& t.total_uses > 0
    &&& t.fits()
    &&& t.total_surprise is Finite
    &&& accuracy::size(accuracy::exact(t.total_surprise)) * 1000real <= accuracy::huge()
}

/// The exact surprise per use of a record.
pub open spec fn exact_surprise(t: Tally) -> real {
    accuracy::exact(t.total_surprise) / t.total_uses as real
}

/// The exact share of strong riffs in a record.
pub open spec fn exact_success(t: Tally) -> real {
    t.strong_count as real / t.total_uses as real
}

/// The averages of a used record are within one grain and one speck of the
/// exact ones; before the first use they are zero and a half.
pub proof fn averages_are_close(t: Tally)
    requires
        t.total_uses == 0 || ordinary(t),
    ensures
        t.avg_surprise() is Finite,
        t.success_rate() is Finite,
        t.total_uses == 0 ==> accuracy::exact(t.avg_surprise()) == 0real && accuracy::exact(
            t.success_rate(),
        ) == 1real / 2real,
        t.total_uses > 0 ==> accuracy::size(
            accuracy::exact(t.avg_surprise()) - exact_surprise(t),
        ) <= accuracy::grain() * accuracy::size(exact_surprise(t)) + accuracy::speck(),
        t.total_uses > 0 ==> accuracy::size(
            accuracy::exact(t.success_rate()) - exact_success(t),
        ) <= accuracy::grain() * accuracy::size(exact_success(t)) + accuracy::speck(),
{
    reveal(accuracy::exact);
    let u = pow2(1074) as real;
    lemma_pow2_pos(1074);
    if t.total_uses == 0 {
        order::one_half_is_exact();
        lemma_pow2_unfold(1074);
        assert(pow2(1074) as real == 2real * pow2(1073) as real);
        accuracy::lemma_quotient_is(pow2(1073) as real, u, 1real / 2real);
        accuracy::lemma_quotient_is(0real, u, 0real);
    } else {
        let n = t.total_uses as real;
        let k = t.strong_count as real;
        let x = accuracy::exact(t.total_surprise);
        accuracy::naturals_are_close(t.total_uses);
        accuracy::naturals_are_close(t.strong_count);
        lemma_pow2_strictly_increases(64, 900);
        lemma2_to64();
        accuracy::lemma_smaller_when_divided(x, n);
        accuracy::lemma_smaller_when_divided(k, n);
        accuracy::lemma_not_negative(k, n);
        accuracy::quotients_are_close(t.total_surprise, Value::natural(t.total_uses));
        accuracy::quotients_are_close(
            Value::natural(t.strong_count),
            Value::natural(t.total_uses),
        );
    }
}

/// The score predicted from a used record is six tenths of its surprise per
/// use and four tenths of its share of strong riffs, up to rounding.
pub proof fn scores_are_weighted_means(m: MemoryView, agent_id: u32, mode: ResponseMode)
    requires
        m.tallies.contains_key((agent_id, mode)),
        ordinary(m.tallies[(agent_id, mode)]),
    ensures
        ({
            let t = m.tallies[(agent_id, mode)];
            let score = m.score(agent_id, mode);
            let mean = (6real * accuracy::exact(t.total_surprise) + 4real * t.strong_count as real)
                / (10real * t.total_uses as real);
            &&& score is Finite
            &&& accuracy::size(accuracy::exact(score) - mean) <= 8real * accuracy::grain() * (
            accuracy::size(exact_surprise(t)) + exact_success(t)) + 8real * accuracy::speck()
        }),
{
    let t = m.tallies[(agent_id, mode)];
    let n = t.total_uses as real;
    let k = t.strong_count as real;
    let x = accuracy::exact(t.total_surprise);
    averages_are_close(t);
    lemma_pow2_strictly_increases(64, 900);
    lemma2_to64();
    accuracy::lemma_smaller_when_divided(x, n);
    accuracy::lemma_smaller_when_divided(k, n);
    accuracy::lemma_not_negative(k, n);
    assert(pow2(64) as real * 1000real <= accuracy::huge()) by {
        lemma_pow2_adds(64, 10);
        lemma_pow2_strictly_increases(74, 900);
    }
    accuracy::weighted_means_are_close(
        t.avg_surprise(),
        t.success_rate(),
        exact_surprise(t),
        exact_success(t),
        6,
        4,
    );
    lemma_mean_of_fractions(x, k, n);
}

proof fn lemma_mean_of_fractions(x: real, k: real, n: real)
    requires
        n >= 1real,
    ensures
        (6real * (x / n) + 4real * (k / n)) / 10real == (6real * x + 4real * k) / (10real * n),
{
    let y = 6real * x + 4real * k;
    accuracy::lemma_factored(6real, x, n);
    accuracy::lemma_factored(4real, k, n);
    accuracy::lemma_common_denominator(6real * x, 4real * k, n);
    accuracy::lemma_divided_twice(y, n, 10real);
    assert(n * 10real == 10real * n);
}

/// What was never tried has a score of one fifth, up to rounding.
pub proof fn untried_pairs_score_a_fifth(m: MemoryView, agent_id: u32, mode: ResponseMode)
    requires
        !m.tallies.contains_key((agent_id, mode)) || m.tallies[(agent_id, mode)].total_uses == 0,
    ensures
        m.score(agent_id, mode) is Finite,
        accuracy::size(accuracy::exact(m.score(agent_id, mode)) - 1real / 5real) <= 4real
            * accuracy::grain() + 8real * accuracy::speck(),
{
    let t = tally_at(m.tallies, agent_id, mode);
    averages_are_close(t);
    lemma_pow2_strictly_increases(64, 900);
    lemma2_to64();
    lemma_pow2_pos(1074);
    assert(accuracy::speck() >= 0real && accuracy::grain() * 0real == 0real && accuracy::grain() * (
    1real / 2real) >= 0real) by {
        accuracy::lemma_speck_is_small();
    }
    accuracy::weighted_means_are_close(
        t.avg_surprise(),
        t.success_rate(),
        0real,
        1real / 2real,
        6,
        4,
    );
    assert((6real * 0real + 4real * (1real / 2real)) / 10real == 1real / 5real);
    assert(8real * accuracy::grain() * (0real + 1real / 2real) == 4real * accuracy::grain());
}

/// Of two used records, each with a surprise per use of at most a thousand,
/// the one whose weighted mean of surprise and success is greater by a
/// millionth or more has the greater score.
pub proof fn scores_follow_the_weighted_mean(
    m: MemoryView,
    agent_a: u32,
    mode_a: ResponseMode,
    agent_b: u32,
    mode_b: ResponseMode,
)
    requires
        m.tallies.contains_key((agent_a, mode_a)),
        m.tallies.contains_key((agent_b, mode_b)),
        ({
            let a = m.tallies[(agent_a, mode_a)];
            let b = m.tallies[(agent_b, mode_b)];
            &&& ordinary(a)
            &&& ordinary(b)
            &&& accuracy::size(exact_surprise(a)) <= 1000real
            &&& accuracy::size(exact_surprise(b)) <= 1000real
            &&& a.strong_count <= a.total_uses
            &&& b.strong_count <= b.total_uses
            &&& 6real * exact_surprise(a) + 4real * exact_success(a) + 1real / 100000real <= 6real
                * exact_surprise(b) + 4real * exact_success(b)
        }),
    ensures
        m.score(agent_a, mode_a).less(m.score(agent_b, mode_b)),
{
    let a = m.tallies[(agent_a, mode_a)];
    let b = m.tallies[(agent_b, mode_b)];
    scores_are_weighted_means(m, agent_a, mode_a);
    scores_are_weighted_means(m, agent_b, mode_b);
    lemma_score_error(a);
    lemma_score_error(b);
    accuracy::less_means_less(m.score(agent_a, mode_a), m.score(agent_b, mode_b));
}

proof fn lemma_score_error(t: Tally)
    requires
        ordinary(t),
        accuracy::size(exact_surprise(t)) <= 1000real,
        t.strong_count <= t.total_uses,
    ensures
        (6real * accuracy::exact(t.total_surprise) + 4real * t.strong_count as real) / (10real
            * t.total_uses as real) == (6real * exact_surprise(t) + 4real * exact_success(t))
            / 10real,
        8real * accuracy::grain() * (accuracy::size(exact_surprise(t)) + exact_success(t)) + 8real
            * accuracy::speck() <= 1real / 10000000real,
{
    let n = t.total_uses as real;
    let k = t.strong_count as real;
    let x = accuracy::exact(t.total_surprise);
    accuracy::lemma_speck_is_small();
    lemma_mean_of_fractions(x, k, n);
    accuracy::lemma_not_negative(k, n);
    accuracy::lemma_divided(k, n);
    accuracy::lemma_cancelled(k / n, 1real, n);
    let s = accuracy::size(exact_surprise(t)) + exact_success(t);
    accuracy::lemma_scaled(s, 1001real, 8real * accuracy::grain());
}

/// Of two used records with the same share of strong riffs, the one with more
/// surprise per use, by a thousandth or more, has the greater score.
pub proof fn more_surprise_scores_more(
    m: MemoryView,
    agent_a: u32,
    mode_a: ResponseMode,
    agent_b: u32,
    mode_b: ResponseMode,
)
    requires
        m.tallies.contains_key((agent_a, mode_a)),
        m.tallies.contains_key((agent_b, mode_b)),
        ({
            let a = m.tallies[(agent_a, mode_a)];
            let b = m.tallies[(agent_b, mode_b)];
            &&& ordinary(a)
            &&& ordinary(b)
            &&& a.strong_count <= a.total_uses
            &&& b.strong_count <= b.total_uses
            &&& exact_success(a) == exact_success(b)
            &&& -1000real <= exact_surprise(a)
            &&& exact_surprise(a) + 1real / 1000real <= exact_surprise(b)
            &&& exact_surprise(b) <= 1000real
        }),
    ensures
        m.score(agent_a, mode_a).less(m.score(agent_b, mode_b)),
{
    scores_follow_the_weighted_mean(m, agent_a, mode_a, agent_b, mode_b);
}

/// The place of a mode in the order in which modes are tried.
pub open spec fn place_of(mode: ResponseMode) -> int {
    match mode {
        ResponseMode::Escalate => 0,
        ResponseMode::Pivot => 1,
        ResponseMode::Invert => 2,
        ResponseMode::Provoked => 3,
    }
}

/// Where some agent in some mode scores more than minus one, the prediction is
/// for one of the agents, with just the score of that agent in that mode. No
/// pair scores more. Of pairs that score as much, the one with the earlier
/// agent is predicted, and for one agent the one with the earlier mode.
pub proof fn the_first_best_pair_is_predicted(
    m: MemoryView,
    agents: Seq<u32>,
    best: Prediction,
    i: int,
    mode: ResponseMode,
)
    requires
        m.predicts(agents, 4 * agents.len() as int, best),
        0 <= i < agents.len(),
        Value::ratio(1, 1).negated().less(m.score(agents[i], mode)),
    ensures
        best.score == m.score(best.agent_id, best.mode),
        best.score.at_least(m.score(agents[i], mode)),
        exists|j: int|
            {
                &&& 0 <= j < agents.len()
                &&& #[trigger] agents[j] == best.agent_id
                &&& m.score(agents[i], mode).at_least(best.score) ==> j < i || (j == i && place_of(
                    best.mode,
                ) <= place_of(mode))
            },
{
    let n = 4 * agents.len() as int;
    let q = 4 * i + place_of(mode);
    assert(q / 4 == i && q % 4 == place_of(mode));
    assert(m.candidate(agents, q).score == m.score(agents[i], mode));
    let p = choose|p: int| #[trigger] m.wins(agents, n, p) && best == m.candidate(agents, p);
    assert(m.wins(agents, n, p) && best == m.candidate(agents, p));
    let j = p / 4;
    assert(agents[j] == best.agent_id);
    assert(place_of(best.mode) == p % 4);
    if m.score(agents[i], mode).at_least(best.score) {
        assert(p <= q);
    }
}

/// Where no pair scores more than minus one, the first agent is to escalate,
/// at that score.
pub proof fn hopeless_predictions_are_for_the_first_agent(
    m: MemoryView,
    agents: Seq<u32>,
    best: Prediction,
)
    requires
        agents.len() > 0,
        m.predicts(agents, 4 * agents.len() as int, best),
        forall|i: int, mode: ResponseMode|
            0 <= i < agents.len() ==> !Value::ratio(1, 1).negated().less(
                #[trigger] m.score(agents[i], mode),
            ),
    ensures
        best.agent_id == agents[0],
        best.mode == ResponseMode::Escalate,
        accuracy::exact(best.score) == -1real,
{
    let n = 4 * agents.len() as int;
    if exists|p: int| #[trigger] m.wins(agents, n, p) && best == m.candidate(agents, p) {
        let p = choose|p: int| #[trigger] m.wins(agents, n, p) && best == m.candidate(agents, p);
        assert(m.wins(agents, n, p));
        let i = p / 4;
        assert(0 <= i < agents.len());
        let score = m.score(agents[i], MemoryView::mode_at(p % 4));
        assert(score == m.candidate(agents, p).score);
        assert(false);
    }
    order::small_naturals_are_exact(1);
    accuracy::naturals_are_close(1);
    accuracy::lemma_units_give_size(Value::ratio(1, 1));
    accuracy::lemma_units_give_size(Value::ratio(1, 1).negated());
}

/// All riffs of several rounds, one round after the other.
pub open spec fn all_riffs(rounds: Seq<Round>) -> Seq<RiffView> {
    rounds.map_values(|r: Round| r@.riffs).flatten_alt()
}

proof fn lemma_all_riffs(rounds: Seq<Round>)
    ensures
        riffs_of(rounds) == all_riffs(rounds),
    decreases rounds.len(),
{
    let parts = rounds.map_values(|r: Round| r@.riffs);
    if rounds.len() > 0 {
        lemma_all_riffs(rounds.drop_last());
        assert(parts.drop_last() =~= rounds.drop_last().map_values(|r: Round| r@.riffs));
    }
}

proof fn lemma_matching_is_a_filter(riffs: Seq<RiffView>, agent_id: u32, mode: ResponseMode)
    ensures
        matching(riffs, agent_id, mode) == riffs.filter(
            |r: RiffView|
                r.agent_id == agent_id && ResponseMode::answer(r.surprise, 0) == mode,
        ),
    decreases riffs.len(),
{
    reveal(Seq::filter);
    if riffs.len() > 0 {
        lemma_matching_is_a_filter(riffs.drop_last(), agent_id, mode);
    }
}

proof fn lemma_quality_is_a_filter(riffs: Seq<RiffView>, quality: Quality)
    ensures
        of_quality(riffs, quality) == riffs.filter(|r: RiffView| r.quality == quality).len(),
    decreases riffs.len(),
{
    reveal(Seq::filter);
    if riffs.len() > 0 {
        lemma_quality_is_a_filter(riffs.drop_last(), quality);
    }
}

proof fn lemma_surprise_with_is_added(sum: Value, riffs: Seq<RiffView>)
    ensures
        surprise_with(sum, riffs) == accuracy::added(
            sum,
            riffs.map_values(|r: RiffView| r.surprise),
        ),
    decreases riffs.len(),
{
    let list = riffs.map_values(|r: RiffView| r.surprise);
    if riffs.len() > 0 {
        lemma_surprise_with_is_added(sum, riffs.drop_last());
        assert(list.drop_last() =~= riffs.drop_last().map_values(|r: RiffView| r.surprise));
    }
}

/// What learning adds to the tally of an agent in a mode, over all riffs of
/// all rounds: a use for each riff of the agent that the mode answers, a
/// strong or weak count for each of these that is strong or weak, and their
/// surprise, one after the other.
pub proof fn riffs_are_tallied_by_agent_and_mode(
    tallies: Tallies,
    rounds: Seq<Round>,
    agent_id: u32,
    mode: ResponseMode,
)
    ensures
        ({
            let own = all_riffs(rounds).filter(
                |r: RiffView|
                    r.agent_id == agent_id && ResponseMode::answer(r.surprise, 0) == mode,
            );
            let before = tally_at(tallies, agent_id, mode);
            let after = tally_at(after_rounds(tallies, rounds), agent_id, mode);
            &&& after.total_uses == before.total_uses + own.len()
            &&& after.strong_count == before.strong_count + own.filter(
                |r: RiffView| r.quality == Quality::Strong,
            ).len()
            &&& after.weak_count == before.weak_count + own.filter(
                |r: RiffView| r.quality == Quality::Weak,
            ).len()
            &&& after.total_surprise == accuracy::added(
                before.total_surprise,
                own.map_values(|r: RiffView| r.surprise),
            )
        }),
{
    every_riff_counts_once(tallies, rounds, agent_id, mode);
    lemma_all_riffs(rounds);
    lemma_matching_is_a_filter(all_riffs(rounds), agent_id, mode);
    let own = matching(all_riffs(rounds), agent_id, mode);
    lemma_quality_is_a_filter(own, Quality::Strong);
    lemma_quality_is_a_filter(own, Quality::Weak);
    lemma_surprise_with_is_added(tally_at(tallies, agent_id, mode).total_surprise, own);
}

/// Learning keeps tallies for just those pairs that it had, and those of which
/// it saw a riff.
pub proof fn tallies_are_kept_for_what_was_seen(
    tallies: Tallies,
    rounds: Seq<Round>,
    agent_id: u32,
    mode: ResponseMode,
)
    ensures
        after_rounds(tallies, rounds).contains_key((agent_id, mode)) <==> tallies.contains_key(
            (agent_id, mode),
        ) || all_riffs(rounds).filter(
            |r: RiffView|
                r.agent_id == agent_id && ResponseMode::answer(r.surprise, 0) == mode,
        ).len() > 0,
        !tallies.contains_key((agent_id, mode)) ==> tally_at(tallies, agent_id, mode).total_uses
            == 0,
{
    lemma_rounds_are_their_riffs(tallies, rounds);
    lemma_all_riffs(rounds);
    lemma_matching_is_a_filter(all_riffs(rounds), agent_id, mode);
    lemma_seen(tallies, all_riffs(rounds), agent_id, mode);
}

proof fn lemma_seen(tallies: Tallies, riffs: Seq<RiffView>, agent_id: u32, mode: ResponseMode)
    ensures
        after_riffs(tallies, riffs).contains_key((agent_id, mode)) <==> tallies.contains_key(
            (agent_id, mode),
        ) || matching(riffs, agent_id, mode).len() > 0,
    decreases riffs.len(),
{
    if riffs.len() > 0 {
        lemma_seen(tallies, riffs.drop_last(), agent_id, mode);
    }
}

/// Learning counts the rounds, and changes nothing but the tallies, the number
/// of rounds and the surprise.
pub proof fn learning_counts_the_rounds(m: MemoryView, rounds: Seq<Round>)
    ensures
        m.learned(rounds).total_rounds == m.total_rounds + rounds.len(),
        m.learned(rounds).best_modes == m.best_modes,
        m.learned(rounds).spec_patterns == m.spec_patterns,
        m.learned(rounds).generation_history == m.generation_history,
        m.learned(rounds).escalation_success_rate == m.escalation_success_rate,
        m.learned(rounds).pivot_success_rate == m.pivot_success_rate,
        m.learned(rounds).invert_success_rate == m.invert_success_rate,
        m.learned(rounds).provoked_success_rate == m.provoked_success_rate,
{
}

/// An agent is recommended the mode that is remembered as its best, whatever
/// is remembered of others, and escalation where none is.
pub proof fn recommendations_go_by_agent(
    m: MemoryView,
    agent_id: u32,
    other: u32,
    mode: ResponseMode,
)
    ensures
        ({
            let taught = MemoryView { best_modes: m.best_modes.insert(agent_id, mode), ..m };
            &&& taught.recommended(agent_id) == mode
            &&& other != agent_id ==> taught.recommended(other) == m.recommended(other)
            &&& !m.best_modes.contains_key(agent_id) ==> m.recommended(agent_id)
                == ResponseMode::Escalate
        }),
{
}

/// A domain has the score that is remembered of it, whatever is remembered of
/// others, and a half where none is.
pub proof fn domain_scores_go_by_domain(
    m: MemoryView,
    domain: Seq<char>,
    other: Seq<char>,
    score: Value,
)
    ensures
        ({
            let taught = MemoryView { spec_patterns: m.spec_patterns.insert(domain, score), ..m };
            &&& taught.domain_score(domain) == score
            &&& other != domain ==> taught.domain_score(other) == m.domain_score(other)
            &&& !m.spec_patterns.contains_key(domain) ==> accuracy::exact(m.domain_score(domain))
                == 1real / 2real
        }),
{
    averages_are_close(Tally::blank());
}

/// A completed session is recorded behind all earlier ones, and changes no
/// prediction and no recommendation.
pub proof fn generations_are_recorded_in_order(
    m: MemoryView,
    metrics: SessionMetrics,
    agent_id: u32,
    mode: ResponseMode,
)
    ensures
        ({
            let later = m.with_generation(metrics);
            &&& later.generation_history.len() == m.generation_history.len() + 1
            &&& later.generation_history.last() == metrics
            &&& later.generation_history.drop_last() == m.generation_history
            &&& later.score(agent_id, mode) == m.score(agent_id, mode)
            &&& later.recommended(agent_id) == m.recommended(agent_id)
            &&& later.total_rounds == m.total_rounds
            &&& later.total_surprise == m.total_surprise
            &&& later.spec_patterns == m.spec_patterns
        }),
{
    assert(m.generation_history.push(metrics).drop_last() =~= m.generation_history);
}

/// A memory of nothing predicts a fifth, recommends escalation, and gives
/// every domain a half.
pub proof fn blank_memories_know_nothing(agent_id: u32, mode: ResponseMode, domain: Seq<char>)
    ensures
        ({
            let m = MemoryView::blank();
            &&& accuracy::size(accuracy::exact(m.score(agent_id, mode)) - 1real / 5real) <= 4real
                * accuracy::grain() + 8real * accuracy::speck()
            &&& m.recommended(agent_id) == ResponseMode::Escalate
            &&& accuracy::exact(m.domain_score(domain)) == 1real / 2real
            &&& m.total_rounds == 0
            &&& accuracy::exact(m.total_surprise) == 0real
            &&& m.generation_history.len() == 0
        }),
{
    untried_pairs_score_a_fifth(MemoryView::blank(), agent_id, mode);
    averages_are_close(Tally::blank());
    accuracy::lemma_units_give_size(MemoryView::blank().total_surprise);
}

} // verus!
