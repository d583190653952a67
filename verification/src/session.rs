//! Multi-spec riff sessions: agents riff on several specs at once, and what
//! they find for one spec is shared with the others.

use vstd::prelude::*;
use vstd::string::*;

use crate::accuracy;
use crate::binary64::{Binary64, Value};
use crate::dictionary::Dictionary;
use crate::memory;
use crate::memory::{MemoryView, RiffMemory};
use crate::metrics::SessionMetrics;
use crate::order;
use crate::riff::{Quality, ResponseMode, Riff, RiffView, Round, RoundView};
use crate::text;

verus! {

/// A spec being riffed on.
#[derive(Debug)]
pub struct RiffSpec {
    pub id: String,
    pub name: String,
    pub domain: String,
}

impl Clone for RiffSpec {
    fn clone(&self) -> (r: RiffSpec)
        ensures
            r == *self,
    {
        RiffSpec { id: self.id.clone(), name: self.name.clone(), domain: self.domain.clone() }
    }
}

/// Summary of a round's evaluation.
#[derive(Debug, Clone, Copy)]
pub struct RoundSummary {
    pub surprise: Binary64,
    pub productive: bool,
    pub landed: bool,
    pub mode: ResponseMode,
    pub best_productivity: Binary64,
}

/// What a summary says.
pub struct SummaryView {
    pub surprise: Value,
    pub productive: bool,
    pub landed: bool,
    pub mode: ResponseMode,
    pub best_productivity: Value,
}

impl View for RoundSummary {
    type V = SummaryView;

    open spec fn view(&self) -> SummaryView {
        SummaryView {
            surprise: self.surprise@,
            productive: self.productive,
            landed: self.landed,
            mode: self.mode,
            best_productivity: self.best_productivity@,
        }
    }
}

impl SummaryView {
    /// Whether the riffs of a round landed: much surprise, and a strong riff.
    pub open spec fn lands(round: RoundView) -> bool {
        &&& Value::ratio(8, 10).less(round.surprise_sum)
        &&& exists|i: int|
            0 <= i < round.riffs.len() && (#[trigger] round.riffs[i]).quality == Quality::Strong
    }

    /// The greatest productivity among riffs; zero where none is greater.
    pub open spec fn best_productivity_of(riffs: Seq<RiffView>) -> Value
        decreases riffs.len(),
    {
        if riffs.len() == 0 {
            Value::Finite { negative: false, units: 0 }
        } else {
            SummaryView::best_productivity_of(riffs.drop_last()).max(riffs.last().productivity())
        }
    }

    /// The summary of a round that ends with the given streak.
    pub open spec fn of(round: RoundView, streak: u32) -> SummaryView {
        SummaryView {
            surprise: round.surprise_sum,
            productive: round.productive(),
            landed: SummaryView::lands(round),
            mode: ResponseMode::answer(round.surprise_sum, streak),
            best_productivity: SummaryView::best_productivity_of(round.riffs),
        }
    }

    /// The summary of a session without rounds.
    pub open spec fn idle(mode: ResponseMode) -> SummaryView {
        let zero = Value::Finite { negative: false, units: 0 };
        SummaryView {
            surprise: zero,
            productive: false,
            landed: false,
            mode,
            best_productivity: zero,
        }
    }
}

/// The patterns known for each spec.
pub type Patterns = Map<Seq<char>, Seq<Seq<char>>>;

/// The patterns in a dictionary.
pub open spec fn patterns(d: Dictionary<String, Vec<String>>) -> Patterns {
    d@.map_values(|list: Vec<String>| text::texts(list@))
}

/// The patterns known for one spec; none for a new one.
pub open spec fn patterns_of(known: Patterns, id: Seq<char>) -> Seq<Seq<char>> {
    if known.contains_key(id) {
        known[id]
    } else {
        Seq::empty()
    }
}

/// The patterns of all specs but one, spec by spec in the order of `ids`.
pub open spec fn shared_with(ids: Seq<Seq<char>>, known: Patterns, id: Seq<char>) -> Seq<Seq<char>>
    decreases ids.len(),
{
    if ids.len() == 0 {
        Seq::empty()
    } else {
        let rest = shared_with(ids.drop_last(), known, id);
        if ids.last() == id {
            rest
        } else {
            rest + known[ids.last()]
        }
    }
}

/// A list with those of `more` appended, in order, that are not in it yet.
pub open spec fn merged(list: Seq<Seq<char>>, more: Seq<Seq<char>>) -> Seq<Seq<char>>
    decreases more.len(),
{
    if more.len() == 0 {
        list
    } else {
        let rest = merged(list, more.drop_last());
        if rest.contains(more.last()) {
            rest
        } else {
            rest.push(more.last())
        }
    }
}

/// Appends those of `more` that are not in the list yet.
fn merge(list: Vec<String>, more: &Vec<String>) -> (r: Vec<String>)
    ensures
        text::texts(r@) == merged(text::texts(list@), text::texts(more@)),
{
    let mut r: Vec<String> = list;
    let ghost start = text::texts(list@);
    let ghost extra = text::texts(more@);
    let mut i: usize = 0;
    assert(extra.take(0) =~= Seq::empty());
    while i < more.len()
        invariant
            i <= more@.len(),
            extra == text::texts(more@),
            text::texts(r@) == merged(start, extra.take(i as int)),
        decreases more@.len() - i,
    {
        let ghost before = r@;
        proof {
            assert(extra.take(i + 1).drop_last() =~= extra.take(i as int));
            assert(extra.take(i + 1).last() == more@[i as int]@);
        }
        if !text::contains(&r, &more[i]) {
            let s: String = more[i].clone();
            r.push(s);
            assert(text::texts(r@) =~= text::texts(before).push(s@));
        }
        i = i + 1;
    }
    assert(extra.take(i as int) =~= extra);
    r
}

/// A count over riffs.
pub open spec fn total_of_riffs(riffs: Seq<RiffView>, count: spec_fn(RiffView) -> nat) -> nat
    decreases riffs.len(),
{
    if riffs.len() == 0 {
        0
    } else {
        total_of_riffs(riffs.drop_last(), count) + count(riffs.last())
    }
}

/// A count over all riffs of all rounds.
pub open spec fn total(rounds: Seq<Round>, count: spec_fn(RiffView) -> nat) -> nat
    decreases rounds.len(),
{
    if rounds.len() == 0 {
        0
    } else {
        total(rounds.drop_last(), count) + total_of_riffs(rounds.last()@.riffs, count)
    }
}

/// The lines of all riffs.
pub open spec fn total_loc(rounds: Seq<Round>) -> nat {
    total(rounds, |r: RiffView| r.loc as nat)
}

/// The tests of all riffs.
pub open spec fn total_tests(rounds: Seq<Round>) -> nat {
    total(rounds, |r: RiffView| r.tests as nat)
}

/// The features of all riffs.
pub open spec fn total_features(rounds: Seq<Round>) -> nat {
    total(rounds, |r: RiffView| r.features.len())
}

/// The number of productive rounds.
pub open spec fn productive_rounds(rounds: Seq<Round>) -> nat
    decreases rounds.len(),
{
    if rounds.len() == 0 {
        0
    } else if rounds.last()@.productive() {
        productive_rounds(rounds.drop_last()) + 1
    } else {
        productive_rounds(rounds.drop_last())
    }
}

/// The mean surprise of the rounds; zero where there is none. The sum starts
/// from negative zero, which changes nothing that it is added to.
pub open spec fn mean_surprise(rounds: Seq<Round>) -> Value {
    if rounds.len() == 0 {
        Value::Finite { negative: false, units: 0 }
    } else {
        memory::surprise_after(Value::Finite { negative: true, units: 0 }, rounds).over(
            Value::natural(rounds.len()),
        )
    }
}

/// One more riff adds its count, and no count passes that of all riffs.
proof fn lemma_total_of_riffs_step(
    riffs: Seq<RiffView>,
    i: int,
    count: spec_fn(RiffView) -> nat,
)
    requires
        0 <= i < riffs.len(),
    ensures
        total_of_riffs(riffs.take(i + 1), count) == total_of_riffs(riffs.take(i), count) + count(
            riffs[i],
        ),
        total_of_riffs(riffs.take(i + 1), count) <= total_of_riffs(riffs, count),
    decreases riffs.len() - i,
{
    assert(riffs.take(i + 1).drop_last() =~= riffs.take(i));
    if i + 1 < riffs.len() {
        lemma_total_of_riffs_step(riffs, i + 1, count);
    } else {
        assert(riffs.take(i + 1) =~= riffs);
    }
}

/// One more round adds the counts of its riffs, and no count passes that of
/// all rounds.
proof fn lemma_total_step(rounds: Seq<Round>, i: int, count: spec_fn(RiffView) -> nat)
    requires
        0 <= i < rounds.len(),
    ensures
        total(rounds.take(i + 1), count) == total(rounds.take(i), count) + total_of_riffs(
            rounds[i]@.riffs,
            count,
        ),
        total(rounds.take(i + 1), count) <= total(rounds, count),
    decreases rounds.len() - i,
{
    assert(rounds.take(i + 1).drop_last() =~= rounds.take(i));
    if i + 1 < rounds.len() {
        lemma_total_step(rounds, i + 1, count);
    } else {
        assert(rounds.take(i + 1) =~= rounds);
    }
}

/// A multi-spec riff session.
#[derive(Debug, Clone)]
pub struct MultiSpecSession {
    pub agents: Vec<u32>,
    pub specs: Vec<RiffSpec>,
    pub rounds: Vec<Round>,
    pub memory: RiffMemory,
    pub current_round: u32,
    pub mode: ResponseMode,
    pub streak: u32,
    pub finished: bool,
    pub generation: u32,
    pub parent_session_id: Option<String>,
    /// Spec id to patterns learned.
    pub cross_spec_patterns: Dictionary<String, Vec<String>>,
}

/// Whether `after` are the rounds `before` with a riff added to the last one.
/// Without rounds the riff is lost.
pub open spec fn riffed(before: Seq<Round>, riff: RiffView, after: Seq<Round>) -> bool {
    if before.len() == 0 {
        after == before
    } else {
        &&& after.len() == before.len()
        &&& after.drop_last() == before.drop_last()
        &&& before.last()@.extended(riff, after.last()@)
        &&& before.last()@.consistent() ==> after.last()@.consistent()
    }
}

/// The features of a riff for a spec: its own, and the patterns of the other
/// specs that are not among them.
pub open spec fn features_with_shared(
    own: Seq<Seq<char>>,
    ids: Seq<Seq<char>>,
    known: Patterns,
    id: Seq<char>,
) -> Seq<Seq<char>> {
    merged(own, shared_with(ids, known, id))
}

/// The specs with patterns after a riff for a spec.
pub open spec fn ids_after(ids: Seq<Seq<char>>, id: Seq<char>) -> Seq<Seq<char>> {
    if ids.contains(id) {
        ids
    } else {
        ids.push(id)
    }
}

/// The patterns after a riff for a spec with the given features of its own.
pub open spec fn known_after(
    ids: Seq<Seq<char>>,
    known: Patterns,
    id: Seq<char>,
    own: Seq<Seq<char>>,
) -> Patterns {
    known.insert(
        id,
        merged(patterns_of(known, id), features_with_shared(own, ids, known, id)),
    )
}

/// The patterns after an evaluation: those of every spec, and behind them
/// those of the other specs that are not among them.
pub open spec fn evolved(ids: Seq<Seq<char>>, known: Patterns) -> Patterns {
    Map::new(
        |id: Seq<char>| known.contains_key(id),
        |id: Seq<char>| merged(known[id], shared_with(ids, known, id)),
    )
}

/// What evaluating the last round of a session makes of it, and says of the
/// round. Without a round nothing changes.
pub open spec fn evaluated(
    before: MultiSpecSession,
    after: MultiSpecSession,
    summary: SummaryView,
) -> bool {
    &&& before.rounds@.len() == 0 ==> after == before && summary == SummaryView::idle(before.mode)
    &&& before.rounds@.len() > 0 ==> {
        let round = before.rounds@.last()@;
        let streak = if round.productive() {
            (before.streak + 1) as u32
        } else {
            0
        };
        &&& summary == SummaryView::of(round, streak)
        &&& after == (MultiSpecSession {
            streak,
            mode: ResponseMode::answer(round.surprise_sum, streak),
            finished: before.finished || (streak == 0 && before.current_round > 5),
            cross_spec_patterns: after.cross_spec_patterns,
            ..before
        })
        &&& after.cross_spec_patterns.keys() == before.cross_spec_patterns.keys()
        &&& patterns(after.cross_spec_patterns) == evolved(
            before.cross_spec_patterns.keys(),
            patterns(before.cross_spec_patterns),
        )
    }
}

/// Whether metrics are those of a session.
pub open spec fn measures(s: MultiSpecSession, m: SessionMetrics) -> bool {
    &&& m.generation == s.generation
    &&& m.total_rounds == s.rounds@.len()
    &&& m.productive_rounds == productive_rounds(s.rounds@)
    &&& m.total_loc == total_loc(s.rounds@)
    &&& m.total_tests == total_tests(s.rounds@)
    &&& m.total_features == total_features(s.rounds@)
    &&& m.avg_surprise@ == mean_surprise(s.rounds@)
    &&& m.streak == s.streak
}

/// Whether nothing was played in a session yet.
pub open spec fn begins(s: MultiSpecSession) -> bool {
    &&& s.rounds@ == Seq::<Round>::empty()
    &&& s.current_round == 0
    &&& s.mode == ResponseMode::Escalate
    &&& s.streak == 0
    &&& !s.finished
}

/// Whether a session is the next generation of another: it starts afresh, for
/// the same agents and specs, with the memory and the patterns of the other.
pub open spec fn continues(parent: MultiSpecSession, next: MultiSpecSession) -> bool {
    &&& next.agents@ == parent.agents@
    &&& next.specs@ == parent.specs@
    &&& begins(next)
    &&& next.memory@ == parent.memory@
    &&& next.memory.mode_stats.keys() == parent.memory.mode_stats.keys()
    &&& next.memory.spec_patterns.keys() == parent.memory.spec_patterns.keys()
    &&& next.generation == parent.generation + 1
    &&& text::optional(next.parent_session_id) == Some(
        "gen-"@ + text::numeral(parent.generation as nat),
    )
    &&& patterns(next.cross_spec_patterns) == patterns(parent.cross_spec_patterns)
    &&& next.cross_spec_patterns.keys() == parent.cross_spec_patterns.keys()
}

/// A merged list keeps what it had, and gains all of the others.
pub proof fn merging_keeps_and_gains(list: Seq<Seq<char>>, more: Seq<Seq<char>>, x: Seq<char>)
    ensures
        merged(list, more).contains(x) <==> list.contains(x) || more.contains(x),
        list.no_duplicates() ==> merged(list, more).no_duplicates(),
        list.len() <= merged(list, more).len(),
        merged(list, more).take(list.len() as int) == list,
    decreases more.len(),
{
    if more.len() > 0 {
        let rest = merged(list, more.drop_last());
        merging_keeps_and_gains(list, more.drop_last(), x);
        if list.no_duplicates() && !rest.contains(more.last()) {
            assert(rest.push(more.last()).no_duplicates());
        }
        if more.contains(x) && !more.drop_last().contains(x) {
            let i = choose|i: int| 0 <= i < more.len() && more[i] == x;
            if i < more.len() - 1 {
                assert(more.drop_last()[i] == x);
            }
        }
        if more.drop_last().contains(x) {
            let i = choose|i: int| 0 <= i < more.drop_last().len() && more.drop_last()[i] == x;
            assert(more[i] == x);
        }
        assert(more[more.len() - 1] == more.last());
        if !rest.contains(more.last()) {
            let all = rest.push(more.last());
            assert(all[rest.len() as int] == more.last());
            if rest.contains(x) {
                let i = choose|i: int| 0 <= i < rest.len() && rest[i] == x;
                assert(all[i] == x);
            }
            assert(all.take(list.len() as int) =~= rest.take(list.len() as int));
        }
    } else {
        assert(list.take(list.len() as int) =~= list);
    }
}

/// A list gains nothing from what it holds.
proof fn lemma_nothing_to_gain(list: Seq<Seq<char>>, more: Seq<Seq<char>>)
    requires
        forall|x: Seq<char>| #[trigger] more.contains(x) ==> list.contains(x),
    ensures
        merged(list, more) == list,
    decreases more.len(),
{
    if more.len() > 0 {
        let front = more.drop_last();
        assert forall|x: Seq<char>| #[trigger] front.contains(x) implies list.contains(x) by {
            let i = choose|i: int| 0 <= i < front.len() && front[i] == x;
            assert(more[i] == x);
            assert(more.contains(x));
        }
        lemma_nothing_to_gain(list, front);
        assert(more[more.len() - 1] == more.last());
        assert(more.contains(more.last()));
    }
}

proof fn lemma_evolved_tidy(ids: Seq<Seq<char>>, known: Patterns)
    requires
        tidy(known),
    ensures
        tidy(evolved(ids, known)),
{
    assert forall|id: Seq<char>| #[trigger] evolved(ids, known).contains_key(id) implies evolved(
        ids,
        known,
    )[id].no_duplicates() by {
        merging_keeps_and_gains(known[id], shared_with(ids, known, id), seq![]);
    }
}

/// Whether rounds are numbered from zero on, and each is up to date.
pub open spec fn orderly(rounds: Seq<Round>) -> bool {
    forall|i: int|
        0 <= i < rounds.len() ==> (#[trigger] rounds[i])@.number == i && rounds[i]@.consistent()
}

/// Whether no pattern is kept twice for a spec.
pub open spec fn tidy(known: Patterns) -> bool {
    forall|id: Seq<char>| #[trigger] known.contains_key(id) ==> known[id].no_duplicates()
}

proof fn lemma_riffed_orderly(before: Seq<Round>, riff: RiffView, after: Seq<Round>)
    requires
        orderly(before),
        riffed(before, riff, after),
    ensures
        orderly(after),
        after.len() == before.len(),
{
    assert forall|i: int| 0 <= i < after.len() implies (#[trigger] after[i])@.number == i
        && after[i]@.consistent() by {
        if i < after.len() - 1 {
            assert(after.drop_last()[i] == before.drop_last()[i]);
        }
        assert(before[i]@.number == i);
    }
}

impl MultiSpecSession {
    /// The number of the round that is played, zero before the first.
    pub open spec fn round_in_play(self) -> u32 {
        if self.current_round == 0 {
            0
        } else {
            (self.current_round - 1) as u32
        }
    }

    /// Whether the rounds are numbered from zero on and counted, each is up
    /// to date, and no spec and no pattern of a spec is kept twice.
    pub open spec fn consistent(self) -> bool {
        &&& self.rounds@.len() == self.current_round
        &&& orderly(self.rounds@)
        &&& self.cross_spec_patterns.distinct()
        &&& tidy(patterns(self.cross_spec_patterns))
    }

    pub fn new(agents: Vec<u32>, specs: Vec<RiffSpec>, generation: u32) -> (s: MultiSpecSession)
        ensures
            s.agents == agents,
            s.specs == specs,
            begins(s),
            s.memory@ == MemoryView::blank(),
            s.generation == generation,
            s.parent_session_id is None,
            patterns(s.cross_spec_patterns) == Map::<Seq<char>, Seq<Seq<char>>>::empty(),
            s.cross_spec_patterns.keys() == Seq::<Seq<char>>::empty(),
            s.consistent(),
    {
        let s = MultiSpecSession {
            agents,
            specs,
            rounds: Vec::new(),
            memory: RiffMemory::new(),
            current_round: 0,
            mode: ResponseMode::Escalate,
            streak: 0,
            finished: false,
            generation,
            parent_session_id: None,
            cross_spec_patterns: Dictionary::new(),
        };
        assert(patterns(s.cross_spec_patterns) =~= Map::<Seq<char>, Seq<Seq<char>>>::empty());
        s
    }

    /// Starts a round and hands it out.
    pub fn new_round(&mut self) -> (round: &mut Round)
        requires
            old(self).current_round < u32::MAX,
        ensures
            round@ == RoundView::fresh(old(self).current_round),
            final(self).rounds@ == old(self).rounds@.push(*final(round)),
            *final(self) == (MultiSpecSession {
                rounds: final(self).rounds,
                current_round: (old(self).current_round + 1) as u32,
                ..*old(self)
            }),
            old(self).consistent() && final(round)@.consistent() && final(round)@.number == old(
                self,
            ).current_round ==> final(self).consistent(),
    {
        let round: Round = Round::new(self.current_round);
        self.rounds.push(round);
        self.current_round = self.current_round + 1;
        let last: usize = self.rounds.len() - 1;
        &mut self.rounds[last]
    }

    /// Adds a riff to the last round.
    fn play(&mut self, riff: Riff)
        ensures
            riffed(old(self).rounds@, riff@, final(self).rounds@),
            *final(self) == (MultiSpecSession { rounds: final(self).rounds, ..*old(self) }),
            old(self).consistent() ==> final(self).consistent(),
    {
        let n: usize = self.rounds.len();
        if n > 0 {
            self.rounds[n - 1].add(riff);
            assert(self.rounds@.drop_last() =~= old(self).rounds@.drop_last());
        }
        proof {
            if old(self).consistent() {
                lemma_riffed_orderly(old(self).rounds@, riff@, self.rounds@);
            }
        }
    }

    pub fn riff(&mut self, agent_id: u32, quality: Quality, surprise: Binary64)
        ensures
            riffed(
                old(self).rounds@,
                RiffView::bare(agent_id, old(self).round_in_play(), quality, surprise@),
                final(self).rounds@,
            ),
            *final(self) == (MultiSpecSession { rounds: final(self).rounds, ..*old(self) }),
            old(self).consistent() ==> final(self).consistent(),
    {
        let riff: Riff = Riff::new(
            agent_id,
            self.current_round.saturating_sub(1),
            quality,
            surprise,
        );
        self.play(riff);
    }

    pub fn riff_with_output(
        &mut self,
        agent_id: u32,
        quality: Quality,
        surprise: Binary64,
        loc: usize,
        tests: usize,
        features: Vec<&str>,
    )
        ensures
            riffed(
                old(self).rounds@,
                RiffView::bare(
                    agent_id,
                    old(self).round_in_play(),
                    quality,
                    surprise@,
                ).with_output(loc, tests, text::slices(features@)),
                final(self).rounds@,
            ),
            *final(self) == (MultiSpecSession { rounds: final(self).rounds, ..*old(self) }),
            old(self).consistent() ==> final(self).consistent(),
    {
        let mut riff: Riff = Riff::new(
            agent_id,
            self.current_round.saturating_sub(1),
            quality,
            surprise,
        );
        riff.with_output(loc, tests, features);
        self.play(riff);
    }

    /// The patterns of all specs but the given one.
    fn patterns_for(&self, spec_id: &String) -> (shared: Vec<String>)
        ensures
            text::texts(shared@) == shared_with(
                self.cross_spec_patterns.keys(),
                patterns(self.cross_spec_patterns),
                spec_id@,
            ),
    {
        let ghost ids = self.cross_spec_patterns.keys();
        let ghost known = patterns(self.cross_spec_patterns);
        let mut shared: Vec<String> = Vec::new();
        let n: usize = self.cross_spec_patterns.len();
        let mut i: usize = 0;
        assert(ids.take(0) =~= Seq::empty());
        assert(text::texts(shared@) =~= Seq::empty());
        while i < n
            invariant
                i <= n == ids.len(),
                ids == self.cross_spec_patterns.keys(),
                known == patterns(self.cross_spec_patterns),
                text::texts(shared@) == shared_with(ids.take(i as int), known, spec_id@),
            decreases n - i,
        {
            let id: &String = self.cross_spec_patterns.key_at(i);
            proof {
                assert(ids.take(i + 1).drop_last() =~= ids.take(i as int));
                assert(ids.take(i + 1).last() == id@);
                assert(ids.contains(id@));
            }
            if !(*id == *spec_id) {
                if let Some(list) = self.cross_spec_patterns.get(id) {
                    let mut copy: Vec<String> = text::copied(list);
                    let ghost before = shared@;
                    shared.append(&mut copy);
                    assert(text::texts(shared@) =~= text::texts(before) + text::texts(list@));
                    assert(known[id@] == text::texts(list@));
                }
            }
            i = i + 1;
        }
        assert(ids.take(i as int) =~= ids);
        shared
    }

    /// The patterns of all specs, each with those of the others.
    fn evolved_patterns(&self) -> (next: Dictionary<String, Vec<String>>)
        ensures
            next.keys() == self.cross_spec_patterns.keys(),
            patterns(next) == evolved(
                self.cross_spec_patterns.keys(),
                patterns(self.cross_spec_patterns),
            ),
    {
        let ghost ids = self.cross_spec_patterns.keys();
        let ghost known = patterns(self.cross_spec_patterns);
        let ghost all = evolved(ids, known);
        let mut next: Dictionary<String, Vec<String>> = self.cross_spec_patterns.clone();
        let n: usize = self.cross_spec_patterns.len();
        let mut i: usize = 0;
        while i < n
            invariant
                i <= n == ids.len(),
                ids == self.cross_spec_patterns.keys(),
                known == patterns(self.cross_spec_patterns),
                all == evolved(ids, known),
                next.keys() == ids,
                forall|j: int|
                    0 <= j < i ==> patterns(next)[#[trigger] ids[j]] == all[ids[j]],
            decreases n - i,
        {
            let id: &String = self.cross_spec_patterns.key_at(i);
            assert(ids.contains(id@));
            if let Some(list) = self.cross_spec_patterns.get(id) {
                let shared: Vec<String> = self.patterns_for(id);
                let updated: Vec<String> = merge(text::copied(list), &shared);
                let ghost before = patterns(next);
                next.insert(id.clone(), updated);
                proof {
                    assert(known[id@] == text::texts(list@));
                    assert(text::texts(updated@) == all[id@]);
                    assert(patterns(next) =~= before.insert(id@, text::texts(updated@)));
                }
            }
            i = i + 1;
        }
        proof {
            assert forall|id: Seq<char>| #[trigger] all.contains_key(id) implies patterns(next)[id]
                == all[id] by {
                let j = choose|j: int| 0 <= j < ids.len() && ids[j] == id;
                assert(patterns(next)[ids[j]] == all[ids[j]]);
            }
            assert(patterns(next) =~= all);
        }
        next
    }

    /// Adds a riff that targets a spec. It takes over the patterns of the
    /// other specs, and its features become patterns of its own spec.
    pub fn riff_for_spec(
        &mut self,
        agent_id: u32,
        spec_id: &str,
        quality: Quality,
        surprise: Binary64,
        loc: usize,
        tests: usize,
        features: Vec<&str>,
    )
        ensures
            riffed(
                old(self).rounds@,
                RiffView::bare(
                    agent_id,
                    old(self).round_in_play(),
                    quality,
                    surprise@,
                ).with_output(
                    loc,
                    tests,
                    features_with_shared(
                        text::slices(features@),
                        old(self).cross_spec_patterns.keys(),
                        patterns(old(self).cross_spec_patterns),
                        spec_id@,
                    ),
                ).targeting(spec_id@),
                final(self).rounds@,
            ),
            patterns(final(self).cross_spec_patterns) == known_after(
                old(self).cross_spec_patterns.keys(),
                patterns(old(self).cross_spec_patterns),
                spec_id@,
                text::slices(features@),
            ),
            final(self).cross_spec_patterns.keys() == ids_after(
                old(self).cross_spec_patterns.keys(),
                spec_id@,
            ),
            *final(self) == (MultiSpecSession {
                rounds: final(self).rounds,
                cross_spec_patterns: final(self).cross_spec_patterns,
                ..*old(self)
            }),
            old(self).consistent() ==> final(self).consistent(),
    {
        let id: String = spec_id.to_owned();
        let mut riff: Riff = Riff::new(
            agent_id,
            self.current_round.saturating_sub(1),
            quality,
            surprise,
        );
        riff.with_output(loc, tests, features);
        riff.spec_id = Some(spec_id.to_owned());
        let shared: Vec<String> = self.patterns_for(&id);
        riff.features = merge(riff.features, &shared);
        let entry: Vec<String> = match self.cross_spec_patterns.get(&id) {
            Some(list) => text::copied(list),
            None => Vec::new(),
        };
        let ghost known = patterns(self.cross_spec_patterns);
        proof {
            assert(text::texts(Seq::<String>::empty()) =~= Seq::empty());
            assert(text::texts(entry@) == patterns_of(known, spec_id@));
        }
        let updated: Vec<String> = merge(entry, &riff.features);
        self.cross_spec_patterns.insert(id, updated);
        proof {
            assert(patterns(self.cross_spec_patterns) =~= known.insert(
                spec_id@,
                text::texts(updated@),
            ));
            if old(self).consistent() {
                merging_keeps_and_gains(text::texts(entry@), text::texts(riff.features@), seq![]);
                assert(tidy(patterns(self.cross_spec_patterns)));
                assert(self.consistent());
            }
        }
        self.play(riff);
    }

    /// Evaluates the last round: lengthens or breaks the streak, picks the
    /// next mode, finishes a session that has gone stale, and shares the
    /// patterns of every spec with all others. What a spec takes over comes
    /// behind its own patterns, spec by spec in the order in which the specs
    /// came. Without a round nothing changes.
    pub fn evaluate(&mut self) -> (summary: RoundSummary)
        requires
            old(self).rounds@.len() > 0 && old(self).rounds@.last()@.productive() ==> old(
                self,
            ).streak < u32::MAX,
        ensures
            evaluated(*old(self), *final(self), summary@),
            old(self).consistent() ==> final(self).consistent(),
    {
        let n: usize = self.rounds.len();
        if n == 0 {
            return RoundSummary {
                surprise: Binary64::zero(),
                productive: false,
                landed: false,
                mode: self.mode,
                best_productivity: Binary64::zero(),
            };
        }
        let round: &Round = &self.rounds[n - 1];
        let ghost riffs = round@.riffs;
        let surprise: Binary64 = round.surprise_sum;
        let productive: bool = round.was_productive();
        let mut strong: bool = false;
        let mut best: Binary64 = Binary64::zero();
        let mut i: usize = 0;
        assert(riffs.take(0) =~= Seq::empty());
        while i < round.riffs.len()
            invariant
                i <= round.riffs@.len(),
                riffs == round@.riffs,
                strong == exists|k: int|
                    0 <= k < i && (#[trigger] riffs[k]).quality == Quality::Strong,
                best@ == SummaryView::best_productivity_of(riffs.take(i as int)),
            decreases round.riffs@.len() - i,
        {
            let riff: &Riff = &round.riffs[i];
            proof {
                assert(riffs[i as int] == riff@);
                assert(riffs.take(i + 1).drop_last() =~= riffs.take(i as int));
            }
            if riff.quality == Quality::Strong {
                strong = true;
            }
            best = best.max(riff.productivity());
            i = i + 1;
        }
        assert(riffs.take(i as int) =~= riffs);
        let landed: bool = Binary64::ratio(8, 10).lt(surprise) && strong;
        if productive {
            self.streak = self.streak + 1;
        } else {
            self.streak = 0;
        }
        self.mode = ResponseMode::auto(surprise, self.streak, self.current_round);
        if self.streak == 0 && self.current_round > 5 {
            self.finished = true;
        }
        self.cross_spec_patterns = self.evolved_patterns();
        proof {
            if old(self).consistent() {
                lemma_evolved_tidy(
                    old(self).cross_spec_patterns.keys(),
                    patterns(old(self).cross_spec_patterns),
                );
            }
        }
        RoundSummary { surprise, productive, landed, mode: self.mode, best_productivity: best }
    }

    /// The metrics of the session so far.
    pub fn metrics(&self) -> (m: SessionMetrics)
        requires
            total_loc(self.rounds@) <= usize::MAX,
            total_tests(self.rounds@) <= usize::MAX,
            total_features(self.rounds@) <= usize::MAX,
        ensures
            measures(*self, m),
    {
        let n: usize = self.rounds.len();
        let ghost rounds = self.rounds@;
        let ghost loc_count = |r: RiffView| r.loc as nat;
        let ghost test_count = |r: RiffView| r.tests as nat;
        let ghost feature_count = |r: RiffView| r.features.len();
        let ghost start = Value::Finite { negative: true, units: 0 };
        let mut productive: usize = 0;
        let mut loc: usize = 0;
        let mut tests: usize = 0;
        let mut features: usize = 0;
        let mut surprise: Binary64 = Binary64::zero().neg();
        let mut i: usize = 0;
        assert(rounds.take(0) =~= Seq::empty());
        while i < n
            invariant
                i <= n == rounds.len(),
                rounds == self.rounds@,
                loc_count == (|r: RiffView| r.loc as nat),
                test_count == (|r: RiffView| r.tests as nat),
                feature_count == (|r: RiffView| r.features.len()),
                total(rounds, loc_count) <= usize::MAX,
                total(rounds, test_count) <= usize::MAX,
                total(rounds, feature_count) <= usize::MAX,
                productive == productive_rounds(rounds.take(i as int)),
                productive <= i,
                loc == total(rounds.take(i as int), loc_count),
                tests == total(rounds.take(i as int), test_count),
                features == total(rounds.take(i as int), feature_count),
                start == (Value::Finite { negative: true, units: 0 }),
                surprise@ == memory::surprise_after(start, rounds.take(i as int)),
            decreases n - i,
        {
            let round: &Round = &self.rounds[i];
            let ghost riffs = round@.riffs;
            let ghost loc_before = loc as nat;
            let ghost tests_before = tests as nat;
            let ghost features_before = features as nat;
            proof {
                assert(rounds.take(i + 1).drop_last() =~= rounds.take(i as int));
                lemma_total_step(rounds, i as int, loc_count);
                lemma_total_step(rounds, i as int, test_count);
                lemma_total_step(rounds, i as int, feature_count);
                assert(riffs.take(0) =~= Seq::empty());
            }
            if round.was_productive() {
                productive = productive + 1;
            }
            surprise = surprise.add(round.surprise_sum);
            let mut j: usize = 0;
            while j < round.riffs.len()
                invariant
                    j <= round.riffs@.len(),
                    riffs == round@.riffs,
                    loc_count == (|r: RiffView| r.loc as nat),
                    test_count == (|r: RiffView| r.tests as nat),
                    feature_count == (|r: RiffView| r.features.len()),
                    loc_before + total_of_riffs(riffs, loc_count) <= usize::MAX,
                    tests_before + total_of_riffs(riffs, test_count) <= usize::MAX,
                    features_before + total_of_riffs(riffs, feature_count) <= usize::MAX,
                    loc == loc_before + total_of_riffs(riffs.take(j as int), loc_count),
                    tests == tests_before + total_of_riffs(riffs.take(j as int), test_count),
                    features == features_before + total_of_riffs(
                        riffs.take(j as int),
                        feature_count,
                    ),
                decreases round.riffs@.len() - j,
            {
                let riff: &Riff = &round.riffs[j];
                proof {
                    assert(riffs[j as int] == riff@);
                    lemma_total_of_riffs_step(riffs, j as int, loc_count);
                    lemma_total_of_riffs_step(riffs, j as int, test_count);
                    lemma_total_of_riffs_step(riffs, j as int, feature_count);
                    assert(riff@.features.len() == riff.features@.len());
                }
                loc = loc + riff.loc;
                tests = tests + riff.tests;
                features = features + riff.features.len();
                j = j + 1;
            }
            assert(riffs.take(j as int) =~= riffs);
            i = i + 1;
        }
        assert(rounds.take(i as int) =~= rounds);
        SessionMetrics {
            generation: self.generation,
            total_rounds: n,
            productive_rounds: productive,
            total_loc: loc,
            total_tests: tests,
            total_features: features,
            avg_surprise: if n > 0 {
                surprise.div(Binary64::from_u64(n as u64))
            } else {
                Binary64::zero()
            },
            streak: self.streak,
        }
    }

    /// Bootstraps the next generation: a fresh session for the same agents
    /// and specs, with the memory and the patterns of this one.
    pub fn bootstrap_next(&self) -> (next: MultiSpecSession)
        requires
            self.generation < u32::MAX,
        ensures
            continues(*self, next),
            self.consistent() ==> next.consistent(),
    {
        let agents: Vec<u32> = self.agents.clone();
        let specs: Vec<RiffSpec> = self.specs.clone();
        let mut next: MultiSpecSession = MultiSpecSession::new(agents, specs, self.generation + 1);
        next.memory = self.memory.clone();
        let mut parent: String = "gen-".to_owned();
        let number: String = text::decimal(self.generation);
        parent.append(number.as_str());
        next.parent_session_id = Some(parent);
        next.cross_spec_patterns = self.cross_spec_patterns.clone();
        proof {
            assert(next.agents@ =~= self.agents@);
            assert(next.specs@ =~= self.specs@);
            let mine = self.cross_spec_patterns@;
            let copy = next.cross_spec_patterns@;
            assert forall|k: Seq<char>| #[trigger] copy.contains_key(k) implies text::texts(
                copy[k]@,
            ) == text::texts(mine[k]@) by {
                assert(cloned::<Vec<String>>(mine[k], copy[k]));
                assert(text::texts(copy[k]@) =~= text::texts(mine[k]@));
            }
            assert(patterns(next.cross_spec_patterns) =~= patterns(self.cross_spec_patterns));
        }
        next
    }
}

/// A riff for a spec carries its own features and every pattern known for
/// another spec, and nothing else.
pub proof fn riffs_carry_what_others_found(
    ids: Seq<Seq<char>>,
    known: Patterns,
    id: Seq<char>,
    own: Seq<Seq<char>>,
    x: Seq<char>,
)
    ensures
        features_with_shared(own, ids, known, id).contains(x) <==> own.contains(x) || exists|
            other: Seq<char>,
        | #[trigger]
            ids.contains(other) && other != id && known[other].contains(x),
{
    merging_keeps_and_gains(own, shared_with(ids, known, id), x);
    lemma_shared_with(ids, known, id, x);
}

proof fn lemma_shared_with(
    ids: Seq<Seq<char>>,
    known: Patterns,
    id: Seq<char>,
    x: Seq<char>,
)
    ensures
        shared_with(ids, known, id).contains(x) <==> exists|other: Seq<char>| #[trigger]
            ids.contains(other) && other != id && known[other].contains(x),
    decreases ids.len(),
{
    if ids.len() > 0 {
        let front = ids.drop_last();
        let rest = shared_with(front, known, id);
        let last = ids.last();
        lemma_shared_with(front, known, id, x);
        assert(ids[ids.len() - 1] == last);
        assert(ids.contains(last));
        assert forall|other: Seq<char>| #[trigger] ids.contains(other) <==> front.contains(other)
            || other == last by {
            if ids.contains(other) && other != last {
                let i = choose|i: int| 0 <= i < ids.len() && ids[i] == other;
                assert(front[i] == other);
            }
            if front.contains(other) {
                let i = choose|i: int| 0 <= i < front.len() && front[i] == other;
                assert(ids[i] == other);
            }
        }
        if last != id {
            let list = known[last];
            let all = rest + list;
            if rest.contains(x) {
                let i = choose|i: int| 0 <= i < rest.len() && rest[i] == x;
                assert(all[i] == x);
            }
            if list.contains(x) {
                let i = choose|i: int| 0 <= i < list.len() && list[i] == x;
                assert(all[rest.len() + i] == x);
            }
            if all.contains(x) {
                let i = choose|i: int| 0 <= i < all.len() && all[i] == x;
                if i < rest.len() {
                    assert(rest[i] == x);
                } else {
                    assert(list[i - rest.len()] == x);
                }
            }
        }
        if exists|other: Seq<char>| #[trigger]
            front.contains(other) && other != id && known[other].contains(x) {
            let other = choose|other: Seq<char>| #[trigger]
                front.contains(other) && other != id && known[other].contains(x);
            assert(ids.contains(other));
        }
        if exists|other: Seq<char>| #[trigger]
            ids.contains(other) && other != id && known[other].contains(x) {
            let other = choose|other: Seq<char>| #[trigger]
                ids.contains(other) && other != id && known[other].contains(x);
            if other != last {
                assert(front.contains(other));
            }
        }
    }
}

/// What is found for one spec is carried by the next riff for any other.
pub proof fn what_one_spec_finds_the_others_get(
    ids: Seq<Seq<char>>,
    known: Patterns,
    id: Seq<char>,
    own: Seq<Seq<char>>,
    other: Seq<char>,
    other_own: Seq<Seq<char>>,
    x: Seq<char>,
)
    requires
        id != other,
        own.contains(x),
    ensures
        features_with_shared(
            other_own,
            ids_after(ids, id),
            known_after(ids, known, id, own),
            other,
        ).contains(x),
{
    let all = features_with_shared(own, ids, known, id);
    let later_ids = ids_after(ids, id);
    let later = known_after(ids, known, id, own);
    riffs_carry_what_others_found(ids, known, id, own, x);
    merging_keeps_and_gains(patterns_of(known, id), all, x);
    assert(later_ids.contains(id)) by {
        if !ids.contains(id) {
            assert(later_ids[ids.len() as int] == id);
        }
    }
    assert(later[id].contains(x));
    riffs_carry_what_others_found(later_ids, later, other, other_own, x);
}

/// Patterns are never lost: each list of patterns only gets longer at its end.
pub proof fn patterns_are_never_lost(
    ids: Seq<Seq<char>>,
    known: Patterns,
    id: Seq<char>,
    own: Seq<Seq<char>>,
    other: Seq<char>,
)
    requires
        known.contains_key(other),
    ensures
        known_after(ids, known, id, own).contains_key(other),
        known[other].is_prefix_of(known_after(ids, known, id, own)[other]),
{
    let all = features_with_shared(own, ids, known, id);
    merging_keeps_and_gains(patterns_of(known, id), all, seq![]);
    if other == id {
        let list = known[id];
        let longer = merged(list, all);
        assert(longer.subrange(0, list.len() as int) =~= longer.take(list.len() as int));
    }
}

/// After an evaluation every spec has just the patterns that some spec had,
/// and its own ones stand first, as before.
pub proof fn evaluation_shares_everything(
    ids: Seq<Seq<char>>,
    known: Patterns,
    id: Seq<char>,
    x: Seq<char>,
)
    requires
        forall|k: Seq<char>| #[trigger] known.contains_key(k) <==> ids.contains(k),
        known.contains_key(id),
    ensures
        evolved(ids, known).dom() == known.dom(),
        evolved(ids, known)[id].contains(x) <==> exists|other: Seq<char>| #[trigger]
            known.contains_key(other) && known[other].contains(x),
        known[id].is_prefix_of(evolved(ids, known)[id]),
{
    let list = known[id];
    let longer = evolved(ids, known)[id];
    assert(evolved(ids, known).dom() =~= known.dom());
    merging_keeps_and_gains(list, shared_with(ids, known, id), x);
    lemma_shared_with(ids, known, id, x);
    assert(longer.subrange(0, list.len() as int) =~= longer.take(list.len() as int));
    if exists|other: Seq<char>| #[trigger] known.contains_key(other) && known[other].contains(x) {
        let other = choose|other: Seq<char>| #[trigger]
            known.contains_key(other) && known[other].contains(x);
        assert(ids.contains(other));
    }
    if exists|other: Seq<char>| #[trigger]
        ids.contains(other) && other != id && known[other].contains(x) {
        let other = choose|other: Seq<char>| #[trigger]
            ids.contains(other) && other != id && known[other].contains(x);
        assert(known.contains_key(other));
    }
}

/// A second evaluation finds nothing left to share.
pub proof fn evaluating_again_shares_nothing(ids: Seq<Seq<char>>, known: Patterns)
    requires
        forall|k: Seq<char>| #[trigger] known.contains_key(k) <==> ids.contains(k),
    ensures
        evolved(ids, evolved(ids, known)) == evolved(ids, known),
{
    let once = evolved(ids, known);
    assert forall|id: Seq<char>| #[trigger] once.contains_key(id) implies evolved(ids, once)[id]
        == once[id] by {
        let shared = shared_with(ids, once, id);
        assert forall|x: Seq<char>| #[trigger] shared.contains(x) implies once[id].contains(x) by {
            lemma_shared_with(ids, once, id, x);
            let other = choose|other: Seq<char>| #[trigger]
                ids.contains(other) && other != id && once[other].contains(x);
            assert(known.contains_key(other));
            evaluation_shares_everything(ids, known, other, x);
            evaluation_shares_everything(ids, known, id, x);
        }
        lemma_nothing_to_gain(once[id], shared);
    }
    assert(evolved(ids, once) =~= once);
}

/// A riff adds its own count to every total.
pub proof fn riffs_add_their_counts(
    before: Seq<Round>,
    riff: RiffView,
    after: Seq<Round>,
    count: spec_fn(RiffView) -> nat,
)
    requires
        before.len() > 0,
        riffed(before, riff, after),
    ensures
        total(after, count) == total(before, count) + count(riff),
{
    let riffs = before.last()@.riffs;
    assert(riffs.push(riff).drop_last() =~= riffs);
    assert(riffs.push(riff).last() == riff);
}

/// Productive rounds are among the rounds.
pub proof fn productive_rounds_are_rounds(rounds: Seq<Round>)
    ensures
        productive_rounds(rounds) <= rounds.len(),
    decreases rounds.len(),
{
    if rounds.len() > 0 {
        productive_rounds_are_rounds(rounds.drop_last());
    }
}

/// A round that lands was productive.
pub proof fn landings_are_productive(round: RoundView)
    requires
        SummaryView::lands(round),
    ensures
        round.productive(),
{
    order::ratios_keep_order(3, 8, 10);
}

/// A riff added to the last round raises the lines, tests and features of the
/// session by just its own, whatever its quality.
pub proof fn riffs_add_their_output(before: Seq<Round>, riff: RiffView, after: Seq<Round>)
    requires
        before.len() > 0,
        riffed(before, riff, after),
    ensures
        total_loc(after) == total_loc(before) + riff.loc,
        total_tests(after) == total_tests(before) + riff.tests,
        total_features(after) == total_features(before) + riff.features.len(),
{
    riffs_add_their_counts(before, riff, after, |r: RiffView| r.loc as nat);
    riffs_add_their_counts(before, riff, after, |r: RiffView| r.tests as nat);
    riffs_add_their_counts(before, riff, after, |r: RiffView| r.features.len());
}

/// Whatever the rounds before: a last round with one riff more has just the
/// lines, tests and features of that riff more.
pub proof fn one_riff_more_adds_its_output(
    rounds: Seq<Round>,
    shorter: Round,
    longer: Round,
    riff: RiffView,
)
    requires
        longer@.riffs == shorter@.riffs.push(riff),
    ensures
        total_loc(rounds.push(longer)) == total_loc(rounds.push(shorter)) + riff.loc,
        total_tests(rounds.push(longer)) == total_tests(rounds.push(shorter)) + riff.tests,
        total_features(rounds.push(longer)) == total_features(rounds.push(shorter))
            + riff.features.len(),
{
    let riffs = shorter@.riffs;
    assert(riffs.push(riff).drop_last() =~= riffs);
    assert(rounds.push(longer).drop_last() =~= rounds);
    assert(rounds.push(shorter).drop_last() =~= rounds);
}

/// A round without riffs adds no output, and without rounds there is none.
pub proof fn no_riffs_no_output(rounds: Seq<Round>, round: Round)
    requires
        round@.riffs.len() == 0,
    ensures
        total_loc(rounds.push(round)) == total_loc(rounds),
        total_tests(rounds.push(round)) == total_tests(rounds),
        total_features(rounds.push(round)) == total_features(rounds),
        total_loc(Seq::empty()) == 0,
        total_tests(Seq::empty()) == 0,
        total_features(Seq::empty()) == 0,
{
    assert(rounds.push(round).drop_last() =~= rounds);
}

/// One round more is one productive round more just where it is productive.
pub proof fn productive_rounds_are_counted(rounds: Seq<Round>, round: Round)
    ensures
        round@.productive() ==> productive_rounds(rounds.push(round)) == productive_rounds(rounds)
            + 1,
        !round@.productive() ==> productive_rounds(rounds.push(round)) == productive_rounds(rounds),
        productive_rounds(Seq::empty()) == 0,
{
    assert(rounds.push(round).drop_last() =~= rounds);
}

/// The surprise of several rounds, one by one.
pub open spec fn round_surprises(rounds: Seq<Round>) -> Seq<Value> {
    rounds.map_values(|r: Round| r@.surprise_sum)
}

proof fn lemma_surprise_after_is_added(sum: Value, rounds: Seq<Round>)
    ensures
        memory::surprise_after(sum, rounds) == accuracy::added(sum, round_surprises(rounds)),
    decreases rounds.len(),
{
    if rounds.len() > 0 {
        lemma_surprise_after_is_added(sum, rounds.drop_last());
        assert(round_surprises(rounds).drop_last() =~= round_surprises(rounds.drop_last()));
    }
}

/// The mean surprise of a session is the sum of the surprise of its rounds
/// divided by their number, up to rounding; zero where there is no round.
pub proof fn mean_surprise_is_close(rounds: Seq<Round>)
    requires
        rounds.len() <= 0x1_0000_0000_0000,
        accuracy::all_finite(round_surprises(rounds)),
        accuracy::exact_size(round_surprises(rounds)) * 1000real <= accuracy::huge(),
    ensures
        mean_surprise(rounds) is Finite,
        rounds.len() == 0 ==> accuracy::exact(mean_surprise(rounds)) == 0real,
        rounds.len() > 0 ==> accuracy::size(
            accuracy::exact(mean_surprise(rounds)) - accuracy::exact_sum(round_surprises(rounds))
                / rounds.len() as real,
        ) <= 4real * (accuracy::grain() * accuracy::exact_size(round_surprises(rounds)))
            + accuracy::speck(),
{
    if rounds.len() == 0 {
        accuracy::lemma_units_give_size(mean_surprise(rounds));
    } else {
        lemma_surprise_after_is_added(Value::Finite { negative: true, units: 0 }, rounds);
        accuracy::means_are_close(round_surprises(rounds));
    }
}

/// What learning from rounds adds to the remembered surprise is their
/// surprise, up to rounding.
pub proof fn remembered_surprise_is_close(m: MemoryView, rounds: Seq<Round>)
    requires
        m.total_surprise is Finite,
        rounds.len() <= 0x1_0000_0000_0000,
        accuracy::all_finite(round_surprises(rounds)),
        (accuracy::size(accuracy::exact(m.total_surprise)) + accuracy::exact_size(
            round_surprises(rounds),
        )) * 1000real <= accuracy::huge(),
    ensures
        m.learned(rounds).total_surprise is Finite,
        accuracy::size(
            accuracy::exact(m.learned(rounds).total_surprise) - (accuracy::exact(m.total_surprise)
                + accuracy::exact_sum(round_surprises(rounds))),
        ) <= 2real * rounds.len() as real * accuracy::grain() * (accuracy::size(
            accuracy::exact(m.total_surprise),
        ) + accuracy::exact_size(round_surprises(rounds))),
{
    lemma_surprise_after_is_added(m.total_surprise, rounds);
    accuracy::long_sums_are_close(m.total_surprise, round_surprises(rounds));
}

/// An evaluation leaves everything alone but the streak, the mode, the
/// patterns and whether the session is finished.
pub proof fn evaluation_leaves_the_rest_alone(
    before: MultiSpecSession,
    after: MultiSpecSession,
    summary: SummaryView,
)
    requires
        evaluated(before, after, summary),
    ensures
        after.agents == before.agents,
        after.specs == before.specs,
        after.rounds == before.rounds,
        after.memory == before.memory,
        after.current_round == before.current_round,
        after.generation == before.generation,
        after.parent_session_id == before.parent_session_id,
        after.cross_spec_patterns.keys() == before.cross_spec_patterns.keys(),
        before.rounds@.len() == 0 ==> after == before && !summary.productive && !summary.landed
            && summary.mode == before.mode,
{
}

/// A productive round lengthens the streak by one, and any other ends it. A
/// session that is finished stays so, and one that is not gets finished just
/// by an unproductive round when six rounds or more were started.
pub proof fn streaks_and_staleness(
    before: MultiSpecSession,
    after: MultiSpecSession,
    summary: SummaryView,
)
    requires
        evaluated(before, after, summary),
        before.rounds@.len() > 0,
        before.streak < u32::MAX,
    ensures
        summary.productive == before.rounds@.last()@.productive(),
        summary.productive ==> after.streak == before.streak + 1,
        !summary.productive ==> after.streak == 0,
        after.finished <==> before.finished || (!summary.productive && before.current_round >= 6),
{
}

/// The summary gives the surprise of the round and the next mode, which is the
/// mode of the session from then on: a pivot after six productive rounds or
/// more, and else what answers the surprise.
pub proof fn summaries_tell_surprise_and_mode(
    before: MultiSpecSession,
    after: MultiSpecSession,
    summary: SummaryView,
)
    requires
        evaluated(before, after, summary),
        before.rounds@.len() > 0,
    ensures
        summary.surprise == before.rounds@.last()@.surprise_sum,
        summary.mode == after.mode,
        summary.mode == ResponseMode::Pivot <==> after.streak >= 6,
        after.streak < 6 ==> summary.mode == ResponseMode::answer(summary.surprise, 0),
{
}

/// A round lands just where it has a strong riff and more surprise than eight
/// tenths.
pub proof fn landing_takes_surprise_and_a_strong_riff(
    before: MultiSpecSession,
    after: MultiSpecSession,
    summary: SummaryView,
    i: int,
)
    requires
        evaluated(before, after, summary),
        before.rounds@.len() > 0,
        0 <= i < before.rounds@.last()@.riffs.len(),
    ensures
        before.rounds@.last()@.riffs[i].quality == Quality::Strong ==> (summary.landed
            <==> Value::ratio(8, 10).less(before.rounds@.last()@.surprise_sum)),
        (forall|j: int|
            0 <= j < before.rounds@.last()@.riffs.len() ==> (
            #[trigger] before.rounds@.last()@.riffs[j]).quality != Quality::Strong)
            ==> !summary.landed,
        summary.landed ==> summary.productive,
{
    if summary.landed {
        landings_are_productive(before.rounds@.last()@);
    }
}

/// The best productivity of a round is not below zero nor below that of any of
/// its riffs that has one, and it is zero or that of one of them.
pub proof fn the_best_productivity_is_the_greatest(riffs: Seq<RiffView>, i: int)
    requires
        0 <= i < riffs.len(),
    ensures
        ({
            let zero = Value::Finite { negative: false, units: 0 };
            let best = SummaryView::best_productivity_of(riffs);
            &&& best.at_least(zero)
            &&& riffs[i].productivity() !is NotANumber ==> best.at_least(riffs[i].productivity())
            &&& best == zero || exists|j: int|
                0 <= j < riffs.len() && best == (#[trigger] riffs[j]).productivity()
        }),
    decreases riffs.len(),
{
    let zero = Value::Finite { negative: false, units: 0 };
    let front = riffs.drop_last();
    let last = riffs.last();
    let best = SummaryView::best_productivity_of(riffs);
    let earlier = SummaryView::best_productivity_of(front);
    assert(riffs[riffs.len() - 1] == last);
    if front.len() == 0 {
        assert(earlier == zero);
    } else {
        let k = if i < front.len() {
            i
        } else {
            0
        };
        the_best_productivity_is_the_greatest(front, k);
        if earlier != zero {
            let j = choose|j: int|
                0 <= j < front.len() && earlier == (#[trigger] front[j]).productivity();
            assert(riffs[j].productivity() == earlier);
        }
    }
}

/// The summary of an evaluation gives the best productivity of the round.
pub proof fn summaries_tell_the_best_productivity(
    before: MultiSpecSession,
    after: MultiSpecSession,
    summary: SummaryView,
    i: int,
)
    requires
        evaluated(before, after, summary),
        before.rounds@.len() > 0,
        0 <= i < before.rounds@.last()@.riffs.len(),
    ensures
        ({
            let zero = Value::Finite { negative: false, units: 0 };
            let riffs = before.rounds@.last()@.riffs;
            &&& summary.best_productivity.at_least(zero)
            &&& riffs[i].productivity() !is NotANumber ==> summary.best_productivity.at_least(
                riffs[i].productivity(),
            )
            &&& summary.best_productivity == zero || exists|j: int|
                0 <= j < riffs.len() && summary.best_productivity == (
                #[trigger] riffs[j]).productivity()
        }),
{
    the_best_productivity_is_the_greatest(before.rounds@.last()@.riffs, i);
}

/// A riff goes to the end of the last round, and nowhere else; the round keeps
/// its number, and its surprise grows by that of the riff.
pub proof fn riffs_go_to_the_last_round(before: Seq<Round>, riff: RiffView, after: Seq<Round>)
    requires
        riffed(before, riff, after),
    ensures
        after.len() == before.len(),
        forall|i: int| 0 <= i < before.len() - 1 ==> #[trigger] after[i] == before[i],
        before.len() > 0 ==> {
            &&& after.last()@.number == before.last()@.number
            &&& after.last()@.riffs.len() == before.last()@.riffs.len() + 1
            &&& after.last()@.riffs.last() == riff
            &&& after.last()@.riffs.drop_last() == before.last()@.riffs
            &&& after.last()@.surprise_sum == before.last()@.surprise_sum.plus(riff.surprise)
            &&& after.last()@.settled()
        },
{
    assert forall|i: int| 0 <= i < before.len() - 1 implies #[trigger] after[i] == before[i] by {
        assert(after.drop_last()[i] == before.drop_last()[i]);
    }
    if before.len() > 0 {
        let riffs = before.last()@.riffs;
        assert(riffs.push(riff).drop_last() =~= riffs);
    }
}

/// In a consistent session riffs bear the number of the round that they are
/// added to.
pub proof fn riffs_bear_the_number_of_their_round(s: MultiSpecSession)
    requires
        s.consistent(),
        s.rounds@.len() > 0,
    ensures
        s.round_in_play() == s.rounds@.last()@.number,
{
    assert(s.rounds@[s.rounds@.len() - 1]@.number == s.rounds@.len() - 1);
}

/// A riff for a spec starts with its own features, as they were given, and
/// takes over each pattern of the others at most once.
pub proof fn own_features_come_first(
    ids: Seq<Seq<char>>,
    known: Patterns,
    id: Seq<char>,
    own: Seq<Seq<char>>,
)
    ensures
        own.is_prefix_of(features_with_shared(own, ids, known, id)),
        own.no_duplicates() ==> features_with_shared(own, ids, known, id).no_duplicates(),
{
    let all = features_with_shared(own, ids, known, id);
    merging_keeps_and_gains(own, shared_with(ids, known, id), seq![]);
    assert(all.subrange(0, own.len() as int) =~= all.take(own.len() as int));
}

/// A riff for a spec leaves the patterns of the other specs alone, and its own
/// spec then has what it had and all features of the riff, and nothing else.
pub proof fn features_become_patterns(
    ids: Seq<Seq<char>>,
    known: Patterns,
    id: Seq<char>,
    own: Seq<Seq<char>>,
    x: Seq<char>,
)
    ensures
        ({
            let later = known_after(ids, known, id, own);
            &&& later.contains_key(id)
            &&& later[id].contains(x) <==> (known.contains_key(id) && known[id].contains(x))
                || features_with_shared(own, ids, known, id).contains(x)
            &&& forall|other: Seq<char>|
                other != id ==> (#[trigger] later.contains_key(other) <==> known.contains_key(
                    other,
                )) && later[other] == known[other]
        }),
{
    merging_keeps_and_gains(
        patterns_of(known, id),
        features_with_shared(own, ids, known, id),
        x,
    );
}

/// Specs stay in the order in which they came, and a new one comes last.
pub proof fn new_specs_come_last(ids: Seq<Seq<char>>, id: Seq<char>)
    ensures
        ids.is_prefix_of(ids_after(ids, id)),
        ids_after(ids, id).contains(id),
        ids.contains(id) ==> ids_after(ids, id) == ids,
        !ids.contains(id) ==> ids_after(ids, id).len() == ids.len() + 1 && ids_after(ids, id).last()
            == id,
{
    if !ids.contains(id) {
        assert(ids_after(ids, id)[ids.len() as int] == id);
        assert(ids_after(ids, id).subrange(0, ids.len() as int) =~= ids);
    } else {
        assert(ids.subrange(0, ids.len() as int) =~= ids);
    }
}

/// What is shared comes spec by spec: a spec that came later adds its patterns
/// at the end, in their order, and the own spec adds none.
pub proof fn patterns_are_shared_in_order(
    ids: Seq<Seq<char>>,
    known: Patterns,
    id: Seq<char>,
    other: Seq<char>,
)
    ensures
        shared_with(Seq::empty(), known, id).len() == 0,
        other != id ==> shared_with(ids.push(other), known, id) == shared_with(ids, known, id)
            + known[other],
        shared_with(ids.push(id), known, id) == shared_with(ids, known, id),
{
    assert(ids.push(other).drop_last() =~= ids);
    assert(ids.push(id).drop_last() =~= ids);
}

/// A merged list takes over what is new in the order in which it comes.
pub proof fn merging_appends_what_is_new(
    list: Seq<Seq<char>>,
    more: Seq<Seq<char>>,
    x: Seq<char>,
)
    ensures
        merged(list, Seq::empty()) == list,
        merged(list, more).contains(x) ==> merged(list, more.push(x)) == merged(list, more),
        !merged(list, more).contains(x) ==> merged(list, more.push(x)) == merged(list, more).push(x),
{
    assert(more.push(x).drop_last() =~= more);
}

/// The next generation starts afresh, one generation on, for the same agents
/// and specs.
pub proof fn next_generations_start_afresh(parent: MultiSpecSession, next: MultiSpecSession)
    requires
        continues(parent, next),
    ensures
        next.generation == parent.generation + 1,
        next.agents@ == parent.agents@,
        next.specs@ == parent.specs@,
        next.rounds@.len() == 0,
        next.current_round == 0,
        next.streak == 0,
        next.mode == ResponseMode::Escalate,
        !next.finished,
{
}

/// The next generation predicts as its parent does, and its riffs carry what
/// those of the parent would.
pub proof fn next_generations_know_what_their_parents_knew(
    parent: MultiSpecSession,
    next: MultiSpecSession,
    agent_id: u32,
    mode: ResponseMode,
    id: Seq<char>,
    own: Seq<Seq<char>>,
)
    requires
        continues(parent, next),
    ensures
        next.memory@ == parent.memory@,
        next.memory@.score(agent_id, mode) == parent.memory@.score(agent_id, mode),
        features_with_shared(
            own,
            next.cross_spec_patterns.keys(),
            patterns(next.cross_spec_patterns),
            id,
        ) == features_with_shared(
            own,
            parent.cross_spec_patterns.keys(),
            patterns(parent.cross_spec_patterns),
            id,
        ),
{
}

/// Sessions with parents of different generations have different parent ids.
pub proof fn parents_are_told_apart(
    parent: MultiSpecSession,
    next: MultiSpecSession,
    other_parent: MultiSpecSession,
    other: MultiSpecSession,
)
    requires
        continues(parent, next),
        continues(other_parent, other),
    ensures
        text::optional(next.parent_session_id) == text::optional(other.parent_session_id)
            <==> parent.generation == other_parent.generation,
{
    let a = text::numeral(parent.generation as nat);
    let b = text::numeral(other_parent.generation as nat);
    let head = "gen-"@;
    if head + a == head + b {
        let n = head.len() as int;
        assert((head + a).subrange(n, (head + a).len() as int) =~= a);
        assert((head + b).subrange(n, (head + b).len() as int) =~= b);
        text::numerals_are_read_back(parent.generation as nat);
        text::numerals_are_read_back(other_parent.generation as nat);
    }
}

/// A session that begins has no rounds, no output and no surprise, and is to
/// escalate.
pub proof fn sessions_begin_empty(s: MultiSpecSession)
    requires
        begins(s),
    ensures
        s.rounds@.len() == 0,
        s.current_round == 0,
        s.streak == 0,
        s.mode == ResponseMode::Escalate,
        !s.finished,
        total_loc(s.rounds@) == 0,
        total_tests(s.rounds@) == 0,
        total_features(s.rounds@) == 0,
        productive_rounds(s.rounds@) == 0,
        accuracy::exact(mean_surprise(s.rounds@)) == 0real,
{
    accuracy::lemma_units_give_size(mean_surprise(s.rounds@));
}

/// A riff raises the lines, tests and features in the metrics of a session by
/// just its own, and leaves the number of rounds as it was.
pub proof fn riffs_raise_the_metrics(
    before: MultiSpecSession,
    after: MultiSpecSession,
    riff: RiffView,
    m: SessionMetrics,
    n: SessionMetrics,
)
    requires
        before.rounds@.len() > 0,
        riffed(before.rounds@, riff, after.rounds@),
        measures(before, m),
        measures(after, n),
    ensures
        n.total_loc == m.total_loc + riff.loc,
        n.total_tests == m.total_tests + riff.tests,
        n.total_features == m.total_features + riff.features.len(),
        n.total_rounds == m.total_rounds,
        n.generation == after.generation,
        n.streak == after.streak,
{
    riffs_add_their_output(before.rounds@, riff, after.rounds@);
}

/// The metrics of a session that begins are zero but for its generation. A
/// fresh round adds one to the rounds and nothing else to the counts.
pub proof fn metrics_start_from_zero(
    before: MultiSpecSession,
    after: MultiSpecSession,
    round: Round,
    m: SessionMetrics,
    n: SessionMetrics,
)
    requires
        begins(before),
        after.rounds@ == before.rounds@.push(round),
        round@ == RoundView::fresh(before.current_round),
        measures(before, m),
        measures(after, n),
    ensures
        m.generation == before.generation,
        m.total_rounds == 0 && m.productive_rounds == 0 && m.total_loc == 0 && m.total_tests == 0
            && m.total_features == 0 && m.streak == 0,
        accuracy::exact(m.avg_surprise@) == 0real,
        n.total_rounds == 1 && n.productive_rounds == 0 && n.total_loc == 0 && n.total_tests == 0
            && n.total_features == 0,
{
    sessions_begin_empty(before);
    no_riffs_no_output(before.rounds@, round);
    productive_rounds_are_counted(before.rounds@, round);
    crate::riff::fresh_rounds_are_empty(before.current_round);
}

/// The mean surprise in the metrics of a session is the sum of the surprise of
/// its rounds divided by their number, up to rounding.
pub proof fn metrics_tell_the_mean_surprise(s: MultiSpecSession, m: SessionMetrics)
    requires
        measures(s, m),
        0 < s.rounds@.len() <= 0x1_0000_0000_0000,
        accuracy::all_finite(round_surprises(s.rounds@)),
        accuracy::exact_size(round_surprises(s.rounds@)) * 1000real <= accuracy::huge(),
    ensures
        accuracy::size(
            accuracy::exact(m.avg_surprise@) - accuracy::exact_sum(round_surprises(s.rounds@))
                / m.total_rounds as real,
        ) <= 4real * (accuracy::grain() * accuracy::exact_size(round_surprises(s.rounds@)))
            + accuracy::speck(),
{
    mean_surprise_is_close(s.rounds@);
}

} // verus!
