//! Spec generation: candidate specs for a domain, and their ranking.

use vstd::arithmetic::power2::*;
use vstd::prelude::*;
use vstd::string::*;

use crate::accuracy;
use crate::binary64;
use crate::binary64::{Binary64, Value};
use crate::dictionary::Dictionary;
use crate::memory::RiffMemory;
use crate::order;
use crate::text;

verus! {

/// A generated spec candidate.
#[derive(Debug)]
pub struct SpecCandidate {
    pub id: String,
    pub domain: String,
    pub description: String,
    /// From zero to one.
    pub estimated_complexity: Binary64,
    pub keywords: Vec<String>,
}

/// What a candidate says.
#[verifier::ext_equal]
pub struct CandidateView {
    pub id: Seq<char>,
    pub domain: Seq<char>,
    pub description: Seq<char>,
    pub estimated_complexity: Value,
    pub keywords: Seq<Seq<char>>,
}

impl View for SpecCandidate {
    type V = CandidateView;

    open spec fn view(&self) -> CandidateView {
        CandidateView {
            id: self.id@,
            domain: self.domain@,
            description: self.description@,
            estimated_complexity: self.estimated_complexity@,
            keywords: text::texts(self.keywords@),
        }
    }
}

impl Clone for SpecCandidate {
    fn clone(&self) -> (c: SpecCandidate)
        ensures
            c@ == self@,
            c.estimated_complexity == self.estimated_complexity,
    {
        SpecCandidate {
            id: self.id.clone(),
            domain: self.domain.clone(),
            description: self.description.clone(),
            estimated_complexity: self.estimated_complexity,
            keywords: text::copied(&self.keywords),
        }
    }
}

impl CandidateView {
    /// How useful it is to riff on the spec: its complexity times its keyword
    /// richness, which is its share of five keywords and one from five on.
    pub open spec fn usefulness(self) -> Value {
        let keywords = Value::natural(self.keywords.len()).over(Value::ratio(5, 1)).min(
            Value::ratio(1, 1),
        );
        self.estimated_complexity.times(keywords)
    }

    /// The candidate with its complexity drawn towards the score of its
    /// domain: seven tenths of its own and three of the domain's, at most one.
    pub open spec fn biased(self, domain_score: Value) -> CandidateView {
        CandidateView {
            estimated_complexity: self.estimated_complexity.times(Value::ratio(7, 10)).plus(
                domain_score.times(Value::ratio(3, 10)),
            ).min(Value::ratio(1, 1)),
            ..self
        }
    }

    /// All candidates of a list, each drawn towards the score of its domain.
    pub open spec fn all_biased(
        list: Seq<CandidateView>,
        domain_score: Value,
    ) -> Seq<CandidateView> {
        list.map_values(|c: CandidateView| c.biased(domain_score))
    }

    /// The candidates for a domain without templates, where `lowered` is the
    /// name of the domain in lowercase.
    pub open spec fn defaults(domain: Seq<char>, lowered: Seq<char>) -> Seq<CandidateView> {
        let slug = text::hyphenated(lowered);
        seq![
            CandidateView {
                id: slug + "-core"@,
                domain,
                description: "Core data structures for "@ + domain,
                estimated_complexity: Value::ratio(3, 10),
                keywords: seq!["core"@, "data-structure"@],
            },
            CandidateView {
                id: slug + "-advanced"@,
                domain,
                description: "Advanced algorithms for "@ + domain,
                estimated_complexity: Value::ratio(7, 10),
                keywords: seq!["algorithm"@, "optimization"@],
            },
            CandidateView {
                id: slug + "-gpu"@,
                domain,
                description: "GPU-accelerated "@ + domain + " kernels"@,
                estimated_complexity: Value::ratio(9, 10),
                keywords: seq!["gpu"@, "cuda"@, "kernel"@],
            },
        ]
    }
}

/// An entry of a ranking: the place of a candidate and its usefulness.
pub struct RankEntry {
    pub place: int,
    pub score: Value,
}

impl RankEntry {
    /// Whether this entry comes before the other: it is more useful, or as
    /// useful and from an earlier place.
    pub open spec fn precedes(self, other: RankEntry) -> bool {
        other.score.less(self.score) || (!self.score.less(other.score) && self.place < other.place)
    }
}

/// What a ranking says.
pub open spec fn entries(ranked: Seq<(usize, Binary64)>) -> Seq<RankEntry> {
    ranked.map_values(|e: (usize, Binary64)| RankEntry { place: e.0 as int, score: e.1@ })
}

/// Whether a list ranks the first `n` candidates: it holds each of them
/// once, with its usefulness, the most useful first, and equally useful ones
/// in the order in which they stood.
pub open spec fn ranks(list: Seq<RankEntry>, specs: Seq<CandidateView>, n: int) -> bool {
    &&& list.len() == n
    &&& forall|k: int|
        0 <= k < n ==> 0 <= (#[trigger] list[k]).place < n && list[k].score
            == specs[list[k].place].usefulness()
    &&& forall|j: int, k: int|
        0 <= j < k < n ==> (#[trigger] list[j]).precedes(#[trigger] list[k])
}

/// Inserting the next candidate behind all that are no less useful.
proof fn lemma_ranked_insert(
    list: Seq<RankEntry>,
    specs: Seq<CandidateView>,
    n: int,
    at: int,
)
    requires
        0 <= n < specs.len(),
        0 <= at <= n,
        ranks(list, specs, n),
        forall|k: int| 0 <= k <= n ==> (#[trigger] specs[k]).usefulness() !is NotANumber,
        forall|k: int|
            0 <= k < at ==> !(#[trigger] list[k]).score.less(specs[n].usefulness()),
        at < n ==> list[at].score.less(specs[n].usefulness()),
    ensures
        ranks(
            list.insert(at, RankEntry { place: n, score: specs[n].usefulness() }),
            specs,
            n + 1,
        ),
{
    let new = RankEntry { place: n, score: specs[n].usefulness() };
    let next = list.insert(at, new);
    assert forall|k: int| 0 <= k < n implies (#[trigger] list[k]).score !is NotANumber by {
        assert(specs[list[k].place].usefulness() !is NotANumber);
    }
    assert forall|k: int| at <= k < n implies (#[trigger] list[k]).score.less(new.score) by {
        if k > at {
            assert(list[at].precedes(list[k]));
        }
    }
    assert forall|k: int| 0 <= k < n + 1 implies 0 <= (#[trigger] next[k]).place < n + 1
        && next[k].score == specs[next[k].place].usefulness() by {
        if k < at {
            assert(next[k] == list[k]);
        } else if k > at {
            assert(next[k] == list[k - 1]);
        }
    }
    assert forall|j: int, k: int| 0 <= j < k < n + 1 implies (#[trigger] next[j]).precedes(
        #[trigger] next[k],
    ) by {
        if k < at {
            assert(next[j] == list[j] && next[k] == list[k]);
        } else if k == at {
            assert(next[j] == list[j]);
        } else if j < at {
            assert(next[j] == list[j] && next[k] == list[k - 1]);
        } else if j == at {
            assert(next[k] == list[k - 1]);
        } else {
            assert(next[j] == list[j - 1] && next[k] == list[k - 1]);
        }
    }
}

/// What the candidates of a list say.
pub open spec fn candidates(list: Seq<SpecCandidate>) -> Seq<CandidateView> {
    list.map_values(|c: SpecCandidate| c@)
}

/// Copies a list of candidates.
fn copied(list: &Vec<SpecCandidate>) -> (r: Vec<SpecCandidate>)
    ensures
        candidates(r@) == candidates(list@),
{
    let mut r: Vec<SpecCandidate> = Vec::new();
    let mut i: usize = 0;
    while i < list.len()
        invariant
            i <= list@.len(),
            r@.len() == i,
            forall|j: int| 0 <= j < i ==> (#[trigger] r@[j])@ == list@[j]@,
        decreases list@.len() - i,
    {
        r.push(list[i].clone());
        i = i + 1;
    }
    assert(candidates(r@) =~= candidates(list@));
    r
}

fn joined(a: &str, b: &str) -> (s: String)
    ensures
        s@ == a@ + b@,
{
    let mut s: String = a.to_owned();
    s.append(b);
    s
}

/// Spec generator: produces spec candidates from a domain.
#[derive(Debug, Clone)]
pub struct SpecGenerator {
    pub domain_templates: Dictionary<String, Vec<SpecCandidate>>,
}

impl SpecGenerator {
    /// The candidates for a domain, where `lowered` is its name in lowercase:
    /// its templates, or else the default ones.
    pub open spec fn generated(&self, domain: Seq<char>, lowered: Seq<char>) -> Seq<CandidateView> {
        if self.domain_templates@.contains_key(domain) {
            candidates(self.domain_templates@[domain]@)
        } else {
            CandidateView::defaults(domain, lowered)
        }
    }

    pub fn new() -> (g: SpecGenerator)
        ensures
            g.domain_templates@ == Map::<Seq<char>, Vec<SpecCandidate>>::empty(),
            g.domain_templates.keys() == Seq::<Seq<char>>::empty(),
    {
        SpecGenerator { domain_templates: Dictionary::new() }
    }

    /// The default candidates for a domain, where `lowered` is its name in
    /// lowercase.
    pub fn specs_from_lowercase(domain: &str, lowered: &str) -> (specs: Vec<SpecCandidate>)
        ensures
            candidates(specs@) == CandidateView::defaults(domain@, lowered@),
    {
        let slug: String = text::hyphenate(lowered);
        let core = SpecCandidate {
            id: joined(slug.as_str(), "-core"),
            domain: domain.to_owned(),
            description: joined("Core data structures for ", domain),
            estimated_complexity: Binary64::ratio(3, 10),
            keywords: vec!["core".to_owned(), "data-structure".to_owned()],
        };
        let advanced = SpecCandidate {
            id: joined(slug.as_str(), "-advanced"),
            domain: domain.to_owned(),
            description: joined("Advanced algorithms for ", domain),
            estimated_complexity: Binary64::ratio(7, 10),
            keywords: vec!["algorithm".to_owned(), "optimization".to_owned()],
        };
        let mut gpu_description: String = joined("GPU-accelerated ", domain);
        gpu_description.append(" kernels");
        let gpu = SpecCandidate {
            id: joined(slug.as_str(), "-gpu"),
            domain: domain.to_owned(),
            description: gpu_description,
            estimated_complexity: Binary64::ratio(9, 10),
            keywords: vec!["gpu".to_owned(), "cuda".to_owned(), "kernel".to_owned()],
        };
        proof {
            let expected = CandidateView::defaults(domain@, lowered@);
            assert(core@ =~= expected[0]);
            assert(advanced@ =~= expected[1]);
            assert(gpu@ =~= expected[2]);
            assert(candidates(seq![core, advanced, gpu]) =~= expected);
        }
        vec![core, advanced, gpu]
    }

    fn default_specs(domain: &str) -> (specs: Vec<SpecCandidate>)
        ensures
            candidates(specs@) == CandidateView::defaults(domain@, text::lowercased(domain@)),
            text::ascii(domain@) ==> candidates(specs@) == CandidateView::defaults(
                domain@,
                domain@.map_values(|c: char| text::ascii_lower(c)),
            ),
    {
        let lowered: String = text::lowercase(domain);
        SpecGenerator::specs_from_lowercase(domain, lowered.as_str())
    }

    /// Generates spec candidates for a given domain.
    pub fn generate(&self, domain: &str) -> (specs: Vec<SpecCandidate>)
        ensures
            candidates(specs@) == self.generated(domain@, text::lowercased(domain@)),
            text::ascii(domain@) ==> candidates(specs@) == self.generated(
                domain@,
                domain@.map_values(|c: char| text::ascii_lower(c)),
            ),
    {
        let key: String = domain.to_owned();
        match self.domain_templates.get(&key) {
            Some(templates) => copied(templates),
            None => SpecGenerator::default_specs(domain),
        }
    }

    /// Generates specs using memory to bias toward productive domains.
    pub fn generate_with_memory(&self, domain: &str, memory: &RiffMemory) -> (specs: Vec<
        SpecCandidate,
    >)
        ensures
            candidates(specs@) == CandidateView::all_biased(
                self.generated(domain@, text::lowercased(domain@)),
                memory@.domain_score(domain@),
            ),
            text::ascii(domain@) ==> candidates(specs@) == CandidateView::all_biased(
                self.generated(domain@, domain@.map_values(|c: char| text::ascii_lower(c))),
                memory@.domain_score(domain@),
            ),
    {
        let specs: Vec<SpecCandidate> = self.generate(domain);
        let key: String = domain.to_owned();
        let domain_score: Binary64 = match memory.spec_patterns.get(&key) {
            Some(score) => *score,
            None => Binary64::ratio(1, 2),
        };
        SpecGenerator::bias(specs, domain_score)
    }

    /// Draws the complexity of each candidate towards the score of its domain.
    pub fn bias(specs: Vec<SpecCandidate>, domain_score: Binary64) -> (biased: Vec<SpecCandidate>)
        ensures
            candidates(biased@) == CandidateView::all_biased(candidates(specs@), domain_score@),
    {
        let mut biased: Vec<SpecCandidate> = Vec::new();
        let mut i: usize = 0;
        while i < specs.len()
            invariant
                i <= specs@.len(),
                biased@.len() == i,
                forall|j: int|
                    0 <= j < i ==> (#[trigger] biased@[j])@ == specs@[j]@.biased(domain_score@),
            decreases specs@.len() - i,
        {
            let mut spec: SpecCandidate = specs[i].clone();
            spec.estimated_complexity = spec.estimated_complexity.mul(Binary64::ratio(7, 10)).add(
                domain_score.mul(Binary64::ratio(3, 10)),
            ).min(Binary64::ratio(1, 1));
            assert(spec@ =~= specs@[i as int]@.biased(domain_score@));
            biased.push(spec);
            i = i + 1;
        }
        assert(candidates(biased@) =~= CandidateView::all_biased(
            candidates(specs@),
            domain_score@,
        ));
        biased
    }

    /// The usefulness of a candidate.
    fn usefulness(spec: &SpecCandidate) -> (score: Binary64)
        ensures
            score@ == spec@.usefulness(),
    {
        let keywords: Binary64 = Binary64::from_u64(spec.keywords.len() as u64).div(
            Binary64::ratio(5, 1),
        ).min(Binary64::ratio(1, 1));
        spec.estimated_complexity.mul(keywords)
    }

    /// Ranks specs by estimated usefulness: the most useful ones to riff on
    /// come first.
    pub fn rank_specs(&self, specs: &[SpecCandidate]) -> (ranked: Vec<(usize, Binary64)>)
        requires
            specs@.len() > 1 ==> forall|i: int|
                0 <= i < specs@.len() ==> (#[trigger] specs@[i])@.usefulness() !is NotANumber,
        ensures
            ranks(entries(ranked@), candidates(specs@), specs@.len() as int),
    {
        let ghost views = candidates(specs@);
        let mut ranked: Vec<(usize, Binary64)> = Vec::new();
        let mut i: usize = 0;
        while i < specs.len()
            invariant
                i <= specs@.len(),
                views == candidates(specs@),
                specs@.len() > 1 ==> forall|i: int|
                    0 <= i < specs@.len() ==> (#[trigger] specs@[i])@.usefulness() !is NotANumber,
                ranks(entries(ranked@), views, i as int),
            decreases specs@.len() - i,
        {
            let score: Binary64 = SpecGenerator::usefulness(&specs[i]);
            let mut at: usize = 0;
            while at < i && !ranked[at].1.lt(score)
                invariant
                    at <= i == ranked@.len(),
                    forall|k: int|
                        0 <= k < at ==> !(#[trigger] entries(ranked@)[k]).score.less(score@),
                decreases i - at,
            {
                at = at + 1;
            }
            let ghost before = ranked@;
            ranked.insert(at, (i, score));
            proof {
                assert(views[i as int] == specs@[i as int]@);
                let new = RankEntry { place: i as int, score: score@ };
                assert(entries(ranked@) =~= entries(before).insert(at as int, new));
                if specs@.len() > 1 {
                    assert forall|k: int| 0 <= k <= i implies (#[trigger] views[k]).usefulness()
                        !is NotANumber by {
                        assert(views[k] == specs@[k]@);
                    }
                    lemma_ranked_insert(entries(before), views, i as int, at as int);
                }
            }
            i = i + 1;
        }
        ranked
    }
}

/// A slug has no spaces, and as many characters as the text it is made from.
pub proof fn slugs_have_no_spaces(s: Seq<char>)
    ensures
        !text::hyphenated(s).contains(' '),
        text::hyphenated(s).len() == s.len(),
{
}

/// The default candidates of a domain bear its name, have keywords and a
/// complexity between zero and one, and have three ids.
pub proof fn default_candidates_bear_their_domain(domain: Seq<char>, lowered: Seq<char>, i: int)
    requires
        0 <= i < 3,
    ensures
        CandidateView::defaults(domain, lowered).len() == 3,
        CandidateView::defaults(domain, lowered)[i].domain == domain,
        CandidateView::defaults(domain, lowered)[i].keywords.len() >= 2,
        CandidateView::defaults(domain, lowered)[i].estimated_complexity.signed() > 0,
        Value::ratio(1, 1).at_least(
            CandidateView::defaults(domain, lowered)[i].estimated_complexity,
        ),
        text::hyphenated(lowered).is_prefix_of(CandidateView::defaults(domain, lowered)[i].id),
        forall|j: int|
            0 <= j < 3 && j != i ==> (#[trigger] CandidateView::defaults(domain, lowered)[j]).id
                != CandidateView::defaults(domain, lowered)[i].id,
{
    let all = CandidateView::defaults(domain, lowered);
    let slug = text::hyphenated(lowered);
    order::tenths_are_positive(3);
    order::tenths_are_positive(7);
    order::tenths_are_positive(9);
    reveal_strlit("-core");
    reveal_strlit("-advanced");
    reveal_strlit("-gpu");
    assert(all[0].id.len() == slug.len() + 5);
    assert(all[1].id.len() == slug.len() + 9);
    assert(all[2].id.len() == slug.len() + 4);
}

/// A biased complexity is a number, and at most one. Where complexity and
/// domain score are not below zero, neither is what comes out.
pub proof fn biased_complexity_stays_in_range(c: CandidateView, domain_score: Value)
    ensures
        Value::ratio(1, 1).at_least(c.biased(domain_score).estimated_complexity),
        ({
            let zero = Value::Finite { negative: false, units: 0 };
            c.estimated_complexity.at_least(zero) && domain_score.at_least(zero)
                ==> c.biased(domain_score).estimated_complexity.at_least(zero)
        }),
{
    let zero = Value::Finite { negative: false, units: 0 };
    let seven = Value::ratio(7, 10);
    let three = Value::ratio(3, 10);
    order::small_naturals_are_exact(1);
    if c.estimated_complexity.at_least(zero) && domain_score.at_least(zero) {
        order::tenths_are_positive(7);
        order::tenths_are_positive(3);
        order::products_keep_order(zero, c.estimated_complexity, seven);
        order::products_keep_order(zero, domain_score, three);
        lemma_pow2_pos(1074);
        binary64::lemma_zero_rounds_to_zero(pow2(1074));
        assert(0 * seven->units == 0 && 0 * three->units == 0) by (nonlinear_arith);
        order::sums_keep_order(
            zero,
            c.estimated_complexity.times(seven),
            zero,
            domain_score.times(three),
        );
    }
}

/// More remembered surprise never lowers a biased complexity.
pub proof fn more_surprise_never_lowers_complexity(c: CandidateView, less: Value, more: Value)
    requires
        more.at_least(less),
    ensures
        c.biased(more).estimated_complexity.at_least(c.biased(less).estimated_complexity),
{
    let own = c.estimated_complexity.times(Value::ratio(7, 10));
    let three = Value::ratio(3, 10);
    order::small_naturals_are_exact(1);
    order::tenths_are_positive(3);
    order::products_keep_order(less, more, three);
    if own !is NotANumber {
        order::sums_keep_order(own, own, less.times(three), more.times(three));
    }
}

/// A finite complexity makes a usefulness that is a number, and so does a
/// complexity that is a number where there are keywords.
pub proof fn usefulness_is_a_number(c: CandidateView)
    requires
        c.estimated_complexity is Finite || (c.estimated_complexity is Infinite
            && c.keywords.len() > 0),
    ensures
        c.usefulness() !is NotANumber,
{
    let n = c.keywords.len();
    let units = order::natural_units(n);
    let unit = pow2(1074);
    order::small_naturals_are_exact(1);
    order::small_naturals_are_exact(5);
    lemma_pow2_pos(1074);
    assert(1 * unit > 0 && 5 * unit > 0);
    if n > 0 {
        // At least a fifth, which is at least one unit.
        lemma2_to64();
        lemma_pow2_strictly_increases(3, 1074);
        order::naturals_are_finite(1);
        order::naturals_keep_order(1, n);
        assert(1 * (5 * unit) <= (units * unit) * 1) by (nonlinear_arith)
            requires
                units >= unit,
                unit >= 5,
        ;
        order::rounding_is_monotone(1, 1, units * unit, 5 * unit);
        order::lemma_grid_is_kept(1, 0, 1);
        assert(1 * pow2(0) * 1 == 1 && 1 * pow2(0) == 1);
    }
}

/// A ranking holds every candidate.
pub proof fn every_candidate_is_ranked(
    list: Seq<RankEntry>,
    specs: Seq<CandidateView>,
    n: int,
    i: int,
)
    requires
        ranks(list, specs, n),
        0 <= i < n,
    ensures
        exists|k: int| 0 <= k < n && (#[trigger] list[k]).place == i,
{
    let places = list.map_values(|e: RankEntry| e.place);
    assert(places.no_duplicates()) by {
        assert forall|j: int, k: int|
            0 <= j < places.len() && 0 <= k < places.len() && j != k implies places[j]
            != places[k] by {
            if j < k {
                assert(list[j].precedes(list[k]));
            } else {
                assert(list[k].precedes(list[j]));
            }
        }
    }
    places.unique_seq_to_set();
    let range = vstd::set_lib::set_int_range(0, n);
    vstd::set_lib::lemma_int_range(0, n);
    assert(places.to_set().subset_of(range)) by {
        assert forall|x: int| places.to_set().contains(x) implies range.contains(x) by {
            let k = choose|k: int| 0 <= k < places.len() && places[k] == x;
            assert(list[k].place == x);
        }
    }
    vstd::set_lib::lemma_subset_equality(places.to_set(), range);
    assert(range.contains(i));
    assert(places.to_set().contains(i));
    let k = choose|k: int| 0 <= k < places.len() && places[k] == i;
    assert(list[k].place == i);
}

/// What comes later in a ranking is nowhere more useful.
pub proof fn rankings_descend(list: Seq<RankEntry>, specs: Seq<CandidateView>, j: int, k: int)
    requires
        ranks(list, specs, specs.len() as int),
        0 <= j < k < specs.len(),
        forall|i: int| 0 <= i < specs.len() ==> (#[trigger] specs[i]).usefulness() !is NotANumber,
    ensures
        list[j].score.at_least(list[k].score),
{
    assert(list[j].precedes(list[k]));
    assert(specs[list[j].place].usefulness() !is NotANumber);
    assert(specs[list[k].place].usefulness() !is NotANumber);
}

/// The candidates leave no choice of their ranking.
pub proof fn candidates_determine_their_ranking(
    a: Seq<RankEntry>,
    b: Seq<RankEntry>,
    specs: Seq<CandidateView>,
    n: int,
)
    requires
        0 <= n,
        ranks(a, specs, n),
        ranks(b, specs, n),
        forall|i: int| 0 <= i < n ==> (#[trigger] specs[i]).usefulness() !is NotANumber,
    ensures
        a == b,
{
    assert forall|k: int| 0 <= k < n implies #[trigger] a[k] == b[k] by {
        lemma_same_entry(a, b, specs, n, k);
    }
    assert(a =~= b);
}

proof fn lemma_same_entry(
    a: Seq<RankEntry>,
    b: Seq<RankEntry>,
    specs: Seq<CandidateView>,
    n: int,
    k: int,
)
    requires
        ranks(a, specs, n),
        ranks(b, specs, n),
        forall|i: int| 0 <= i < n ==> (#[trigger] specs[i]).usefulness() !is NotANumber,
        0 <= k < n,
    ensures
        a[k] == b[k],
    decreases k,
{
    assert forall|j: int| 0 <= j < k implies #[trigger] a[j] == b[j] by {
        lemma_same_entry(a, b, specs, n, j);
    }
    every_candidate_is_ranked(b, specs, n, a[k].place);
    let i = choose|i: int| 0 <= i < n && (#[trigger] b[i]).place == a[k].place;
    every_candidate_is_ranked(a, specs, n, b[k].place);
    let h = choose|h: int| 0 <= h < n && (#[trigger] a[h]).place == b[k].place;
    assert(a[k].score == b[i].score);
    assert(a[h].score == b[k].score);
    assert(a[k] == b[i]);
    assert(a[h] == b[k]);
    if i < k {
        assert(a[i] == b[i]);
        assert(a[i].precedes(a[k]));
    } else if h < k {
        assert(a[h] == b[h]);
        assert(b[h].precedes(b[k]));
    } else if i > k && h > k {
        assert(specs[a[k].place].usefulness() !is NotANumber);
        assert(specs[b[k].place].usefulness() !is NotANumber);
        assert(b[k].precedes(b[i]));
        assert(a[k].precedes(a[h]));
    }
}

/// The exact keyword richness: a fifth for each keyword, and at most one.
pub open spec fn exact_richness(keywords: nat) -> real {
    if keywords < 5 {
        keywords as real / 5real
    } else {
        1real
    }
}

/// Keyword richness, as usefulness takes it.
spec fn richness(keywords: nat) -> Value {
    Value::natural(keywords).over(Value::ratio(5, 1)).min(Value::ratio(1, 1))
}

proof fn lemma_richness(n: nat)
    requires
        n <= u64::MAX,
    ensures
        richness(n) is Finite,
        richness(n).signed() >= 0,
        n == 0 <==> richness(n).signed() == 0,
        accuracy::size(accuracy::exact(richness(n)) - exact_richness(n)) <= 4real
            * accuracy::grain() * exact_richness(n),
{
    let e = accuracy::grain();
    let h = accuracy::speck();
    let five = Value::ratio(5, 1);
    let one = Value::ratio(1, 1);
    let q = Value::natural(n).over(five);
    accuracy::lemma_speck_is_small();
    accuracy::lemma_unit_is_positive();
    order::small_naturals_are_exact(1);
    order::small_naturals_are_exact(5);
    accuracy::naturals_are_close(1);
    accuracy::naturals_are_close(5);
    accuracy::naturals_are_close(n);
    order::naturals_are_finite(n);
    lemma_pow2_strictly_increases(64, 900);
    lemma2_to64();
    let k = n as real;
    let a = accuracy::exact(Value::natural(n));
    accuracy::lemma_scaled(e, 1real / 1000real, k);
    assert(0real <= a <= 2real * k);
    accuracy::quotients_are_close(Value::natural(n), five);
    let b = accuracy::exact(q);
    let ek = e * k;
    assert(e * (a / 5real) <= (2real / 5real) * ek) by {
        accuracy::lemma_scaled(a / 5real, (2real / 5real) * k, e);
        assert(e * ((2real / 5real) * k) == (2real / 5real) * ek) by (nonlinear_arith)
            requires
                ek == e * k,
        ;
    }
    assert(accuracy::size(b - k / 5real) <= (3real / 5real) * ek + h);
    accuracy::less_means_less(one, q);
    let unit = pow2(1074);
    if n == 0 {
        assert(0 * unit == 0) by (nonlinear_arith);
        assert(5 * unit > 0);
        binary64::lemma_zero_rounds_to_zero(5 * unit);
        accuracy::lemma_units_give_size(q);
        assert(4real * e * 0real == 0real);
    } else {
        accuracy::lemma_scaled(1real, k, e);
        assert(h <= ek / 1000000real);
        assert(accuracy::size(b - k / 5real) <= (4real / 5real) * ek);
        if n < 5 {
            assert(4real * e * (k / 5real) == (4real / 5real) * ek) by (nonlinear_arith)
                requires
                    ek == e * k,
            ;
        } else if n == 5 {
            assert(4real * e * 1real == (4real / 5real) * ek) by (nonlinear_arith)
                requires
                    ek == e * k,
                    k == 5real,
            ;
        } else {
            assert(4real * e * 1real >= 0real);
        }
        assert(accuracy::exact(richness(n)) > 0real);
        accuracy::lemma_units_give_size(richness(n));
    }
}

/// The usefulness of a candidate is its complexity times its keyword richness,
/// up to rounding.
pub proof fn usefulness_is_a_product(c: CandidateView)
    requires
        c.estimated_complexity is Finite,
        accuracy::size(accuracy::exact(c.estimated_complexity)) * 1000real <= accuracy::huge(),
        c.keywords.len() <= u64::MAX,
    ensures
        c.usefulness() is Finite,
        ({
            let product = accuracy::exact(c.estimated_complexity) * exact_richness(
                c.keywords.len(),
            );
            accuracy::size(accuracy::exact(c.usefulness()) - product) <= 6real * (accuracy::grain()
                * accuracy::size(product)) + accuracy::speck()
        }),
{
    let e = accuracy::grain();
    let n = c.keywords.len();
    let x = accuracy::exact(c.estimated_complexity);
    let y = exact_richness(n);
    let b = accuracy::exact(richness(n));
    accuracy::lemma_speck_is_small();
    lemma_richness(n);
    accuracy::lemma_scaled(y, 1real, 4real * e);
    assert(accuracy::size(b) <= 2real);
    accuracy::lemma_size_of_product(x, b);
    accuracy::lemma_scaled(accuracy::size(b), 2real, accuracy::size(x));
    accuracy::products_are_close(c.estimated_complexity, richness(n));
    let p = accuracy::exact(c.usefulness());
    assert(0real * accuracy::size(x) == 0real && 0real * accuracy::size(y) == 0real);
    accuracy::lemma_product_error(x, x, 0real, 0real, y, b, 4real * e, p);
    let g = accuracy::size(x * y);
    assert((4real * e) * g == 4real * (e * g)) by (nonlinear_arith);
    assert(0real * g == 0real);
}

/// Of two candidates with finite complexity that is not negative, the one with
/// no less complexity and no fewer keywords is no less useful.
pub proof fn complexity_and_keywords_are_useful(a: CandidateView, b: CandidateView)
    requires
        a.estimated_complexity is Finite,
        b.estimated_complexity is Finite,
        a.estimated_complexity.signed() >= 0,
        a.estimated_complexity.signed() <= b.estimated_complexity.signed(),
        a.keywords.len() <= b.keywords.len() <= u64::MAX,
    ensures
        b.usefulness().at_least(a.usefulness()),
{
    let x = a.estimated_complexity;
    let y = b.estimated_complexity;
    let s = richness(a.keywords.len());
    let t = richness(b.keywords.len());
    let unit = pow2(1074);
    lemma_richness(a.keywords.len());
    lemma_richness(b.keywords.len());
    order::naturals_are_finite(a.keywords.len());
    order::naturals_are_finite(b.keywords.len());
    order::naturals_keep_order(a.keywords.len(), b.keywords.len());
    order::small_naturals_are_exact(5);
    order::small_naturals_are_exact(1);
    lemma_pow2_pos(1074);
    assert(5 * unit > 0);
    order::quotients_keep_order(
        Value::natural(a.keywords.len()),
        Value::natural(b.keywords.len()),
        Value::ratio(5, 1),
    );
    assert(t.at_least(s));
    binary64::lemma_zero_rounds_to_zero(unit);
    if s.signed() == 0 {
        assert(x->units * 0 == 0) by (nonlinear_arith);
    } else {
        order::products_keep_order(x, y, s);
        if y.signed() > 0 {
            order::products_keep_order(s, t, y);
            assert(s->units * y->units == y->units * s->units) by (nonlinear_arith);
            assert(t->units * y->units == y->units * t->units) by (nonlinear_arith);
            if y->Finite_negative {
                assert(y->units == 0);
            }
        } else {
            assert(0 * s->units == 0 && 0 * t->units == 0) by (nonlinear_arith);
        }
    }
}

/// A candidate with keywords and a positive complexity that is not tiny is
/// useful.
pub proof fn keywords_make_useful(c: CandidateView)
    requires
        c.estimated_complexity is Finite,
        1000real * accuracy::speck() <= accuracy::exact(c.estimated_complexity),
        accuracy::exact(c.estimated_complexity) * 1000real <= accuracy::huge(),
        0 < c.keywords.len() <= u64::MAX,
    ensures
        (Value::Finite { negative: false, units: 0 }).less(c.usefulness()),
{
    let zero = Value::Finite { negative: false, units: 0 };
    let x = accuracy::exact(c.estimated_complexity);
    let y = exact_richness(c.keywords.len());
    accuracy::lemma_speck_is_small();
    usefulness_is_a_product(c);
    let p = x * y;
    accuracy::lemma_scaled(1real / 5real, y, x);
    assert(x / 5real <= p);
    accuracy::lemma_scaled(accuracy::grain(), 1real / 1000real, p);
    accuracy::less_means_less(zero, c.usefulness());
    accuracy::lemma_units_give_size(zero);
}

/// Of two candidates in a ranking, one that has no less complexity and no
/// fewer keywords than the other does not stand behind it, unless they are
/// equally useful and stood in that order before.
pub proof fn better_candidates_come_first(
    list: Seq<RankEntry>,
    specs: Seq<CandidateView>,
    j: int,
    k: int,
)
    requires
        ranks(list, specs, specs.len() as int),
        0 <= j < k < specs.len(),
        ({
            let a = specs[list[j].place];
            let b = specs[list[k].place];
            &&& a.estimated_complexity is Finite
            &&& b.estimated_complexity is Finite
            &&& a.estimated_complexity.signed() >= 0
            &&& a.estimated_complexity.signed() <= b.estimated_complexity.signed()
            &&& a.keywords.len() <= b.keywords.len() <= u64::MAX
        }),
    ensures
        !list[j].score.less(list[k].score) && !list[k].score.less(list[j].score),
        list[j].place < list[k].place,
{
    complexity_and_keywords_are_useful(specs[list[j].place], specs[list[k].place]);
    assert(list[j].precedes(list[k]));
}

/// Every entry of a ranking carries the usefulness of its candidate, and of
/// equally useful candidates the earlier one comes first.
pub proof fn rankings_are_stable(list: Seq<RankEntry>, specs: Seq<CandidateView>, j: int, k: int)
    requires
        ranks(list, specs, specs.len() as int),
        0 <= j < specs.len(),
        0 <= k < specs.len(),
        list[j].place < list[k].place,
        specs[list[j].place].usefulness() == specs[list[k].place].usefulness(),
    ensures
        list[j].score == specs[list[j].place].usefulness(),
        j < k,
{
    if k < j {
        assert(list[k].precedes(list[j]));
    }
}

/// A biased complexity is seven tenths of the own one and three tenths of the
/// domain's score, or one where that is more, up to rounding.
pub proof fn biased_complexity_is_a_weighted_mean(c: CandidateView, domain_score: Value)
    requires
        c.estimated_complexity is Finite,
        domain_score is Finite,
        accuracy::size(accuracy::exact(c.estimated_complexity)) * 1000real <= accuracy::huge(),
        accuracy::size(accuracy::exact(domain_score)) * 1000real <= accuracy::huge(),
    ensures
        c.biased(domain_score).estimated_complexity is Finite,
        ({
            let x = accuracy::exact(c.estimated_complexity);
            let y = accuracy::exact(domain_score);
            let mean = (7real * x + 3real * y) / 10real;
            accuracy::size(
                accuracy::exact(c.biased(domain_score).estimated_complexity) - (if mean < 1real {
                    mean
                } else {
                    1real
                }),
            ) <= 8real * accuracy::grain() * (accuracy::size(x) + accuracy::size(y)) + 8real
                * accuracy::speck()
        }),
        c.biased(domain_score).id == c.id,
        c.biased(domain_score).domain == c.domain,
        c.biased(domain_score).description == c.description,
        c.biased(domain_score).keywords == c.keywords,
{
    let x = accuracy::exact(c.estimated_complexity);
    let y = accuracy::exact(domain_score);
    let e = accuracy::grain();
    accuracy::lemma_speck_is_small();
    accuracy::lemma_scaled(0real, accuracy::size(x), e);
    accuracy::lemma_scaled(0real, accuracy::size(y), e);
    accuracy::weighted_means_are_close(c.estimated_complexity, domain_score, x, y, 7, 3);
    order::small_naturals_are_exact(1);
    accuracy::naturals_are_close(1);
    let sum = c.estimated_complexity.times(Value::ratio(7, 10)).plus(
        domain_score.times(Value::ratio(3, 10)),
    );
    accuracy::less_means_less(Value::ratio(1, 1), sum);
}

/// A greater complexity never makes a lesser biased one.
pub proof fn bias_keeps_the_order_of_complexity(a: CandidateView, b: CandidateView, score: Value)
    requires
        b.estimated_complexity.at_least(a.estimated_complexity),
        score !is NotANumber,
    ensures
        b.biased(score).estimated_complexity.at_least(a.biased(score).estimated_complexity),
{
    let seven = Value::ratio(7, 10);
    let other = score.times(Value::ratio(3, 10));
    order::small_naturals_are_exact(1);
    order::tenths_are_positive(7);
    order::tenths_are_positive(3);
    order::products_keep_order(a.estimated_complexity, b.estimated_complexity, seven);
    order::products_keep_order(score, score, Value::ratio(3, 10));
    order::sums_keep_order(
        a.estimated_complexity.times(seven),
        b.estimated_complexity.times(seven),
        other,
        other,
    );
}

/// A slug differs from its text in the spaces alone, each of which becomes a
/// hyphen.
pub proof fn slugs_keep_all_but_spaces(s: Seq<char>, i: int)
    requires
        0 <= i < s.len(),
    ensures
        s[i] != ' ' ==> text::hyphenated(s)[i] == s[i],
        s[i] == ' ' ==> text::hyphenated(s)[i] == '-',
{
}

/// The default candidates get more complex from first to last. Their
/// descriptions tell domains apart, and their ids tell slugs apart.
pub proof fn default_candidates_tell_domains_apart(
    domain: Seq<char>,
    lowered: Seq<char>,
    other: Seq<char>,
    other_lowered: Seq<char>,
    i: int,
)
    requires
        0 <= i < 3,
    ensures
        ({
            let mine = CandidateView::defaults(domain, lowered);
            let theirs = CandidateView::defaults(other, other_lowered);
            &&& mine[0].estimated_complexity.less(mine[1].estimated_complexity)
            &&& mine[1].estimated_complexity.less(mine[2].estimated_complexity)
            &&& mine[i].description == theirs[i].description ==> domain == other
            &&& mine[i].id == theirs[i].id ==> text::hyphenated(lowered) == text::hyphenated(
                other_lowered,
            )
        }),
{
    let mine = CandidateView::defaults(domain, lowered);
    let theirs = CandidateView::defaults(other, other_lowered);
    order::tenths_have_their_bits(3);
    order::tenths_have_their_bits(7);
    order::tenths_have_their_bits(9);
    order::greater_bits_are_greater(order::tenth_bits(3), order::tenth_bits(7));
    order::greater_bits_are_greater(order::tenth_bits(7), order::tenth_bits(9));
    let none = Seq::<char>::empty();
    let a = text::hyphenated(lowered);
    let b = text::hyphenated(other_lowered);
    if i == 0 {
        lemma_same_middle("Core data structures for "@, domain, other, none);
        lemma_same_middle(none, a, b, "-core"@);
    } else if i == 1 {
        lemma_same_middle("Advanced algorithms for "@, domain, other, none);
        lemma_same_middle(none, a, b, "-advanced"@);
    } else {
        lemma_same_middle("GPU-accelerated "@, domain, other, " kernels"@);
        lemma_same_middle(none, a, b, "-gpu"@);
    }
}

/// What stands between the same beginning and the same end is the same.
proof fn lemma_same_middle(head: Seq<char>, a: Seq<char>, b: Seq<char>, tail: Seq<char>)
    ensures
        head + a + tail == head + b + tail ==> a == b,
        head + a == head + b ==> a == b,
        a + tail == b + tail ==> a == b,
{
    let n = head.len() as int;
    if head + a + tail == head + b + tail {
        assert((head + a + tail).len() == (head + b + tail).len());
        assert((head + a + tail).subrange(n, n + a.len()) =~= a);
        assert((head + b + tail).subrange(n, n + a.len()) =~= b);
    }
    if head + a == head + b {
        assert((head + a).len() == (head + b).len());
        assert((head + a).subrange(n, n + a.len()) =~= a);
        assert((head + b).subrange(n, n + a.len()) =~= b);
    }
    if a + tail == b + tail {
        assert((a + tail).len() == (b + tail).len());
        assert((a + tail).subrange(0, a.len() as int) =~= a);
        assert((b + tail).subrange(0, a.len() as int) =~= b);
    }
}

/// Biasing a list keeps its candidates in their places. Each keeps all but its
/// complexity, which becomes seven tenths of itself and three tenths of the
/// score, or one where that is more, up to rounding.
pub proof fn every_candidate_is_biased(list: Seq<CandidateView>, domain_score: Value, i: int)
    requires
        0 <= i < list.len(),
    ensures
        ({
            let biased = CandidateView::all_biased(list, domain_score);
            let c = list[i].estimated_complexity;
            &&& biased.len() == list.len()
            &&& biased[i].id == list[i].id
            &&& biased[i].domain == list[i].domain
            &&& biased[i].description == list[i].description
            &&& biased[i].keywords == list[i].keywords
            &&& c is Finite && domain_score is Finite && accuracy::size(accuracy::exact(c))
                * 1000real <= accuracy::huge() && accuracy::size(accuracy::exact(domain_score))
                * 1000real <= accuracy::huge() ==> {
                let x = accuracy::exact(c);
                let y = accuracy::exact(domain_score);
                let mean = (7real * x + 3real * y) / 10real;
                accuracy::size(
                    accuracy::exact(biased[i].estimated_complexity) - (if mean < 1real {
                        mean
                    } else {
                        1real
                    }),
                ) <= 8real * accuracy::grain() * (accuracy::size(x) + accuracy::size(y)) + 8real
                    * accuracy::speck()
            }
        }),
{
    let c = list[i].estimated_complexity;
    if c is Finite && domain_score is Finite && accuracy::size(accuracy::exact(c)) * 1000real
        <= accuracy::huge() && accuracy::size(accuracy::exact(domain_score)) * 1000real
        <= accuracy::huge() {
        biased_complexity_is_a_weighted_mean(list[i], domain_score);
    }
}

/// The templates of a domain are handed out as they are, and only a domain
/// without templates gets the three default candidates.
pub proof fn templates_are_handed_out(g: SpecGenerator, domain: Seq<char>, lowered: Seq<char>)
    ensures
        g.domain_templates@.contains_key(domain) ==> g.generated(domain, lowered) == candidates(
            g.domain_templates@[domain]@,
        ),
        !g.domain_templates@.contains_key(domain) ==> g.generated(domain, lowered).len() == 3
            && g.generated(domain, lowered) == CandidateView::defaults(domain, lowered),
{
}

} // verus!
