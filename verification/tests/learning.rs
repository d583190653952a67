use agent_riff_v3::{
    Binary64, ModeStats, MultiSpecSession, Quality, ResponseMode, RiffMemory, SpecCandidate,
    SpecGenerator,
};

fn num(x: f64) -> Binary64 {
    Binary64::from_bits(x.to_bits())
}

fn float(x: Binary64) -> f64 {
    f64::from_bits(x.to_bits())
}

fn stats(total_uses: u32, total_surprise: f64, strong_count: u32, weak_count: u32) -> ModeStats {
    ModeStats { total_uses, total_surprise: num(total_surprise), strong_count, weak_count }
}

fn candidate(id: &str, complexity: f64, keywords: usize) -> SpecCandidate {
    SpecCandidate {
        id: id.to_string(),
        domain: "d".to_string(),
        description: "about d".to_string(),
        estimated_complexity: num(complexity),
        keywords: vec!["k".to_string(); keywords],
    }
}

#[test]
fn auto_spec_generation() {
    let gen = SpecGenerator::new();
    let specs = gen.generate("ternary data structures");
    assert!(!specs.is_empty());
    assert!(specs.iter().any(|s| s.id.contains("core")));
    assert!(specs.iter().any(|s| s.id.contains("advanced")));
    assert!(specs.iter().any(|s| s.id.contains("gpu")));
}

#[test]
fn spec_ranking() {
    let gen = SpecGenerator::new();
    let specs = gen.generate("test domain");
    let ranked = gen.rank_specs(&specs);
    assert_eq!(ranked.len(), specs.len());
    for window in ranked.windows(2) {
        assert!(float(window[0].1) >= float(window[1].1));
    }
}

#[test]
fn quality_predictor_with_history() {
    let mut mem = RiffMemory::new();
    let stats0 = stats(10, 8.0, 8, 1);
    let stats1 = stats(10, 4.0, 3, 4);
    mem.mode_stats.insert((0, ResponseMode::Escalate), stats0);
    mem.mode_stats.insert((1, ResponseMode::Pivot), stats1);

    let (agent, _mode, score) = mem.predict_best(&[0, 1]);
    assert_eq!(agent, 0);
    assert!(float(score) > 0.0);
}

#[test]
fn quality_predictor_no_history() {
    let mem = RiffMemory::new();
    let (agent, _mode, score) = mem.predict_best(&[0, 1, 2]);
    assert_eq!(agent, 0);
    assert!(float(score) > 0.0);
}

#[test]
fn default_candidates_in_full() {
    let gen = SpecGenerator::new();
    let specs = gen.generate("Ternary Data Structures");
    assert_eq!(specs.len(), 3);
    assert_eq!(specs[0].id, "ternary-data-structures-core");
    assert_eq!(specs[1].id, "ternary-data-structures-advanced");
    assert_eq!(specs[2].id, "ternary-data-structures-gpu");
    for s in &specs {
        assert_eq!(s.domain, "Ternary Data Structures");
    }
    assert_eq!(specs[0].description, "Core data structures for Ternary Data Structures");
    assert_eq!(specs[1].description, "Advanced algorithms for Ternary Data Structures");
    assert_eq!(specs[2].description, "GPU-accelerated Ternary Data Structures kernels");
    assert_eq!(float(specs[0].estimated_complexity), 0.3);
    assert_eq!(float(specs[1].estimated_complexity), 0.7);
    assert_eq!(float(specs[2].estimated_complexity), 0.9);
    assert_eq!(specs[0].keywords, vec!["core".to_string(), "data-structure".to_string()]);
    assert_eq!(specs[1].keywords, vec!["algorithm".to_string(), "optimization".to_string()]);
    assert_eq!(
        specs[2].keywords,
        vec!["gpu".to_string(), "cuda".to_string(), "kernel".to_string()]
    );
}

#[test]
fn slugs_of_other_scripts() {
    let gen = SpecGenerator::new();
    let specs = gen.generate("\u{c9}TUDES  OP\u{130}");
    assert_eq!(specs[0].id, "\u{e9}tudes--opi\u{307}-core");
    assert_eq!(specs[0].domain, "\u{c9}TUDES  OP\u{130}");
    assert_eq!(gen.generate("")[0].id, "-core");
}

#[test]
fn candidates_from_a_lowercase_name() {
    let specs = SpecGenerator::specs_from_lowercase("A B", "a b");
    assert_eq!(specs[2].id, "a-b-gpu");
    assert_eq!(specs[2].description, "GPU-accelerated A B kernels");
}

#[test]
fn templates_come_before_defaults() {
    let mut gen = SpecGenerator::new();
    gen.domain_templates.insert("music".to_string(), vec![candidate("etude", 0.25, 1)]);
    let specs = gen.generate("music");
    assert_eq!(specs.len(), 1);
    assert_eq!(specs[0].id, "etude");
    assert_eq!(specs[0].keywords.len(), 1);
    assert_eq!(gen.generate("Music").len(), 3);
    let copy = gen.clone();
    assert_eq!(copy.generate("music")[0].id, "etude");
}

#[test]
fn memory_biases_complexity() {
    let gen = SpecGenerator::new();
    let mut mem = RiffMemory::new();
    let neutral = gen.generate_with_memory("x", &mem);
    assert_eq!(neutral[0].estimated_complexity.to_bits(), (0.3f64 * 0.7 + 0.5 * 0.3).to_bits());
    mem.spec_patterns.insert("x".to_string(), num(0.9));
    let biased = gen.generate_with_memory("x", &mem);
    for (s, c) in biased.iter().zip([0.3f64, 0.7, 0.9].iter()) {
        assert_eq!(s.estimated_complexity.to_bits(), (c * 0.7 + 0.9 * 0.3).min(1.0).to_bits());
    }
    mem.spec_patterns.insert("x".to_string(), num(100.0));
    for s in gen.generate_with_memory("x", &mem) {
        assert_eq!(float(s.estimated_complexity), 1.0);
    }
    // What is not a number is taken to one.
    mem.spec_patterns.insert("x".to_string(), num(f64::NAN));
    for s in gen.generate_with_memory("x", &mem) {
        assert_eq!(float(s.estimated_complexity), 1.0);
    }
    // Nothing falls below zero by itself.
    let least = SpecGenerator::bias(vec![candidate("c", 0.0, 0)], num(0.0));
    assert_eq!(float(least[0].estimated_complexity), 0.0);
    let direct = SpecGenerator::bias(vec![candidate("c", 0.5, 0)], num(0.25));
    assert_eq!(direct[0].estimated_complexity.to_bits(), (0.5f64 * 0.7 + 0.25 * 0.3).to_bits());
}

#[test]
fn rankings_in_numbers() {
    let gen = SpecGenerator::new();
    let specs = [
        candidate("a", 0.5, 1),
        candidate("b", 0.1, 9),
        candidate("c", 0.5, 1),
        candidate("d", -3.0, 5),
        candidate("e", 0.3, 3),
    ];
    let ranked = gen.rank_specs(&specs);
    let places: Vec<usize> = ranked.iter().map(|e| e.0).collect();
    assert_eq!(places, vec![4, 0, 1, 2, 3]);
    assert_eq!(ranked[0].1.to_bits(), (0.3f64 * (3.0f64 / 5.0).min(1.0)).to_bits());
    assert_eq!(ranked[1].1.to_bits(), (0.5f64 * (1.0f64 / 5.0).min(1.0)).to_bits());
    assert_eq!(ranked[2].1.to_bits(), (0.1f64 * 1.0).to_bits());
    assert_eq!(float(ranked[4].1), -3.0);
    assert!(gen.rank_specs(&[]).is_empty());
    // A single candidate is not compared with anything.
    let alone = gen.rank_specs(&[candidate("n", f64::NAN, 2)]);
    assert_eq!(alone.len(), 1);
    assert!(alone[0].1.is_nan());
}

#[test]
fn usefulness_is_complexity_times_keyword_richness() {
    let gen = SpecGenerator::new();
    let ranked = gen.rank_specs(&[candidate("bare", 1.0, 0), candidate("rich", 0.4, 2)]);
    assert_eq!((ranked[0].0, ranked[1].0), (1, 0));
    assert_eq!(ranked[0].1.to_bits(), (0.4f64 * (2.0 / 5.0)).to_bits());
    assert_eq!(float(ranked[1].1), 0.0);
    // An infinite complexity counts where there are keywords.
    let ranked = gen.rank_specs(&[candidate("a", 1.0, 5), candidate("b", f64::INFINITY, 1)]);
    assert_eq!((ranked[0].0, ranked[1].0), (1, 0));
}

#[test]
fn mode_stats_in_numbers() {
    let none = ModeStats::default();
    assert_eq!(float(none.avg_surprise()), 0.0);
    assert_eq!(float(none.success_rate()), 0.5);
    let some = stats(3, 1.0, 2, 1);
    assert_eq!(some.avg_surprise().to_bits(), (1.0f64 / 3.0).to_bits());
    assert_eq!(some.success_rate().to_bits(), (2.0f64 / 3.0).to_bits());
}

#[test]
fn predictions_in_numbers() {
    let mut mem = RiffMemory::new();
    assert_eq!(
        mem.predict_for(7, ResponseMode::Invert).to_bits(),
        (0.0f64 * 0.6 + 0.5 * 0.4).to_bits()
    );
    mem.mode_stats.insert((1, ResponseMode::Pivot), stats(10, 8.0, 8, 1));
    mem.mode_stats.insert((2, ResponseMode::Invert), stats(10, 8.0, 8, 1));
    let expected = (8.0f64 / 10.0) * 0.6 + (8.0f64 / 10.0) * 0.4;
    assert_eq!(mem.predict_for(1, ResponseMode::Pivot).to_bits(), expected.to_bits());
    let (agent, mode, score) = mem.predict_best(&[0, 1, 2]);
    assert_eq!((agent, mode), (1, ResponseMode::Pivot));
    assert_eq!(score.to_bits(), expected.to_bits());
    // The first of equals wins.
    let (agent, mode, _) = mem.predict_best(&[2, 1]);
    assert_eq!((agent, mode), (2, ResponseMode::Invert));
}

#[test]
fn predictions_below_the_floor() {
    let mut mem = RiffMemory::new();
    for mode in [
        ResponseMode::Escalate,
        ResponseMode::Pivot,
        ResponseMode::Invert,
        ResponseMode::Provoked,
    ] {
        mem.mode_stats.insert((5, mode), stats(1, -9.0, 0, 1));
        mem.mode_stats.insert((6, mode), stats(1, f64::NAN, 0, 1));
    }
    let (agent, mode, score) = mem.predict_best(&[6, 5]);
    assert_eq!((agent, mode), (6, ResponseMode::Escalate));
    assert_eq!(float(score), -1.0);
}

#[test]
fn without_history_the_first_agent_is_to_escalate() {
    let mem = RiffMemory::new();
    let (agent, mode, score) = mem.predict_best(&[9, 4]);
    assert_eq!((agent, mode), (9, ResponseMode::Escalate));
    assert_eq!(float(score), 0.2);
}

#[test]
fn recommended_modes() {
    let mut mem = RiffMemory::new();
    assert_eq!(mem.recommend_mode(3), ResponseMode::Escalate);
    mem.best_modes.insert(3, ResponseMode::Invert);
    assert_eq!(mem.recommend_mode(3), ResponseMode::Invert);
    assert_eq!(mem.recommend_mode(4), ResponseMode::Escalate);
}

#[test]
fn learning_counts_every_riff() {
    let mut s = MultiSpecSession::new(vec![1, 2], vec![], 1);
    s.new_round();
    s.riff(1, Quality::Strong, num(0.9));
    s.riff(1, Quality::Weak, num(0.1));
    s.new_round();
    s.riff(1, Quality::Okay, num(0.8));
    s.riff(2, Quality::Weak, num(0.5));
    let mut mem = RiffMemory::new();
    mem.spec_patterns.insert("z".to_string(), num(0.5));
    mem.spec_patterns.insert("a".to_string(), num(0.25));
    mem.learn(&s.rounds);
    assert_eq!(mem.spec_patterns.key_at(0), "z");
    assert_eq!(mem.spec_patterns.key_at(1), "a");
    assert_eq!(mem.total_rounds, 2);
    assert_eq!(mem.mode_stats.len(), 3);
    let escalate = *mem.mode_stats.get(&(1, ResponseMode::Escalate)).unwrap();
    assert_eq!((escalate.total_uses, escalate.strong_count, escalate.weak_count), (2, 1, 0));
    assert_eq!(escalate.total_surprise.to_bits(), (0.9f64 + 0.8).to_bits());
    let provoked = *mem.mode_stats.get(&(1, ResponseMode::Provoked)).unwrap();
    assert_eq!((provoked.total_uses, provoked.strong_count, provoked.weak_count), (1, 0, 1));
    let invert = *mem.mode_stats.get(&(2, ResponseMode::Invert)).unwrap();
    assert_eq!((invert.total_uses, invert.strong_count, invert.weak_count), (1, 0, 1));
    assert!(mem.mode_stats.get(&(2, ResponseMode::Escalate)).is_none());
    let total = ((0.0f64 + 0.9) + 0.1) + ((0.0f64 + 0.8) + 0.5);
    assert_eq!(mem.total_surprise.to_bits(), total.to_bits());

    // In two parts it comes to the same.
    let mut parts = RiffMemory::new();
    parts.learn(&s.rounds[..1]);
    parts.learn(&s.rounds[1..]);
    assert_eq!(parts.total_rounds, mem.total_rounds);
    assert_eq!(parts.total_surprise.to_bits(), mem.total_surprise.to_bits());
    assert_eq!(
        parts.predict_for(1, ResponseMode::Escalate).to_bits(),
        mem.predict_for(1, ResponseMode::Escalate).to_bits()
    );

    let copy = mem.clone();
    assert_eq!(copy.mode_stats.len(), 3);
    assert_eq!(copy.total_rounds, 2);
}

#[test]
fn better_records_score_higher() {
    let mut mem = RiffMemory::new();
    mem.mode_stats.insert((0, ResponseMode::Pivot), stats(10, 3.0, 2, 0));
    mem.mode_stats.insert((1, ResponseMode::Pivot), stats(10, 3.5, 4, 0));
    let low = float(mem.predict_for(0, ResponseMode::Pivot));
    let high = float(mem.predict_for(1, ResponseMode::Pivot));
    assert!(low < high);
    // Also where the surprise is negative.
    mem.mode_stats.insert((0, ResponseMode::Pivot), stats(10, -3.5, 2, 0));
    mem.mode_stats.insert((1, ResponseMode::Pivot), stats(10, -3.0, 2, 0));
    let low = float(mem.predict_for(0, ResponseMode::Pivot));
    let high = float(mem.predict_for(1, ResponseMode::Pivot));
    assert!(low < high);
}

#[test]
fn dictionary_entries() {
    let mut mem = RiffMemory::new();
    assert!(mem.spec_patterns.is_empty());
    assert!(mem.spec_patterns.insert("b".to_string(), num(1.0)).is_none());
    assert!(mem.spec_patterns.insert("a".to_string(), num(2.0)).is_none());
    let earlier = mem.spec_patterns.insert("b".to_string(), num(3.0));
    assert_eq!(float(earlier.unwrap()), 1.0);
    assert_eq!(mem.spec_patterns.len(), 2);
    assert_eq!(mem.spec_patterns.key_at(0), "b");
    assert_eq!(float(*mem.spec_patterns.value_at(0)), 3.0);
    assert_eq!(mem.spec_patterns.key_at(1), "a");
    assert!(mem.spec_patterns.contains_key(&"a".to_string()));
    assert!(!mem.spec_patterns.contains_key(&"c".to_string()));
}

#[test]
fn learning_leaves_what_was_tried() {
    let mut s = MultiSpecSession::new(vec![1, 2], vec![], 1);
    for (i, surprise) in [0.05, 0.9, 0.5, 0.15, 0.75].iter().enumerate() {
        s.new_round();
        s.riff(1, if i % 2 == 0 { Quality::Strong } else { Quality::Weak }, num(*surprise));
        s.riff(2, Quality::Okay, num(1.0 - surprise));
    }
    let mut mem = RiffMemory::new();
    mem.learn(&s.rounds);
    let mut uses = 0;
    for i in 0..mem.mode_stats.len() {
        let stats = mem.mode_stats.value_at(i);
        assert_ne!(mem.mode_stats.key_at(i).1, ResponseMode::Pivot);
        assert!(stats.total_uses >= 1);
        let rate = float(stats.success_rate());
        assert!((0.0..=1.0).contains(&rate));
        uses += stats.total_uses;
    }
    assert_eq!(uses, 10);
    let provoked = *mem.mode_stats.get(&(1, ResponseMode::Provoked)).unwrap();
    assert_eq!((provoked.total_uses, provoked.strong_count, provoked.weak_count), (2, 1, 1));
    assert_eq!(provoked.total_surprise.to_bits(), (0.0f64 + 0.05 + 0.15).to_bits());
}

#[test]
fn more_surprise_raises_complexity() {
    let scores = [f64::NEG_INFINITY, -2.0, 0.0, 0.1, 0.5, 0.9, 3.0, f64::INFINITY];
    for complexity in [f64::NEG_INFINITY, -1.0, 0.0, 0.4, 1.0, f64::INFINITY, f64::NAN] {
        let biased: Vec<f64> = scores
            .iter()
            .map(|d| {
                let list = SpecGenerator::bias(vec![candidate("c", complexity, 1)], num(*d));
                float(list[0].estimated_complexity)
            })
            .collect();
        for pair in biased.windows(2) {
            assert!(pair[0] <= pair[1], "{} {:?}", complexity, biased);
        }
    }
}
