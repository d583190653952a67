use agent_riff_v3::{
    Binary64, BootstrapVerifier, MultiSpecSession, Quality, ResponseMode, Riff, RiffSpec,
    SnowballTracker,
};

fn num(x: f64) -> Binary64 {
    Binary64::from_bits(x.to_bits())
}

fn float(x: Binary64) -> f64 {
    f64::from_bits(x.to_bits())
}

fn spec(id: &str, name: &str, domain: &str) -> RiffSpec {
    RiffSpec { id: id.into(), name: name.into(), domain: domain.into() }
}

#[test]
fn riff_productivity() {
    let mut r = Riff::new(0, 1, Quality::Strong, num(0.8));
    r.loc = 200;
    r.tests = 15;
    r.features = vec!["gpu-packing".to_string()];
    assert!(float(r.productivity()) > 0.0);
    assert_eq!(r.features.len(), 1);
}

#[test]
fn response_mode_auto() {
    assert_eq!(ResponseMode::auto(num(0.1), 0, 3), ResponseMode::Provoked);
    assert_eq!(ResponseMode::auto(num(0.8), 0, 3), ResponseMode::Escalate);
    assert_eq!(ResponseMode::auto(num(0.5), 6, 3), ResponseMode::Pivot);
    assert_eq!(ResponseMode::auto(num(0.5), 0, 9), ResponseMode::Invert);
}

#[test]
fn fleet_session_basic() {
    let mut s = MultiSpecSession::new(vec![0, 1], vec![], 1);
    s.new_round();
    s.riff_with_output(0, Quality::Okay, num(0.3), 100, 8, vec!["baseline"]);
    s.riff_with_output(1, Quality::Strong, num(0.7), 300, 20, vec!["gpu-packing", "entropy"]);
    let summary = s.evaluate();
    assert!(summary.productive);
    assert!(float(summary.best_productivity) > 0.0);
}

#[test]
fn stale_detection() {
    let mut s = MultiSpecSession::new(vec![0, 1], vec![], 1);
    for _ in 0..6 {
        s.new_round();
        s.riff(0, Quality::Weak, num(0.05));
        s.riff(1, Quality::Weak, num(0.05));
        s.evaluate();
    }
    assert!(s.finished);
}

#[test]
fn landing_detection() {
    let mut s = MultiSpecSession::new(vec![0, 1], vec![], 1);
    s.new_round();
    s.riff(0, Quality::Strong, num(0.9));
    s.riff(1, Quality::Strong, num(0.85));
    let summary = s.evaluate();
    assert!(summary.landed);
}

#[test]
fn multi_spec_session_basic() {
    let specs = vec![
        spec("ternary-core", "Core Types", "ternary"),
        spec("ternary-gpu", "GPU Kernels", "ternary"),
    ];
    let mut s = MultiSpecSession::new(vec![0, 1], specs, 1);
    s.new_round();
    s.riff_for_spec(0, "ternary-core", Quality::Okay, num(0.4), 100, 5, vec!["packing"]);
    s.riff_for_spec(1, "ternary-gpu", Quality::Strong, num(0.7), 200, 12, vec!["kernel"]);
    let summary = s.evaluate();
    assert!(summary.productive);
    assert!(s.cross_spec_patterns.contains_key(&"ternary-core".to_string()));
    assert!(s.cross_spec_patterns.contains_key(&"ternary-gpu".to_string()));
}

#[test]
fn cross_spec_pattern_sharing() {
    let specs = vec![spec("spec-a", "A", "test"), spec("spec-b", "B", "test")];
    let mut s = MultiSpecSession::new(vec![0], specs, 1);
    s.new_round();
    s.riff_for_spec(0, "spec-a", Quality::Strong, num(0.6), 100, 5, vec!["alpha"]);
    s.evaluate();
    s.new_round();
    s.riff_for_spec(0, "spec-b", Quality::Okay, num(0.4), 80, 4, vec!["beta"]);
    let round = s.rounds.last().unwrap();
    let riff = round.riffs.last().unwrap();
    assert!(riff.features.contains(&"alpha".to_string()));
}

#[test]
fn three_generation_bootstrap_chain() {
    let specs = vec![
        spec("ternary-core", "Core", "ternary"),
        spec("ternary-gpu", "GPU", "ternary"),
    ];

    let mut gen1 = MultiSpecSession::new(vec![0, 1], specs.clone(), 1);
    gen1.new_round();
    gen1.riff_for_spec(0, "ternary-core", Quality::Okay, num(0.3), 100, 5, vec!["basic-packing"]);
    gen1.riff_for_spec(1, "ternary-gpu", Quality::Strong, num(0.6), 200, 12, vec!["kernel-launch"]);
    gen1.evaluate();
    gen1.memory.learn(&gen1.rounds);
    let gen1_metrics = gen1.metrics();
    gen1.memory.record_generation(gen1_metrics.clone());

    let mut gen2 = gen1.bootstrap_next();
    assert_eq!(gen2.generation, 2);
    assert_eq!(gen2.memory.total_rounds, 1);
    assert!(!gen2.cross_spec_patterns.is_empty());

    gen2.new_round();
    gen2.riff_for_spec(0, "ternary-core", Quality::Strong, num(0.7), 300, 18, vec!["fast-pack"]);
    gen2.riff_for_spec(1, "ternary-gpu", Quality::Strong, num(0.8), 450, 28, vec!["cuda-ops"]);
    let gen2_summary = gen2.evaluate();
    assert!(gen2_summary.productive);
    gen2.memory.learn(&gen2.rounds);
    let gen2_metrics = gen2.metrics();
    gen2.memory.record_generation(gen2_metrics.clone());

    let (_best_agent, _mode, predicted) = gen2.memory.predict_best(&[0, 1]);
    assert!(float(predicted) > 0.0);

    let mut gen3 = gen2.bootstrap_next();
    assert_eq!(gen3.generation, 3);
    assert_eq!(gen3.memory.total_rounds, 2);
    assert_eq!(gen3.memory.generation_history.len(), 2);

    gen3.new_round();
    gen3.riff_for_spec(0, "ternary-core", Quality::Strong, num(0.85), 500, 35, vec!["simd-pack"]);
    gen3.riff_for_spec(1, "ternary-gpu", Quality::Strong, num(0.9), 700, 50, vec!["wmma-kernels"]);
    let gen3_summary = gen3.evaluate();
    assert!(gen3_summary.landed);
    gen3.memory.learn(&gen3.rounds);
    let gen3_metrics = gen3.metrics();
    gen3.memory.record_generation(gen3_metrics.clone());

    let mut verifier = BootstrapVerifier::new();
    let results = verifier.verify_chain(&[
        gen1_metrics.clone(),
        gen2_metrics.clone(),
        gen3_metrics.clone(),
    ]);
    assert!(results.iter().all(|r| r.is_ok()));

    let growth = BootstrapVerifier::check_growth(&[
        gen1_metrics.clone(),
        gen2_metrics.clone(),
        gen3_metrics.clone(),
    ]);
    assert!(growth.growing);
    assert!(growth.loc_deltas.iter().all(|&d| float(d) > 0.0));
    assert!(growth.test_deltas.iter().all(|&d| float(d) > 0.0));
    assert!(growth.surprise_deltas.iter().all(|&d| float(d) > 0.0));

    let mut tracker = SnowballTracker::new();
    tracker.record(gen1_metrics);
    tracker.record(gen2_metrics);
    tracker.record(gen3_metrics);
    assert!(tracker.is_growing());
    assert!(float(tracker.avg_growth_rate()) > 1.0);
}

fn names(list: &[&str]) -> Vec<String> {
    list.iter().map(|s| s.to_string()).collect()
}

#[test]
fn productivity_in_numbers() {
    let mut r = Riff::new(0, 1, Quality::Strong, num(0.8));
    assert_eq!(float(r.productivity()), 0.0);
    r.with_output(200, 15, vec!["a", "b"]);
    assert_eq!(r.features, names(&["a", "b"]));
    assert_eq!(r.productivity().to_bits(), (200.0f64 * 15.0 * 2.0 * (0.5 + 0.8)).to_bits());
    r.quality = Quality::Weak;
    assert_eq!(r.productivity().to_bits(), (200.0f64 * 15.0 * 0.5 * (0.5 + 0.8)).to_bits());
    r.quality = Quality::Okay;
    assert_eq!(r.productivity().to_bits(), (200.0f64 * 15.0 * 1.0 * (0.5 + 0.8)).to_bits());
}

#[test]
fn qualities_as_numbers() {
    assert_eq!(Quality::Weak.to_i8(), -1);
    assert_eq!(Quality::Okay.to_i8(), 0);
    assert_eq!(Quality::Strong.to_i8(), 1);
}

#[test]
fn modes_at_their_limits() {
    assert_eq!(ResponseMode::auto(num(0.2), 0, 0), ResponseMode::Invert);
    assert_eq!(ResponseMode::auto(num(0.7), 0, 0), ResponseMode::Invert);
    assert_eq!(ResponseMode::auto(num(0.19999999), 5, 0), ResponseMode::Provoked);
    assert_eq!(ResponseMode::auto(num(0.70000001), 5, 99), ResponseMode::Escalate);
    assert_eq!(ResponseMode::auto(num(f64::NAN), 5, 0), ResponseMode::Invert);
    assert_eq!(ResponseMode::auto(num(f64::NAN), 6, 0), ResponseMode::Pivot);
    assert_eq!(ResponseMode::auto(num(f64::NEG_INFINITY), 0, 0), ResponseMode::Provoked);
}

#[test]
fn rounds_keep_their_standing() {
    let mut s = MultiSpecSession::new(vec![0, 1, 2], vec![], 1);
    {
        let round = s.new_round();
        assert_eq!((round.number, round.best_agent, round.quality_gap), (0, 0, 0));
        assert!(!round.was_productive());
    }
    s.riff(4, Quality::Okay, num(0.1));
    assert_eq!(s.rounds[0].best_agent, 4);
    s.riff(5, Quality::Weak, num(0.1));
    assert_eq!((s.rounds[0].best_agent, s.rounds[0].quality_gap), (4, 1));
    // Of equally good riffs the last one leads.
    s.riff(6, Quality::Okay, num(0.05));
    assert_eq!((s.rounds[0].best_agent, s.rounds[0].quality_gap), (6, 1));
    s.riff(7, Quality::Strong, num(0.0));
    assert_eq!((s.rounds[0].best_agent, s.rounds[0].quality_gap), (7, 2));
    assert_eq!(s.rounds[0].surprise_sum.to_bits(), (0.0f64 + 0.1 + 0.1 + 0.05 + 0.0).to_bits());
    assert!(s.rounds[0].was_productive());
    assert_eq!(s.rounds[0].riffs[3].round, 0);
}

#[test]
fn riffs_without_a_round_are_lost() {
    let mut s = MultiSpecSession::new(vec![0], vec![], 1);
    s.riff(0, Quality::Strong, num(0.9));
    assert!(s.rounds.is_empty());
    s.riff_for_spec(0, "a", Quality::Strong, num(0.9), 1, 1, vec!["p"]);
    assert!(s.rounds.is_empty());
    // What it found is kept all the same.
    assert_eq!(*s.cross_spec_patterns.get(&"a".to_string()).unwrap(), names(&["p"]));
    let summary = s.evaluate();
    assert_eq!(float(summary.surprise), 0.0);
    assert!(!summary.productive && !summary.landed);
    assert_eq!(summary.mode, ResponseMode::Escalate);
    assert_eq!(float(summary.best_productivity), 0.0);
    assert_eq!(s.streak, 0);
}

#[test]
fn evaluation_in_numbers() {
    let mut s = MultiSpecSession::new(vec![0, 1], vec![], 1);
    s.new_round();
    s.riff_with_output(0, Quality::Okay, num(0.3), 100, 8, vec!["baseline"]);
    s.riff_with_output(1, Quality::Strong, num(0.7), 300, 20, vec!["gpu-packing", "entropy"]);
    let summary = s.evaluate();
    assert_eq!(summary.surprise.to_bits(), (0.0f64 + 0.3 + 0.7).to_bits());
    assert!(summary.landed);
    assert_eq!(summary.mode, ResponseMode::Escalate);
    assert_eq!(
        summary.best_productivity.to_bits(),
        (300.0f64 * 20.0 * 2.0 * (0.5 + 0.7)).to_bits()
    );
    assert_eq!(s.streak, 1);
    for _ in 0..5 {
        s.evaluate();
    }
    assert_eq!(s.streak, 6);
    assert_eq!(s.mode, ResponseMode::Pivot);
    assert!(!s.finished);
}

#[test]
fn dull_rounds_break_the_streak() {
    let mut s = MultiSpecSession::new(vec![0], vec![], 1);
    s.new_round();
    s.riff(0, Quality::Strong, num(0.31));
    assert!(s.evaluate().productive);
    assert_eq!(s.streak, 1);
    s.new_round();
    s.riff(0, Quality::Strong, num(0.3));
    let summary = s.evaluate();
    assert!(!summary.productive && !summary.landed);
    assert_eq!(summary.mode, ResponseMode::Invert);
    assert_eq!(s.streak, 0);
    assert!(!s.finished);
}

#[test]
fn staleness_is_remembered() {
    let mut s = MultiSpecSession::new(vec![0], vec![], 1);
    for i in 0..5 {
        s.new_round();
        s.evaluate();
        assert!(!s.finished, "{}", i);
    }
    s.new_round();
    s.evaluate();
    assert!(s.finished);
    s.new_round();
    s.riff(0, Quality::Strong, num(0.9));
    assert!(s.evaluate().landed);
    assert!(s.finished);
}

#[test]
fn patterns_travel_both_ways() {
    let mut s = MultiSpecSession::new(vec![0, 1], vec![], 1);
    s.new_round();
    s.riff_for_spec(0, "core", Quality::Okay, num(0.4), 1, 1, vec!["fast-packing"]);
    s.riff_for_spec(1, "gpu", Quality::Okay, num(0.4), 1, 1, vec!["kernel-launch"]);
    s.riff_for_spec(0, "core", Quality::Okay, num(0.4), 1, 1, vec!["x", "x", "kernel-launch"]);
    let riffs = &s.rounds[0].riffs;
    assert_eq!(riffs[0].features, names(&["fast-packing"]));
    assert_eq!(riffs[1].features, names(&["kernel-launch", "fast-packing"]));
    // A riff's own features stay as they were given.
    assert_eq!(riffs[2].features, names(&["x", "x", "kernel-launch", "fast-packing"]));
    assert_eq!(riffs[2].spec_id, Some("core".to_string()));
    assert_eq!(
        *s.cross_spec_patterns.get(&"core".to_string()).unwrap(),
        names(&["fast-packing", "x", "kernel-launch"])
    );
    assert_eq!(
        *s.cross_spec_patterns.get(&"gpu".to_string()).unwrap(),
        names(&["kernel-launch", "fast-packing"])
    );
}

#[test]
fn metrics_in_numbers() {
    let mut s = MultiSpecSession::new(vec![0, 1], vec![], 7);
    let empty = s.metrics();
    assert_eq!((empty.generation, empty.total_rounds, empty.total_loc), (7, 0, 0));
    assert_eq!(empty.avg_surprise.to_bits(), 0.0f64.to_bits());
    s.new_round();
    s.riff_with_output(0, Quality::Okay, num(0.1), 100, 8, vec!["a"]);
    s.riff_with_output(1, Quality::Okay, num(0.7), 300, 20, vec!["b", "c"]);
    s.evaluate();
    s.new_round();
    s.riff_with_output(0, Quality::Okay, num(0.05), 11, 3, vec![]);
    let m = s.metrics();
    assert_eq!((m.total_rounds, m.productive_rounds), (2, 1));
    assert_eq!((m.total_loc, m.total_tests, m.total_features), (411, 31, 3));
    assert_eq!(m.streak, 1);
    let sums = [0.0f64 + 0.1 + 0.7, 0.0 + 0.05];
    assert_eq!(m.avg_surprise.to_bits(), (sums.iter().sum::<f64>() / 2.0).to_bits());
    // A sum of negative zeros stays negative.
    s.rounds[0].surprise_sum = num(-0.0);
    s.rounds[1].surprise_sum = num(-0.0);
    let sums = [-0.0f64, -0.0];
    assert_eq!(
        s.metrics().avg_surprise.to_bits(),
        (sums.iter().sum::<f64>() / 2.0).to_bits()
    );
}

#[test]
fn next_generations_inherit() {
    let mut s = MultiSpecSession::new(vec![3, 9], vec![spec("a", "A", "d")], 4294967294);
    s.new_round();
    s.riff_for_spec(3, "a", Quality::Strong, num(0.9), 1, 1, vec!["p"]);
    s.evaluate();
    s.memory.learn(&s.rounds);
    s.memory.best_modes.insert(3, ResponseMode::Pivot);
    s.memory.spec_patterns.insert("d".to_string(), num(0.25));
    let next = s.bootstrap_next();
    assert_eq!(next.generation, 4294967295);
    assert_eq!(next.parent_session_id, Some("gen-4294967294".to_string()));
    assert_eq!(next.agents, vec![3, 9]);
    assert_eq!(next.specs[0].name, "A");
    assert!(next.rounds.is_empty());
    assert_eq!((next.current_round, next.streak, next.finished), (0, 0, false));
    assert_eq!(next.mode, ResponseMode::Escalate);
    assert_eq!(next.memory.recommend_mode(3), ResponseMode::Pivot);
    assert_eq!(
        next.memory.predict_for(3, ResponseMode::Escalate).to_bits(),
        s.memory.predict_for(3, ResponseMode::Escalate).to_bits()
    );
    assert_eq!(float(*next.memory.spec_patterns.get(&"d".to_string()).unwrap()), 0.25);
    assert_eq!(*next.cross_spec_patterns.get(&"a".to_string()).unwrap(), names(&["p"]));

    let first = MultiSpecSession::new(vec![], vec![], 0).bootstrap_next();
    assert_eq!(first.parent_session_id, Some("gen-0".to_string()));
    let tenth = MultiSpecSession::new(vec![], vec![], 10).bootstrap_next();
    assert_eq!(tenth.parent_session_id, Some("gen-10".to_string()));
}

#[test]
fn evaluation_shares_patterns() {
    let known = |s: &MultiSpecSession, id: &str| {
        s.cross_spec_patterns.get(&id.to_string()).unwrap().clone()
    };
    let mut s = MultiSpecSession::new(vec![0, 1], vec![], 1);
    s.new_round();
    s.riff_for_spec(0, "ternary-core", Quality::Okay, num(0.4), 100, 5, vec!["packing"]);
    s.riff_for_spec(1, "ternary-gpu", Quality::Strong, num(0.7), 200, 12, vec!["kernel"]);
    assert_eq!(known(&s, "ternary-core"), names(&["packing"]));
    assert!(s.evaluate().productive);
    assert_eq!(s.cross_spec_patterns.len(), 2);
    assert_eq!(known(&s, "ternary-core"), names(&["packing", "kernel"]));
    assert_eq!(known(&s, "ternary-gpu"), names(&["kernel", "packing"]));

    // What is taken over comes spec by spec in the order of the specs.
    s.riff_for_spec(0, "docs", Quality::Okay, num(0.1), 1, 1, vec!["guide"]);
    s.riff_for_spec(0, "ternary-gpu", Quality::Okay, num(0.1), 1, 1, vec!["warp"]);
    s.evaluate();
    assert_eq!(
        known(&s, "ternary-core"),
        names(&["packing", "kernel", "warp", "guide"])
    );
    assert_eq!(known(&s, "docs"), names(&["guide", "packing", "kernel", "warp"]));
    assert_eq!(s.cross_spec_patterns.key_at(2), "docs");

    // Nothing is left to share.
    let before = known(&s, "docs");
    s.evaluate();
    assert_eq!(known(&s, "docs"), before);
}

#[test]
fn evaluation_without_rounds_shares_nothing() {
    let mut s = MultiSpecSession::new(vec![0], vec![], 1);
    s.riff_for_spec(0, "a", Quality::Okay, num(0.4), 1, 1, vec!["x"]);
    s.riff_for_spec(0, "b", Quality::Okay, num(0.4), 1, 1, vec!["y"]);
    s.evaluate();
    assert_eq!(*s.cross_spec_patterns.get(&"a".to_string()).unwrap(), names(&["x"]));
}
