use agent_riff_v3::{
    Binary64, BootstrapVerifier, GrowthRate, SessionMetrics, SnowballTracker, VerifyResult,
};

fn num(x: f64) -> Binary64 {
    Binary64::from_bits(x.to_bits())
}

fn float(x: Binary64) -> f64 {
    f64::from_bits(x.to_bits())
}

fn metrics(
    generation: u32,
    total_rounds: usize,
    productive_rounds: usize,
    total_loc: usize,
    total_tests: usize,
    total_features: usize,
    avg_surprise: f64,
    streak: u32,
) -> SessionMetrics {
    SessionMetrics {
        generation,
        total_rounds,
        productive_rounds,
        total_loc,
        total_tests,
        total_features,
        avg_surprise: num(avg_surprise),
        streak,
    }
}

fn growing_chain() -> Vec<SessionMetrics> {
    vec![
        metrics(1, 2, 1, 100, 5, 2, 0.3, 1),
        metrics(2, 3, 2, 300, 15, 6, 0.5, 2),
        metrics(3, 4, 3, 600, 30, 12, 0.7, 3),
    ]
}

#[test]
fn verifier_success() {
    let mut v = BootstrapVerifier::new();
    let result = v.verify(&metrics(1, 3, 2, 500, 20, 8, 0.6, 2));
    assert!(result.is_ok());
    assert!(result.compiles);
    assert!(result.tests_pass);
    assert_eq!(result.test_count, 20);
}

#[test]
fn verifier_failure_no_output() {
    let mut v = BootstrapVerifier::new();
    let result = v.verify(&metrics(1, 3, 0, 0, 0, 0, 0.1, 0));
    assert!(!result.is_ok());
}

#[test]
fn growth_check_across_generations() {
    let chain = growing_chain();
    let check = BootstrapVerifier::check_growth(&chain);
    assert!(check.growing);
    assert!(check.loc_deltas.iter().all(|&d| float(d) > 0.0));
    assert!(check.test_deltas.iter().all(|&d| float(d) > 0.0));
}

#[test]
fn snowball_tracker_growth() {
    let mut tracker = SnowballTracker::new();
    for m in growing_chain() {
        tracker.record(m);
    }
    assert!(tracker.is_growing());
    assert_eq!(tracker.generations.len(), 3);
    assert_eq!(tracker.growth_rates.len(), 2);
    assert!((float(tracker.growth_rates[0].loc_rate) - 3.0).abs() < 0.01);
    assert!((float(tracker.growth_rates[1].test_rate) - 2.0).abs() < 0.01);
    assert!(float(tracker.avg_growth_rate()) > 1.0);
}

#[test]
fn verdicts_name_the_first_thing_that_is_missing() {
    let mut v = BootstrapVerifier::new();
    let no_rounds = v.verify(&metrics(4, 0, 0, 0, 0, 0, 0.0, 0));
    assert_eq!(no_rounds.generation, 4);
    assert_eq!(no_rounds.test_failures, vec!["No rounds generated".to_string()]);
    assert!(no_rounds.compiles && !no_rounds.tests_pass);
    let no_loc = v.verify(&metrics(5, 1, 0, 0, 9, 0, 0.0, 0));
    assert_eq!(no_loc.test_failures, vec!["No LOC produced".to_string()]);
    let no_tests = v.verify(&metrics(6, 1, 0, 9, 0, 0, 0.0, 0));
    assert_eq!(no_tests.test_failures, vec!["No tests produced".to_string()]);
    assert_eq!(no_tests.test_count, 0);
    let fine = v.verify(&metrics(7, 1, 0, 1, 1, 0, 0.0, 0));
    assert!(fine.is_ok());
    assert!(fine.test_failures.is_empty() && fine.warnings.is_empty());
    assert_eq!(v.verified_generations.len(), 4);
    assert_eq!(v.verified_generations[1].test_failures, no_loc.test_failures);
    assert_eq!(v.verified_generations[3].generation, 7);
}

#[test]
fn chains_are_verified_one_by_one() {
    let mut v = BootstrapVerifier::new();
    v.verify(&metrics(1, 0, 0, 0, 0, 0, 0.0, 0));
    let chain = [metrics(2, 1, 1, 10, 2, 0, 0.1, 0), metrics(3, 1, 1, 5, 0, 0, 0.1, 0)];
    let results = v.verify_chain(&chain);
    assert_eq!(results.len(), 2);
    assert!(results[0].is_ok());
    assert!(!results[1].is_ok());
    assert_eq!(v.verified_generations.len(), 3);
    assert!(v.verify_chain(&[]).is_empty());
    assert_eq!(v.verified_generations.len(), 3);
}

#[test]
fn results_by_hand() {
    let ok = VerifyResult::success(2, 11);
    assert!(ok.is_ok());
    assert_eq!((ok.generation, ok.test_count), (2, 11));
    let failed = VerifyResult::failure(3, vec!["a".to_string(), "b".to_string()]);
    assert!(!failed.is_ok());
    assert!(failed.compiles);
    assert_eq!(failed.test_failures.len(), 2);
    let broken = VerifyResult::compile_failure(4, vec!["w".to_string()]);
    assert!(!broken.is_ok());
    assert!(!broken.compiles);
    assert_eq!(broken.warnings, vec!["w".to_string()]);
    let copy = broken.clone();
    assert_eq!(copy.warnings, broken.warnings);
    assert_eq!(copy.generation, 4);
}

#[test]
fn growth_check_on_the_edges() {
    let empty = BootstrapVerifier::check_growth(&[]);
    assert!(empty.growing && empty.loc_deltas.is_empty());
    let single = BootstrapVerifier::check_growth(&[metrics(1, 1, 1, 1, 1, 1, 0.1, 0)]);
    assert!(single.growing && single.surprise_deltas.is_empty());

    let chain = [metrics(1, 1, 1, 100, 9, 5, 0.5, 0), metrics(2, 1, 1, 100, 8, 2, 0.25, 0)];
    let check = BootstrapVerifier::check_growth(&chain);
    assert!(!check.growing);
    assert_eq!(float(check.loc_deltas[0]), 0.0);
    assert_eq!(float(check.test_deltas[0]), -1.0);
    assert_eq!(float(check.feature_deltas[0]), -3.0);
    assert_eq!(float(check.surprise_deltas[0]), -0.25);
}

#[test]
fn growth_check_and_tracker_say_the_same() {
    let mut chains = vec![growing_chain()];
    let mut shrinking = growing_chain();
    shrinking.reverse();
    chains.push(shrinking);
    // A generation without output, and counts that share a nearest number.
    chains.push(vec![metrics(1, 1, 0, 0, 0, 0, 0.0, 0), metrics(2, 1, 1, 7, 1, 0, 0.2, 0)]);
    chains.push(vec![
        metrics(1, 1, 0, (1 << 53) + 1, 3, 0, 0.0, 0),
        metrics(2, 1, 1, 1 << 53, 3, 0, 0.2, 0),
    ]);
    chains.push(vec![
        metrics(1, 1, 0, 1 << 53, 3, 0, 0.0, 0),
        metrics(2, 1, 1, (1 << 53) - 1, 3, 0, 0.2, 0),
    ]);
    let expected = [true, false, true, true, false];
    for (chain, &growing) in chains.iter().zip(expected.iter()) {
        let mut tracker = SnowballTracker::new();
        for m in chain {
            tracker.record(*m);
        }
        assert_eq!(tracker.is_growing(), growing);
        assert_eq!(BootstrapVerifier::check_growth(chain).growing, growing);
    }
}

#[test]
fn growth_rates_in_numbers() {
    let mut tracker = SnowballTracker::new();
    assert!(tracker.is_growing());
    assert_eq!(float(tracker.avg_growth_rate()), 0.0);
    tracker.record(metrics(1, 2, 1, 100, 0, 2, 0.25, 1));
    assert!(tracker.growth_rates.is_empty());
    tracker.record(metrics(2, 3, 2, 50, 15, 6, 0.75, 2));
    let g = tracker.growth_rates[0];
    assert_eq!((g.from_gen, g.to_gen), (1, 2));
    assert_eq!(float(g.loc_rate), 0.5);
    assert_eq!(float(g.test_rate), 1.0);
    assert_eq!(float(g.feature_rate), 3.0);
    assert_eq!(float(g.surprise_delta), 0.5);
    assert!(!tracker.is_growing());
    assert_eq!(float(tracker.avg_growth_rate()), (0.5 + 1.0 + 3.0) / 3.0);
    tracker.record(metrics(3, 3, 2, 170, 20, 7, 0.5, 2));
    let first = (0.5 + 1.0 + 3.0) / 3.0;
    let second = (170.0 / 50.0 + 20.0 / 15.0 + 7.0 / 6.0) / 3.0;
    let expected = [first, second].iter().sum::<f64>() / 2.0;
    assert_eq!(tracker.avg_growth_rate().to_bits(), expected.to_bits());
}

#[test]
fn average_of_negative_zeros() {
    let mut tracker = SnowballTracker::new();
    let zero = num(-0.0);
    tracker.growth_rates.push(GrowthRate {
        from_gen: 1,
        to_gen: 2,
        loc_rate: zero,
        test_rate: zero,
        feature_rate: zero,
        surprise_delta: zero,
    });
    let expected = [(-0.0f64 + -0.0 + -0.0) / 3.0].iter().sum::<f64>() / 1.0;
    assert_eq!(tracker.avg_growth_rate().to_bits(), expected.to_bits());
}

#[test]
fn growth_on_average() {
    let mut tracker = SnowballTracker::new();
    for n in [10usize, 10, 11, 11, 12, 13] {
        tracker.record(metrics(1, 1, 1, n, n, n, 0.5, 0));
    }
    assert!(tracker.is_growing());
    assert!(float(tracker.avg_growth_rate()) >= 1.0);

    let mut still = SnowballTracker::new();
    for _ in 0..7 {
        still.record(metrics(1, 1, 1, 3, 7, 11, 0.5, 0));
    }
    assert_eq!(float(still.avg_growth_rate()), 1.0);
}

#[test]
fn multiples_have_exact_rates() {
    let mut tracker = SnowballTracker::new();
    tracker.record(metrics(1, 1, 1, 3, 7, 49, 0.5, 0));
    tracker.record(metrics(2, 1, 1, 9, 35, 0, 0.5, 0));
    assert_eq!(float(tracker.growth_rates[0].loc_rate), 3.0);
    assert_eq!(float(tracker.growth_rates[0].test_rate), 5.0);
    assert_eq!(float(tracker.growth_rates[0].feature_rate), 0.0);
}

#[test]
fn chains_must_improve_or_maintain() {
    let less = vec!["Less output than the generation before".to_string()];
    let mut v = BootstrapVerifier::new();
    let results =
        v.verify_chain(&[metrics(1, 2, 1, 600, 30, 12, 0.7, 3), metrics(2, 2, 1, 100, 5, 2, 0.3, 1)]);
    assert!(results[0].is_ok());
    assert!(!results[1].is_ok());
    assert_eq!(results[1].generation, 2);
    assert_eq!(results[1].test_failures, less);
    assert_eq!(v.verified_generations.len(), 2);
    assert_eq!(v.verified_generations[1].test_failures, less);

    // Each of the three counts decides, and a failure does not stop the chain.
    let results = v.verify_chain(&[
        metrics(1, 1, 1, 10, 10, 10, 0.5, 0),
        metrics(2, 1, 1, 10, 10, 10, 0.1, 0),
        metrics(3, 1, 1, 9, 10, 10, 0.5, 0),
        metrics(4, 1, 1, 9, 9, 10, 0.5, 0),
        metrics(5, 1, 1, 9, 9, 9, 0.5, 0),
        metrics(6, 1, 1, 0, 9, 0, 0.5, 0),
        metrics(7, 1, 1, 1, 9, 0, 0.5, 0),
    ]);
    let accepted: Vec<bool> = results.iter().map(|r| r.is_ok()).collect();
    assert_eq!(accepted, vec![true, true, false, false, false, false, true]);
    for r in &results[2..5] {
        assert_eq!(r.test_failures, less);
    }
    assert_eq!(results[5].test_failures, vec!["No LOC produced".to_string()]);
    assert_eq!(results[6].test_count, 9);
    assert_eq!(v.verified_generations.len(), 9);
}

#[test]
fn lost_features_are_no_growth() {
    let chain = [metrics(1, 1, 1, 100, 5, 6, 0.5, 1), metrics(2, 1, 1, 200, 10, 2, 0.5, 2)];
    let check = BootstrapVerifier::check_growth(&chain);
    assert!(!check.growing);
    assert_eq!(check.feature_deltas.len(), 1);
    assert_eq!(float(check.feature_deltas[0]), -4.0);
    let mut tracker = SnowballTracker::new();
    for m in &chain {
        tracker.record(*m);
    }
    assert!(!tracker.is_growing());
}

#[test]
fn lost_surprise_is_reported_only() {
    let chain = [metrics(1, 1, 1, 100, 5, 6, 0.5, 1), metrics(2, 1, 1, 100, 5, 6, 0.25, 2)];
    let check = BootstrapVerifier::check_growth(&chain);
    assert!(check.growing);
    assert_eq!(float(check.surprise_deltas[0]), -0.25);
    let mut v = BootstrapVerifier::new();
    assert!(v.verify_chain(&chain).iter().all(|r| r.is_ok()));
    let mut tracker = SnowballTracker::new();
    for m in &chain {
        tracker.record(*m);
    }
    assert!(tracker.is_growing());
}
