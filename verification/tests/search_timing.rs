use hfq_rs::config::{get_config_value, parse_config, ConfigError};
use hfq_rs::flux::FlaxType;
use hfq_rs::search::{Adjust, Bound, MarginSearch, SearchError};
use hfq_rs::timing::{
    first_above, order_by_position, pair_timing_tables, shape_verdict, within_band, PairingError,
    ShapeVerdict,
};

/// Runs a search the way the margin finder does, with floating-point values.
fn run(bound: Bound, rounds: usize, init: f64, works: impl Fn(f64) -> bool) -> (f64, usize) {
    let mut s = MarginSearch::new(bound, rounds);
    let (mut value, mut delta) = match bound {
        Bound::Upper => (init * 2.0, init / 2.0),
        Bound::Lower => (init / 2.0, init / 4.0),
    };
    while !s.is_finished() {
        match s.record(works(value)).unwrap() {
            Adjust::Raise => {
                value += delta;
                delta /= 2.0;
            }
            Adjust::Lower => {
                value -= delta;
                delta /= 2.0;
            }
            Adjust::Keep => {}
        }
    }
    (value, s.probes())
}

#[test]
fn upper_search_exact_steps() {
    assert_eq!(run(Bound::Upper, 3, 1.0, |v| v <= 1.3), (1.375, 3));
}

#[test]
fn upper_search_passing_at_twice_stops() {
    assert_eq!(run(Bound::Upper, 8, 5.0, |_| true), (10.0, 1));
}

#[test]
fn lower_search_exact_steps() {
    // 0.5 fails -> 0.75, 0.75 passes -> 0.625
    assert_eq!(run(Bound::Lower, 2, 1.0, |v| v >= 0.6), (0.625, 2));
}

#[test]
fn searches_converge_on_the_threshold() {
    for rounds in [1usize, 4, 8, 12] {
        let scale = (1u64 << (rounds + 2)) as f64;
        for t in [1.01, 1.3, 1.5, 1.99] {
            let (max, probes) = run(Bound::Upper, rounds, 1.0, |v| v <= t);
            assert_eq!(probes, rounds);
            assert!((max - t).abs() <= 4.0 / scale, "max {} t {}", max, t);
            assert!(max > 1.0 && max < 2.0);
        }
        for t in [0.01, 0.37, 0.5, 0.99] {
            let (min, probes) = run(Bound::Lower, rounds, 1.0, |v| v >= t);
            assert_eq!(probes, rounds);
            assert!((min - t).abs() <= 2.0 / scale, "min {} t {}", min, t);
            assert!(min > 0.0 && min < 1.0);
        }
    }
}

#[test]
fn margin_never_narrows_when_more_values_pass() {
    for rounds in [1usize, 3, 6, 10] {
        let (max_strict, _) = run(Bound::Upper, rounds, 1.0, |v| v <= 1.3);
        let (max_loose, _) = run(Bound::Upper, rounds, 1.0, |v| v <= 1.5);
        assert!(max_strict <= max_loose, "rounds {}", rounds);
        let (min_strict, _) = run(Bound::Lower, rounds, 1.0, |v| v >= 0.6);
        let (min_loose, _) = run(Bound::Lower, rounds, 1.0, |v| v >= 0.4);
        assert!(min_strict >= min_loose, "rounds {}", rounds);
    }
    assert_eq!(run(Bound::Upper, 3, 1.0, |v| v <= 1.3).0, 1.375);
    assert_eq!(run(Bound::Upper, 3, 1.0, |v| v <= 1.6).0, 1.625);
}

#[test]
fn search_errors() {
    let mut s = MarginSearch::new(Bound::Upper, 0);
    assert_eq!(s.record(false), Err(SearchError::NoRounds));
    assert_eq!(s.probes(), 0);
    let mut s = MarginSearch::new(Bound::Lower, 0);
    assert!(s.is_finished());
    assert_eq!(s.record(true), Err(SearchError::Finished));
    let mut s = MarginSearch::new(Bound::Upper, 0);
    assert_eq!(s.record(true), Ok(Adjust::Keep));
    assert!(s.is_finished());
}

#[test]
fn first_above_finds_the_first_crossing() {
    let samples = vec![Some(3), None, Some(9), Some(5), Some(12)];
    assert_eq!(first_above(&samples, 4), Some(2));
    assert_eq!(first_above(&samples, 9), Some(4));
    assert_eq!(first_above(&samples, 12), None);
    assert_eq!(first_above(&vec![], 0), None);
}

#[test]
fn shape_verdicts() {
    assert_eq!(shape_verdict((3, 2), (3, 2)), ShapeVerdict::Compare);
    assert_eq!(shape_verdict((3, 2), (4, 2)), ShapeVerdict::Differ);
    assert_eq!(shape_verdict((3, 3), (3, 2)), ShapeVerdict::NotTimingTable);
}

fn strings(v: &[&str]) -> Vec<String> {
    v.iter().map(|s| s.to_string()).collect()
}

#[test]
fn order_is_a_stable_sort_by_position() {
    let labels = strings(&["B", "A", "Z", "A"]);
    let names = strings(&["A", "B"]);
    assert_eq!(order_by_position(&labels, &names), vec![2, 1, 3, 0]);
}

#[test]
fn pairing() {
    let d = strings(&["Q", "P"]);
    let t = strings(&["P", "Q"]);
    let names = strings(&["P", "Q"]);
    assert_eq!(pair_timing_tables(&d, &t, &names), Ok(vec![(1, 0), (0, 1)]));
    assert_eq!(pair_timing_tables(&d, &t, &strings(&["P"])), Err(PairingError::SizeMismatch));
}

#[test]
fn pairing_ignores_table_order() {
    let names = strings(&["P", "Q", "R"]);
    let paired = |d: &Vec<String>, t: &Vec<String>| -> Vec<(String, String)> {
        pair_timing_tables(d, t, &names)
            .unwrap()
            .into_iter()
            .map(|(i, j)| (d[i].clone(), t[j].clone()))
            .collect()
    };
    let expected: Vec<(String, String)> = ["P", "Q", "R"]
        .iter()
        .map(|n| (n.to_string(), n.to_string()))
        .collect();
    assert_eq!(paired(&strings(&["Q", "P", "R"]), &strings(&["R", "Q", "P"])), expected);
    assert_eq!(paired(&strings(&["R", "P", "Q"]), &strings(&["P", "R", "Q"])), expected);
    assert_eq!(paired(&strings(&["P", "Q", "R"]), &strings(&["P", "Q", "R"])), expected);
}

#[test]
fn config_values() {
    let v = parse_config("a = 1\n[b]\nc = 'x'\n").ok().unwrap();
    assert_eq!(get_config_value(&v, "a"), Some(&toml::Value::Integer(1)));
    assert!(get_config_value(&v, "zz").is_none());
    let b = get_config_value(&v, "b").unwrap();
    assert_eq!(get_config_value(b, "c"), Some(&toml::Value::String("x".to_string())));
    assert!(matches!(parse_config("a = "), Err(ConfigError::Syntax(_))));
}

#[test]
fn flux_default() {
    assert_eq!(FlaxType::default(), FlaxType::HFQ);
}

#[test]
fn band_checks() {
    let samples = vec![Some(5), None, Some(7)];
    assert!(within_band(&samples, 5, 7));
    assert!(!within_band(&samples, 6, 7));
    assert!(!within_band(&samples, 5, 6));
    assert!(within_band(&vec![None, None], 3, 2));
}
