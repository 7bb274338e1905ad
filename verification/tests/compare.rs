use eventflow::compare::checks;
use eventflow::compare::kind_text;
use eventflow::compare::message;
use eventflow::compare::run;
use eventflow::compare::run_with;
use eventflow::compare::Check;
use eventflow::compare::Mismatch;
use eventflow::compare::Summary;
use eventflow::compare::Verdict;
use eventflow::trace::read_trace;
use eventflow::trace::Trace;

fn trace(all: &[&str]) -> Trace {
    read_trace(&all.iter().map(|s| s.to_string()).collect())
}

/// Judges a check as a caller with floating point does.
fn judge(check: &Check, tol_time: f64, tol_val: f64) -> Verdict {
    match check {
        Check::Time { gold_time, test_time } => {
            let Ok(g) = gold_time.parse::<f64>() else {
                return Verdict::GoldUnreadable;
            };
            let Some(Ok(t)) = test_time.as_ref().map(|s| s.parse::<f64>()) else {
                return Verdict::TestUnreadable;
            };
            if (g - t).abs() > tol_time {
                Verdict::Exceeds
            } else {
                Verdict::Within
            }
        }
        Check::Value { gold_number, test_number, .. } => {
            let g = gold_number.parse::<f64>().unwrap_or(f64::NAN);
            let t = test_number.parse::<f64>().unwrap_or(f64::NAN);
            if g.is_finite() && t.is_finite() && (g - t).abs() > tol_val {
                Verdict::Exceeds
            } else {
                Verdict::Within
            }
        }
    }
}

fn compare(gold: &Trace, test: &Trace, tol_time: f64, tol_val: f64) -> Result<Summary, Mismatch> {
    let verdicts: Vec<Vec<Verdict>> = checks(gold, test)
        .iter()
        .map(|pair| pair.iter().map(|c| judge(c, tol_time, tol_val)).collect())
        .collect();
    if gold.events.len() == test.events.len() {
        assert_eq!(verdicts.len(), gold.events.len());
    }
    let outcome = run(gold, test, &verdicts);
    // Asking the judge directly comes to the same.
    assert_eq!(run_with(gold, test, |c| judge(c, tol_time, tol_val)), outcome);
    outcome
}

#[test]
fn comparator_tolerance_boundary() {
    let gold = trace(&["{\"type\":\"event\",\"t_s\":1.000000,\"payload\":{\"v\":10.0}}"]);
    let test = trace(&["{\"type\":\"event\",\"t_s\":1.000001,\"payload\":{\"v\":10.00005}}"]);
    assert_eq!(
        compare(&gold, &test, 1e-6, 1e-4),
        Ok(Summary { events: 1, meta_gold: 0, meta_test: 0 })
    );
    // Tighter tolerances tell the two apart.
    assert_eq!(compare(&gold, &test, 1e-7, 1e-4), Err(Mismatch::Time { index: 0 }));
    assert_eq!(compare(&gold, &test, 1e-6, 1e-5), Err(Mismatch::Payload { index: 0, check: 1 }));
}

#[test]
fn comparator_length_mismatch() {
    let e = "{\"type\":\"event\",\"t_s\":1}";
    let gold = trace(&[e, e, e, e, e]);
    let test = trace(&[e, e, e, e]);
    assert_eq!(compare(&gold, &test, 0.0, 0.0), Err(Mismatch::Length { gold: 5, test: 4 }));
    assert_eq!(
        message(&Mismatch::Length { gold: 5, test: 4 }, &gold, &test),
        Some("Event length mismatch: gold=5 test=4".to_string())
    );
    assert_eq!(compare(&test, &gold, 0.0, 0.0), Err(Mismatch::Length { gold: 4, test: 5 }));
}

#[test]
fn comparator_counts_events_and_meta_records() {
    let gold = trace(&[
        "{\"type\":\"meta\",\"a\":1}",
        "{\"type\":\"event\",\"t_s\":1}",
        "{\"type\":\"deliver\",\"t_s\":2}",
        "{\"type\":\"meta\",\"a\":2}",
    ]);
    let test = trace(&[
        "{\"type\":\"event\",\"t_s\":1}",
        "{\"type\":\"meta\",\"a\":1}",
        "{\"type\":\"deliver\",\"t_s\":2}",
    ]);
    assert_eq!(
        compare(&gold, &test, 0.0, 0.0),
        Ok(Summary { events: 2, meta_gold: 2, meta_test: 1 })
    );
}

#[test]
fn comparator_reports_the_first_disagreement() {
    let gold = trace(&[
        "{\"type\":\"event\",\"t_s\":1}",
        "{\"type\":\"event\",\"t_s\":2}",
        "{\"type\":\"event\",\"t_s\":3}",
    ]);
    let test = trace(&[
        "{\"type\":\"event\",\"t_s\":1}",
        "{\"type\":\"deliver\",\"t_s\":9}",
        "{\"type\":\"event\",\"t_s\":9}",
    ]);
    // At index 1 the types differ; that the times differ too comes second.
    assert_eq!(compare(&gold, &test, 0.5, 0.5), Err(Mismatch::Kind { index: 1 }));
    let test = trace(&[
        "{\"type\":\"event\",\"t_s\":1}",
        "{\"type\":\"event\",\"t_s\":2}",
        "{\"type\":\"event\",\"t_s\":3.75}",
    ]);
    assert_eq!(compare(&gold, &test, 0.5, 0.5), Err(Mismatch::Time { index: 2 }));
    assert_eq!(compare(&gold, &test, 0.75, 0.5), Ok(Summary { events: 3, meta_gold: 0, meta_test: 0 }));
}

#[test]
fn comparator_reads_times_from_numbers_and_strings() {
    let gold = trace(&["{\"type\":\"event\",\"t_s\":\"1.5\"}"]);
    let test = trace(&["{\"type\":\"event\",\"t_s\":1.5}"]);
    assert_eq!(compare(&gold, &test, 0.0, 0.0), Ok(Summary { events: 1, meta_gold: 0, meta_test: 0 }));
    assert_eq!(compare(&test, &gold, 0.0, 0.0), Ok(Summary { events: 1, meta_gold: 0, meta_test: 0 }));
}

#[test]
fn comparator_needs_a_time_on_both_sides() {
    let with = "{\"type\":\"event\",\"t_s\":1}";
    let without = "{\"type\":\"event\",\"ts\":1}";
    let word = "{\"type\":\"event\",\"t_s\":\"soon\"}";
    let flag = "{\"type\":\"event\",\"t_s\":true}";
    let missing_gold = Err(Mismatch::MissingTime { index: 0, in_gold: true });
    let missing_test = Err(Mismatch::MissingTime { index: 0, in_gold: false });
    assert_eq!(compare(&trace(&[without]), &trace(&[with]), 1.0, 1.0), missing_gold);
    assert_eq!(compare(&trace(&[with]), &trace(&[without]), 1.0, 1.0), missing_test);
    assert_eq!(compare(&trace(&[without]), &trace(&[without]), 1.0, 1.0), missing_gold);
    assert_eq!(compare(&trace(&[word]), &trace(&[with]), 1.0, 1.0), missing_gold);
    assert_eq!(compare(&trace(&[with]), &trace(&[word]), 1.0, 1.0), missing_test);
    assert_eq!(compare(&trace(&[flag]), &trace(&[with]), 1.0, 1.0), missing_gold);
    assert_eq!(compare(&trace(&[with]), &trace(&[flag]), 1.0, 1.0), missing_test);
    // A gold time that is no number is found before a test time that is missing.
    assert_eq!(compare(&trace(&[word]), &trace(&[without]), 1.0, 1.0), missing_gold);
    assert_eq!(compare(&trace(&[word]), &trace(&[word]), 1.0, 1.0), missing_gold);
}

#[test]
fn comparator_compares_numbers_under_shared_keys_only() {
    let gold = trace(&[
        "{\"type\":\"event\",\"t_s\":1,\"payload\":{\"a\":1,\"b\":\"x\",\"c\":5,\"d\":7}}",
    ]);
    let test = trace(&[
        "{\"type\":\"event\",\"t_s\":1,\"payload\":{\"a\":1.25,\"b\":2,\"c\":\"y\",\"e\":9}}",
    ]);
    let listed = checks(&gold, &test);
    assert_eq!(
        listed,
        vec![vec![
            Check::Time { gold_time: "1".to_string(), test_time: Some("1".to_string()) },
            Check::Value {
                key: "a".to_string(),
                gold_number: "1".to_string(),
                test_number: "1.25".to_string()
            },
        ]]
    );
    assert_eq!(compare(&gold, &test, 0.0, 0.25), Ok(Summary { events: 1, meta_gold: 0, meta_test: 0 }));
    assert_eq!(compare(&gold, &test, 0.0, 0.2), Err(Mismatch::Payload { index: 0, check: 1 }));
}

#[test]
fn comparator_ignores_a_missing_payload() {
    let with = trace(&["{\"type\":\"event\",\"t_s\":1,\"payload\":{\"a\":1}}"]);
    let without = trace(&["{\"type\":\"event\",\"t_s\":1}"]);
    let other = trace(&["{\"type\":\"event\",\"t_s\":1,\"payload\":[1,2]}"]);
    let ok = Ok(Summary { events: 1, meta_gold: 0, meta_test: 0 });
    assert_eq!(compare(&with, &without, 0.0, 0.0), ok);
    assert_eq!(compare(&without, &with, 0.0, 0.0), ok);
    assert_eq!(compare(&with, &other, 0.0, 0.0), ok);
}

#[test]
fn comparator_lists_checks_for_paired_events_only() {
    let e = "{\"type\":\"event\",\"t_s\":1}";
    let gold = trace(&[e, e, e]);
    let test = trace(&[e]);
    assert_eq!(checks(&gold, &test).len(), 1);
    assert_eq!(checks(&test, &gold).len(), 1);
    assert_eq!(checks(&trace(&[]), &gold).len(), 0);
    // An event without a time calls for no check on the times.
    let without = trace(&["{\"type\":\"event\"}"]);
    assert_eq!(checks(&without, &test), vec![Vec::<Check>::new()]);
    assert_eq!(
        checks(&test, &without),
        vec![vec![Check::Time { gold_time: "1".to_string(), test_time: None }]]
    );
}

#[test]
fn comparator_is_symmetric() {
    let a = [
        "{\"type\":\"event\",\"t_s\":1,\"payload\":{\"v\":1,\"w\":2}}",
        "{\"type\":\"deliver\",\"t_s\":2.5,\"payload\":{\"v\":3}}",
    ];
    let b = [
        "{\"type\":\"event\",\"t_s\":1.25,\"payload\":{\"w\":2.5,\"v\":1}}",
        "{\"type\":\"deliver\",\"t_s\":2.5}",
    ];
    for (tol_time, tol_val) in [(0.0, 0.0), (0.25, 0.0), (0.0, 0.5), (0.25, 0.5), (1.0, 1.0)] {
        let forth = compare(&trace(&a), &trace(&b), tol_time, tol_val);
        let back = compare(&trace(&b), &trace(&a), tol_time, tol_val);
        assert_eq!(forth.is_ok(), back.is_ok());
        assert_eq!(forth.is_ok(), tol_time >= 0.25 && tol_val >= 0.5);
    }
}

#[test]
fn comparator_accepts_a_trace_against_itself() {
    let all = [
        "{\"type\":\"header\",\"header\":{}}",
        "{\"type\":\"event\",\"t_s\":0.1,\"payload\":{\"v\":1e-3,\"name\":\"n\"}}",
        "{\"type\":\"meta\"}",
        "{\"type\":\"deliver\",\"t_s\":\"7\",\"payload\":{\"v\":-2}}",
    ];
    assert_eq!(
        compare(&trace(&all), &trace(&all), 0.0, 0.0),
        Ok(Summary { events: 2, meta_gold: 1, meta_test: 1 })
    );
}

#[test]
fn comparator_accepts_empty_traces() {
    assert_eq!(
        compare(&trace(&[]), &trace(&[]), 0.0, 0.0),
        Ok(Summary { events: 0, meta_gold: 0, meta_test: 0 })
    );
}

#[test]
fn comparator_puts_disagreements_into_words() {
    let gold = trace(&[
        "{\"type\":\"event\",\"t_s\":1}",
        "{\"type\":\"deliver\",\"t_s\":1}",
    ]);
    let test = trace(&[
        "{\"type\":\"event\",\"t_s\":1}",
        "{\"type\":\"event\",\"t_s\":1}",
    ]);
    assert_eq!(
        message(&Mismatch::Kind { index: 1 }, &gold, &test),
        Some("Mismatch at idx=1: kind gold='deliver' test='event'".to_string())
    );
    assert_eq!(
        message(&Mismatch::Kind { index: 12 }, &gold, &test),
        Some("Mismatch at idx=12: kind gold='?' test='?'".to_string())
    );
    assert_eq!(
        message(&Mismatch::MissingTime { index: 0, in_gold: true }, &gold, &test),
        Some("Missing/invalid t_s in gold at idx=0".to_string())
    );
    assert_eq!(
        message(&Mismatch::MissingTime { index: 30, in_gold: false }, &gold, &test),
        Some("Missing/invalid t_s in test at idx=30".to_string())
    );
    // A disagreement in the numbers is put into words by the caller.
    assert_eq!(message(&Mismatch::Time { index: 0 }, &gold, &test), None);
    assert_eq!(message(&Mismatch::Payload { index: 0, check: 1 }, &gold, &test), None);
    assert_eq!(kind_text(&gold.events, 1), "deliver");
    assert_eq!(kind_text(&gold.events, 2), "?");
}

#[test]
fn comparator_judges_from_the_verdicts_it_is_given() {
    let gold = trace(&["{\"type\":\"event\",\"t_s\":1,\"payload\":{\"a\":1,\"b\":2}}"]);
    let test = trace(&["{\"type\":\"event\",\"t_s\":1,\"payload\":{\"a\":1,\"b\":2}}"]);
    let ok = Ok(Summary { events: 1, meta_gold: 0, meta_test: 0 });
    let all = |time, a, b| vec![vec![time, a, b]];
    let (within, exceeds) = (Verdict::Within, Verdict::Exceeds);
    let (gold_unreadable, test_unreadable) = (Verdict::GoldUnreadable, Verdict::TestUnreadable);
    assert_eq!(run(&gold, &test, &all(within, within, within)), ok);
    assert_eq!(run(&gold, &test, &all(exceeds, exceeds, exceeds)), Err(Mismatch::Time { index: 0 }));
    assert_eq!(
        run(&gold, &test, &all(gold_unreadable, exceeds, within)),
        Err(Mismatch::MissingTime { index: 0, in_gold: true })
    );
    assert_eq!(
        run(&gold, &test, &all(test_unreadable, within, exceeds)),
        Err(Mismatch::MissingTime { index: 0, in_gold: false })
    );
    assert_eq!(
        run(&gold, &test, &all(within, exceeds, exceeds)),
        Err(Mismatch::Payload { index: 0, check: 1 })
    );
    assert_eq!(
        run(&gold, &test, &all(within, within, exceeds)),
        Err(Mismatch::Payload { index: 0, check: 2 })
    );
    // On payload numbers only `Exceeds` counts against the traces.
    assert_eq!(run(&gold, &test, &all(within, gold_unreadable, test_unreadable)), ok);
    // Where the test event has no time, no verdict makes the times agree.
    let bare = trace(&["{\"type\":\"event\"}"]);
    for answer in [within, exceeds, test_unreadable] {
        assert_eq!(
            run(&gold, &bare, &vec![vec![answer]]),
            Err(Mismatch::MissingTime { index: 0, in_gold: false })
        );
    }
    assert_eq!(
        run(&gold, &bare, &vec![vec![gold_unreadable]]),
        Err(Mismatch::MissingTime { index: 0, in_gold: true })
    );
}
