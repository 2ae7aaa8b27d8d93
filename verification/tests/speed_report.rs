use rust_nrm::report::{fastest_index, format_time, render_line, report, sort_results};
use rust_nrm::speed_test::{collect_all, ProbeRun, RankedResult, SpeedTestResult};

fn outcome(name: &str, url: &str, ms: u64, ok: bool) -> SpeedTestResult {
    SpeedTestResult::new(String::from(name), String::from(url), ms, ok)
}

#[test]
fn collect_all_returns_one_result_per_endpoint() {
    for n in 0..6usize {
        let mut outcomes = Vec::new();
        for k in 0..n {
            outcomes.push(outcome(&format!("r{}", k), "http://x/", 10 * k as u64, true));
        }
        let run = collect_all(&outcomes);
        assert_eq!(run.len(), n);
        assert!(run.is_complete());
        assert_eq!(run.results().len(), n);
    }
}

#[test]
fn ranks_follow_completion_order() {
    let outcomes = vec![
        outcome("b", "http://b/", 300, true),
        outcome("a", "http://a/", 100, false),
        outcome("c", "http://c/", 200, true),
    ];
    let run = collect_all(&outcomes);
    let results = run.results();
    assert_eq!(results[0].rank, 1);
    assert_eq!(results[0].result.name, "b");
    assert_eq!(results[1].rank, 2);
    assert_eq!(results[1].result.name, "a");
    assert!(!results[1].result.is_success);
    assert_eq!(results[2].rank, 3);
    assert_eq!(results[2].result.name, "c");
}

#[test]
fn ranks_form_permutation_after_sorting() {
    let outcomes = vec![
        outcome("e1", "http://1/", 500, true),
        outcome("e2", "http://2/", 100, false),
        outcome("e3", "http://3/", 400, true),
        outcome("e4", "http://4/", 200, true),
        outcome("e5", "http://5/", 300, false),
    ];
    let run = collect_all(&outcomes);
    let sorted = sort_results(run.results());
    let mut seen = vec![false; 5];
    for r in &sorted {
        assert!(r.rank >= 1 && r.rank <= 5);
        assert!(!seen[r.rank - 1], "duplicate rank");
        seen[r.rank - 1] = true;
    }
    assert!(seen.iter().all(|s| *s));
}

#[test]
fn probe_run_record_assigns_next_rank() {
    let mut run = ProbeRun::new(2);
    assert_eq!(run.expected(), 2);
    assert!(!run.is_complete());
    run.record(outcome("x", "http://x/", 7, true));
    assert_eq!(run.len(), 1);
    run.record(outcome("y", "http://y/", 3, false));
    assert!(run.is_complete());
    let results = run.into_results();
    assert_eq!(results[0].rank, 1);
    assert_eq!(results[0].result.name, "x");
    assert_eq!(results[1].rank, 2);
    assert_eq!(results[1].result.name, "y");
}

#[test]
fn empty_run_reports_nothing() {
    let run = collect_all(&Vec::new());
    let rep = report(&run);
    assert_eq!(rep.sorted.len(), 0);
    assert_eq!(rep.lines.len(), 0);
    assert!(rep.headline.is_none());
}

#[test]
fn all_failed_run_reports_lines_but_no_headline() {
    let outcomes = vec![
        outcome("one", "http://one/", 5000, false),
        outcome("two", "http://two/", 4999, false),
        outcome("three", "http://three/", 5001, false),
    ];
    let run = collect_all(&outcomes);
    let rep = report(&run);
    assert_eq!(rep.lines.len(), 3);
    assert!(rep.headline.is_none());
    for line in &rep.lines {
        assert!(line.contains('✗'));
    }
}

#[test]
fn sort_is_stable_and_idempotent() {
    let outcomes = vec![
        outcome("first", "http://1/", 200, true),
        outcome("second", "http://2/", 100, true),
        outcome("third", "http://3/", 200, true),
        outcome("fourth", "http://4/", 100, false),
    ];
    let run = collect_all(&outcomes);
    let sorted = sort_results(run.results());
    let order: Vec<&str> = sorted.iter().map(|r| r.result.name.as_str()).collect();
    // equal durations keep completion order
    assert_eq!(order, vec!["second", "fourth", "first", "third"]);
    let sorted_again = sort_results(&sorted);
    let order_again: Vec<&str> = sorted_again.iter().map(|r| r.result.name.as_str()).collect();
    assert_eq!(order, order_again);
    let ranks: Vec<usize> = sorted.iter().map(|r| r.rank).collect();
    let ranks_again: Vec<usize> = sorted_again.iter().map(|r| r.rank).collect();
    assert_eq!(ranks, ranks_again);
}

#[test]
fn two_unroutable_endpoints_both_fail_with_ranks_one_and_two() {
    // completion events as the shell would observe them when both probes
    // run into the full five-second timeout
    let outcomes = vec![
        outcome("a", "http://10.255.255.1", 5003, false),
        outcome("b", "http://10.255.255.2", 5001, false),
    ];
    let run = collect_all(&outcomes);
    assert_eq!(run.len(), 2);
    let results = run.results();
    assert!(!results[0].result.is_success);
    assert!(!results[1].result.is_success);
    assert!(results[0].result.response_time >= 5000 && results[0].result.response_time < 5500);
    assert!(results[1].result.response_time >= 5000 && results[1].result.response_time < 5500);
    let mut ranks: Vec<usize> = results.iter().map(|r| r.rank).collect();
    ranks.sort();
    assert_eq!(ranks, vec![1, 2]);
    assert!(report(&run).headline.is_none());
}

#[test]
fn single_fast_responder_is_named_fastest() {
    let outcomes = vec![outcome("local", "http://127.0.0.1:8080/", 42, true)];
    let run = collect_all(&outcomes);
    assert_eq!(run.len(), 1);
    let results = run.results();
    assert!(results[0].result.is_success);
    assert!(results[0].result.response_time > 0);
    assert_eq!(results[0].rank, 1);
    let rep = report(&run);
    assert_eq!(rep.lines.len(), 1);
    assert_eq!(rep.lines[0], "1 ✓ local -> 42ms");
    assert_eq!(
        rep.headline,
        Some(String::from("Fastest registry is local (42ms)"))
    );
}

#[test]
fn headline_names_success_regardless_of_completion_order() {
    // the failing probe completes first (rank 1), the slow success last
    let fail_first = vec![
        outcome("broken", "http://broken/", 10, false),
        outcome("alive", "http://alive/", 3000, true),
    ];
    let rep = report(&collect_all(&fail_first));
    assert_eq!(
        rep.headline,
        Some(String::from("Fastest registry is alive (3000ms)"))
    );
    // and the other way round
    let success_first = vec![
        outcome("alive", "http://alive/", 3000, true),
        outcome("broken", "http://broken/", 10, false),
    ];
    let rep = report(&collect_all(&success_first));
    assert_eq!(
        rep.headline,
        Some(String::from("Fastest registry is alive (3000ms)"))
    );
}

#[test]
fn fastest_index_picks_first_minimal_success() {
    let outcomes = vec![
        outcome("f1", "http://1/", 5, false),
        outcome("s1", "http://2/", 70, true),
        outcome("s2", "http://3/", 70, true),
        outcome("s3", "http://4/", 90, true),
    ];
    let run = collect_all(&outcomes);
    let idx = fastest_index(run.results());
    assert_eq!(idx, Some(1));
    let none = fastest_index(collect_all(&vec![outcome("f", "http://f/", 1, false)]).results());
    assert_eq!(none, None);
    let empty: Vec<RankedResult> = Vec::new();
    assert_eq!(fastest_index(&empty), None);
}

#[test]
fn report_lines_follow_duration_order() {
    let outcomes = vec![
        outcome("slow", "http://s/", 900, true),
        outcome("quick", "http://q/", 80, true),
        outcome("middling", "http://m/", 450, false),
    ];
    let rep = report(&collect_all(&outcomes));
    assert_eq!(rep.lines.len(), 3);
    assert_eq!(rep.lines[0], "2 ✓ quick -> 80ms");
    assert_eq!(rep.lines[1], "3 ✗ middling -> 450ms");
    assert_eq!(rep.lines[2], "1 ✓ slow -> 900ms");
    assert_eq!(
        rep.headline,
        Some(String::from("Fastest registry is quick (80ms)"))
    );
}

#[test]
fn time_and_line_formatting_is_exact() {
    assert_eq!(format_time(0), "0ms");
    assert_eq!(format_time(7), "7ms");
    assert_eq!(format_time(905), "905ms");
    assert_eq!(format_time(1234), "1234ms");
    assert_eq!(format_time(10000), "10000ms");
    let r = RankedResult {
        result: SpeedTestResult::new(String::from("npm"), String::from("https://registry.npmjs.org/"), 120, true),
        rank: 3,
    };
    assert_eq!(render_line(&r), "3 ✓ npm -> 120ms");
}
