//! The engine's bookkeeping, its reports and its process rules.

use tsr::cli::Reporter;
use tsr::exec::{
    combine, skipped_from, Claim, Elapsed, LeafWait, Memo, Next, Progress, ResultKind, Selection,
    Sequence, Status, Step, Unit,
};
use tsr::proc::{
    exit_code_of, isolation, next_wait, Isolation, EXIT_INTERRUPTED, GRACE, POLL_MAX, POLL_MIN,
};
use tsr::report::{events_enabled, summary_event, summary_lines, summary_wanted, task_event};
use tsr::text::{count, number, space};

fn took(seconds: &str, millis: &str) -> Option<Elapsed> {
    Some(Elapsed {
        seconds: seconds.to_string(),
        millis: millis.to_string(),
    })
}

#[test]
fn the_first_failure_decides_the_exit_code() {
    let mut p = Progress::new(false);
    assert_eq!(p.exit_code(), 0);
    assert!(p.start_leaf("a"));
    assert_eq!(
        p.finish_leaf("a", LeafWait::Exited(3), took("0.1", "100.0")),
        Status::Failed(3)
    );
    assert!(p.aborted);
    assert!(!p.start_leaf("b"));
    p.note_failure(4);
    p.note_runner("late".to_string());
    assert_eq!(p.exit_code(), 3);
    assert_eq!(p.results.len(), 2);
    assert_eq!(p.results[1].kind, ResultKind::Skipped);
}

#[test]
fn a_runner_error_is_64_and_an_interrupt_130() {
    let mut p = Progress::new(true);
    assert_eq!(
        p.finish_leaf("a", LeafWait::SpawnFailed("no".to_string()), None),
        Status::Runner
    );
    assert!(p.aborted, "a runner error aborts even with --no-bail");
    assert_eq!(p.exit_code(), 64);

    let mut p = Progress::new(false);
    p.interrupt();
    assert_eq!(
        p.finish_leaf("a", LeafWait::Killed, None),
        Status::Skipped
    );
    assert_eq!(p.exit_code(), EXIT_INTERRUPTED);
}

#[test]
fn no_bail_remembers_the_failure_and_goes_on() {
    let mut p = Progress::new(true);
    p.note_failure(5);
    assert!(!p.aborted);
    assert!(p.start_leaf("b"));
    assert_eq!(p.exit_code(), 5);
}

#[test]
fn a_unit_is_claimed_once() {
    let mut m = Memo::new();
    assert_eq!(m.claim("a"), Claim::Mine);
    assert_eq!(m.claim("a"), Claim::Running);
    assert_eq!(m.claim("b"), Claim::Mine);
    m.finish("a", Status::Failed(2));
    assert_eq!(m.claim("a"), Claim::Finished(Status::Failed(2)));
    assert_eq!(m.claim("b"), Claim::Running);
}

#[test]
fn a_unit_is_left_out_only_if_nobody_asked() {
    let mut m = Memo::new();
    assert_eq!(m.claim("a"), Claim::Mine);
    assert!(!m.skip("a"));
    assert_eq!(m.claim("a"), Claim::Running);
    m.finish("a", Status::Passed);
    assert!(!m.skip("a"));
    assert_eq!(m.claim("a"), Claim::Finished(Status::Passed));
    assert!(m.skip("b"));
    assert!(!m.skip("b"));
    assert_eq!(m.claim("b"), Claim::Finished(Status::Skipped));
}

#[test]
fn items_behind_a_failure_are_skipped() {
    let (ok, bad) = (Status::Passed, Status::Failed(1));
    assert_eq!(skipped_from(&vec![ok, bad], false, 5), vec![2, 3, 4]);
    assert_eq!(skipped_from(&vec![Status::Skipped], false, 2), vec![1]);
    assert_eq!(skipped_from(&vec![ok, bad], false, 2), Vec::<usize>::new());
    assert_eq!(skipped_from(&vec![ok, ok], false, 2), Vec::<usize>::new());
    assert_eq!(skipped_from(&vec![bad, ok, bad], true, 3), Vec::<usize>::new());
    assert_eq!(skipped_from(&vec![], false, 0), Vec::<usize>::new());
}

#[test]
fn a_sequence_stops_at_a_failure_unless_told_not_to() {
    let mut s = Sequence::new(false);
    s.note(Status::Passed);
    assert!(s.proceeds());
    s.note(Status::Failed(1));
    assert!(!s.proceeds());
    assert_eq!(s.result, Status::Failed(1));

    let mut s = Sequence::new(true);
    s.note(Status::Failed(1));
    assert!(s.proceeds());
    s.note(Status::Passed);
    assert_eq!(s.result, Status::Failed(1));
}

#[test]
fn parallel_statuses_combine_by_weight() {
    let f = Status::Failed(2);
    assert_eq!(combine(&vec![]), Status::Passed);
    assert_eq!(combine(&vec![Status::Passed, Status::Skipped]), Status::Skipped);
    assert_eq!(combine(&vec![Status::Skipped, f, Status::Failed(3)]), f);
    assert_eq!(combine(&vec![f, Status::Runner]), Status::Runner);
}

#[test]
fn a_unit_takes_its_steps_in_order() {
    let mut u = Unit::new(vec![
        Step::Deps {
            keys: vec!["a".to_string()],
            parallel: false,
        },
        Step::Command,
    ]);
    assert_eq!(u.next(true), Next::Finish(Status::Skipped));
    assert_eq!(u.next(false), Next::Perform(0));
    u.advance(Status::Passed);
    assert_eq!(u.next(true), Next::Finish(Status::Skipped));
    assert_eq!(u.next(false), Next::Perform(1));
    u.advance(Status::Failed(1));
    assert_eq!(u.next(false), Next::Finish(Status::Failed(1)));
}

#[test]
fn a_selection_narrows() {
    let all = Selection::plain();
    assert!(all.selected("a"));
    let some = Selection {
        affected: Some(vec!["a".to_string(), "b".to_string()]),
        skip: Some(vec!["b".to_string()]),
    };
    assert!(some.selected("a"));
    assert!(!some.selected("b"));
    assert!(!some.selected("c"));
}

#[test]
fn task_events_are_quoted() {
    let line = task_event("a \"b\"\n\u{1}é", ResultKind::Failed(3), &took("0.1", "12.5"));
    let v: serde_json::Value = serde_json::from_str(&line).unwrap();
    assert_eq!(v["type"], "task");
    assert_eq!(v["label"], "a \"b\"\n\u{1}é");
    assert_eq!(v["status"], "failed");
    assert_eq!(v["exitCode"], 3);
    assert_eq!(v["durationMs"], 12.5);
    assert!(!line.contains('\n'));

    let line = task_event("x", ResultKind::Skipped, &None);
    let v: serde_json::Value = serde_json::from_str(&line).unwrap();
    assert!(v["exitCode"].is_null() && v["durationMs"].is_null());
}

#[test]
fn a_quoted_text_is_what_serde_json_makes_of_it() {
    for c in (0..0x3000u32).filter_map(char::from_u32) {
        let label = format!("<{c}>");
        let line = task_event(&label, ResultKind::Passed, &None);
        let quoted = serde_json::Value::String(label).to_string();
        assert!(line.contains(&quoted), "{quoted}");
    }
}

#[test]
fn the_summary_counts_every_result() {
    let mut p = Progress::new(true);
    p.record("a", ResultKind::Passed, took("0.1", "100.0"));
    p.record("bb", ResultKind::Failed(7), took("12.0", "12000.0"));
    p.record("c", ResultKind::Skipped, None);
    p.note_failure(7);
    let v: serde_json::Value = serde_json::from_str(&summary_event("ci", &p, "5.25")).unwrap();
    assert_eq!(v["type"], "summary");
    assert_eq!(v["task"], "ci");
    assert_eq!((&v["ok"], &v["failed"], &v["skipped"]), (&1.into(), &1.into(), &1.into()));
    assert_eq!(v["exitCode"], 7);
    assert_eq!(v["durationMs"], 5.25);
    assert!(v["runnerError"].is_null());
    let keys: Vec<&String> = v.as_object().unwrap().keys().collect();
    let mut sorted = keys.clone();
    sorted.sort();
    assert_eq!(keys, sorted);

    assert_eq!(
        summary_lines("ci", &p),
        vec![
            "",
            "✗ ci failed",
            "",
            "  ✓ a   ok         0.1s",
            "  ✗ bb  exit 7     12.0s",
            "  ⊘ c   skipped    ",
            "",
            "exit code: 7",
        ]
    );
}

#[test]
fn the_summary_names_a_runner_error() {
    let mut p = Progress::new(false);
    p.note_runner("cannot run 'x'".to_string());
    let lines = summary_lines("t", &p);
    assert!(lines.contains(&"  cannot run 'x'".to_string()), "{lines:?}");
    let v: serde_json::Value = serde_json::from_str(&summary_event("t", &p, "0.0")).unwrap();
    assert_eq!(v["runnerError"], "cannot run 'x'");
    assert_eq!(v["status"], "failed");
}

#[test]
fn sinks_are_independent() {
    assert!(!events_enabled(Reporter::Human, false));
    assert!(events_enabled(Reporter::Human, true));
    assert!(events_enabled(Reporter::Ndjson, false));
    assert!(summary_wanted(Reporter::Human, 1));
    assert!(!summary_wanted(Reporter::Human, 0));
    assert!(!summary_wanted(Reporter::Ndjson, 1));
}

#[test]
fn waits_double_up_to_a_bound() {
    let mut wait = POLL_MIN;
    for _ in 0..20 {
        let next = next_wait(wait);
        assert_eq!(next, (wait * 2).min(POLL_MAX));
        wait = next;
    }
    assert_eq!(wait, POLL_MAX);
    assert_eq!(GRACE, 2_000);
}

#[test]
fn a_signal_is_128_and_its_number() {
    assert_eq!(exit_code_of(Some(7), None), 7);
    assert_eq!(exit_code_of(None, Some(9)), 137);
    assert_eq!(exit_code_of(None, Some(2)), EXIT_INTERRUPTED);
}

#[test]
fn only_runs_that_can_be_killed_are_isolated() {
    assert_eq!(isolation(true, false), Isolation::Inherited);
    assert_eq!(isolation(true, true), Isolation::Isolated);
}

#[test]
fn numbers_print_as_std_prints_them() {
    for n in [0u64, 7, 10, 999, 1_000_000, u64::MAX] {
        assert_eq!(count(n), n.to_string());
    }
    for n in [0i32, -1, 130, i32::MIN, i32::MAX] {
        assert_eq!(number(n), n.to_string());
    }
}

#[test]
fn a_space_is_what_unicode_calls_white_space() {
    for c in (0..=0x10FFFFu32).filter_map(char::from_u32) {
        assert_eq!(space(c), c.is_whitespace(), "{:x}", c as u32);
    }
}

#[test]
fn the_summary_event_is_one_line() {
    let mut p = Progress::new(false);
    p.note_runner("two\nlines".to_string());
    assert!(!summary_event("a\nb", &p, "1.0").contains('\n'));
}
